use persistent_evdev::capabilities::{AbsInfoData, Capabilities};
use persistent_evdev::factory::{creation_plan, CapabilityGroup};

fn caps_with_keys(keys: Vec<u16>) -> Capabilities {
    Capabilities {
        properties: vec![],
        keys,
        relative_axes: vec![],
        absolute_axes: vec![],
        switches: vec![],
        ff: vec![],
        max_ff_effects: 0,
        msc: vec![],
    }
}

#[test]
fn plan_omits_empty_groups() {
    let plan = creation_plan(&caps_with_keys(vec![2, 3]));
    assert_eq!(plan, vec![CapabilityGroup::Keys, CapabilityGroup::EffectSlots(0)]);
}

#[test]
fn plan_keeps_the_fixed_order() {
    let info = AbsInfoData { value: 0, minimum: 0, maximum: 255, fuzz: 0, flat: 0, resolution: 0 };
    let c = Capabilities {
        properties: vec![1],
        keys: vec![304],
        relative_axes: vec![0],
        absolute_axes: vec![(1, info), (0, info)],
        switches: vec![2],
        ff: vec![80],
        max_ff_effects: 10,
        msc: vec![4],
    };
    assert_eq!(
        creation_plan(&c),
        vec![
            CapabilityGroup::Properties,
            CapabilityGroup::Keys,
            CapabilityGroup::AbsoluteAxis(0),
            CapabilityGroup::AbsoluteAxis(1),
            CapabilityGroup::RelativeAxes,
            CapabilityGroup::Switches,
            CapabilityGroup::ForceFeedback,
            CapabilityGroup::EffectSlots(10),
            CapabilityGroup::Misc,
        ]
    );
}

#[test]
fn plan_saturates_effect_slots() {
    let mut c = caps_with_keys(vec![]);
    c.max_ff_effects = usize::MAX;
    assert_eq!(creation_plan(&c), vec![CapabilityGroup::EffectSlots(u32::MAX)]);
}
