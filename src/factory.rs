use vstd::prelude::*;
use crate::capabilities::{Capabilities, CapabilitiesView};

verus! {

/// One capability group applied to a virtual device under construction.
#[derive(Clone, Copy, Debug, PartialEq, Eq, Structural)]
pub enum CapabilityGroup {
    Properties,
    Keys,
    /// The absolute axis at this index of the descriptor, with its calibration.
    AbsoluteAxis(usize),
    RelativeAxes,
    Switches,
    ForceFeedback,
    /// The maximum number of force-feedback effects, saturated to 32 bits.
    EffectSlots(u32),
    Misc,
}

/// The group once, or not at all when the set it would apply is empty.
pub open spec fn unless_empty(g: CapabilityGroup, s: Seq<u16>) -> Seq<CapabilityGroup> {
    if s.len() == 0 {
        Seq::empty()
    } else {
        seq![g]
    }
}

pub open spec fn axis_steps(n: nat) -> Seq<CapabilityGroup> {
    Seq::new(n, |i: int| CapabilityGroup::AbsoluteAxis(i as usize))
}

pub open spec fn saturated_u32(n: usize) -> u32 {
    if n > u32::MAX {
        u32::MAX
    } else {
        n as u32
    }
}

/// The groups to apply, in the order the subsystem validates them: properties, keys,
/// each absolute axis, relative axes, switches, force-feedback codes, the effect-slot
/// maximum, then miscellaneous codes.
pub open spec fn plan_of(c: CapabilitiesView) -> Seq<CapabilityGroup> {
    unless_empty(CapabilityGroup::Properties, c.properties) + unless_empty(
        CapabilityGroup::Keys,
        c.keys,
    ) + axis_steps(c.absolute_axes.len()) + unless_empty(
        CapabilityGroup::RelativeAxes,
        c.relative_axes,
    ) + unless_empty(CapabilityGroup::Switches, c.switches) + unless_empty(
        CapabilityGroup::ForceFeedback,
        c.ff,
    ) + seq![CapabilityGroup::EffectSlots(saturated_u32(c.max_ff_effects))] + unless_empty(
        CapabilityGroup::Misc,
        c.msc,
    )
}

fn push_unless_empty(out: &mut Vec<CapabilityGroup>, g: CapabilityGroup, s: &Vec<u16>)
    ensures
        final(out)@ == old(out)@ + unless_empty(g, s@),
{
    if s.len() > 0 {
        out.push(g);
    }
    assert(final(out)@ =~= old(out)@ + unless_empty(g, s@));
}

/// The capability groups that building a virtual device from `caps` applies, in order.
pub fn creation_plan(caps: &Capabilities) -> (r: Vec<CapabilityGroup>)
    ensures
        r@ == plan_of(caps@),
{
    let mut out: Vec<CapabilityGroup> = Vec::new();
    push_unless_empty(&mut out, CapabilityGroup::Properties, &caps.properties);
    push_unless_empty(&mut out, CapabilityGroup::Keys, &caps.keys);
    let ghost before = out@;
    let n = caps.absolute_axes.len();
    let mut i: usize = 0;
    while i < n
        invariant
            i <= n,
            n == caps.absolute_axes@.len(),
            out@ == before + axis_steps(i as nat),
        decreases n - i,
    {
        out.push(CapabilityGroup::AbsoluteAxis(i));
        assert(axis_steps((i + 1) as nat) =~= axis_steps(i as nat).push(
            CapabilityGroup::AbsoluteAxis(i),
        ));
        i += 1;
    }
    push_unless_empty(&mut out, CapabilityGroup::RelativeAxes, &caps.relative_axes);
    push_unless_empty(&mut out, CapabilityGroup::Switches, &caps.switches);
    push_unless_empty(&mut out, CapabilityGroup::ForceFeedback, &caps.ff);
    let slots: u32 = if caps.max_ff_effects > u32::MAX as usize {
        u32::MAX
    } else {
        caps.max_ff_effects as u32
    };
    out.push(CapabilityGroup::EffectSlots(slots));
    push_unless_empty(&mut out, CapabilityGroup::Misc, &caps.msc);
    assert(out@ =~= plan_of(caps@));
    out
}

} // verus!
