use persistent_evdev::capabilities::{Capabilities, CodecError};
use persistent_evdev::config::{default_cache, default_udev_interval, Config};
use persistent_evdev::factory::{creation_plan, CapabilityGroup};
use persistent_evdev::lifecycle::{
    descriptor_source, triggers_sweep, DescriptorSource, HotplugKind, LifecycleAction, LifecycleEvent,
    Manager, RecordState, Status,
};

fn one_device() -> Manager {
    let config = Config::new(None, vec![("kbd1".to_string(), "/dev/input/event5".to_string())], None);
    Manager::new(&config)
}

fn state(status: Status, has_virtual: bool) -> RecordState {
    RecordState { status, has_virtual }
}

#[test]
fn config_defaults() {
    assert_eq!(default_cache(), "/opt/persistent-evdev-rs/cache");
    assert_eq!(default_udev_interval(), 50);
    let c = Config::new(None, vec![], None);
    assert_eq!(c.cache, "/opt/persistent-evdev-rs/cache");
    assert_eq!(c.udev_interval, 50);
    let c = Config::new(Some("/tmp/c".to_string()), vec![], Some(7));
    assert_eq!(c.cache, "/tmp/c");
    assert_eq!(c.udev_interval, 7);
}

#[test]
fn new_manager_starts_pending() {
    let m = one_device();
    assert_eq!(m.records[0].name, "kbd1");
    assert_eq!(m.records[0].path, "/dev/input/event5");
    assert_eq!(m.states, vec![state(Status::Pending, false)]);
}

#[test]
fn sweep_with_unchanged_paths_changes_nothing() {
    let mut m = one_device();
    assert!(m.sweep(&vec![false]).is_empty());
    assert_eq!(m.states, vec![state(Status::Pending, false)]);
    assert_eq!(m.sweep(&vec![true]), vec![0]);
    assert_eq!(m.states, vec![state(Status::Binding, false)]);
    assert!(m.sweep(&vec![true]).is_empty());
    assert_eq!(m.states, vec![state(Status::Binding, false)]);
}

#[test]
fn sweep_picks_pending_present_records_in_order() {
    let config = Config::new(
        None,
        vec![
            ("a".to_string(), "/dev/input/event1".to_string()),
            ("b".to_string(), "/dev/input/event2".to_string()),
            ("c".to_string(), "/dev/input/event3".to_string()),
        ],
        None,
    );
    let mut m = Manager::new(&config);
    assert_eq!(m.sweep(&vec![true, false, true]), vec![0, 2]);
    assert_eq!(m.states[1], state(Status::Pending, false));
}

#[test]
fn virtual_device_built_once_across_rebinds() {
    let mut m = one_device();
    let mut creates = 0;
    for _ in 0..3 {
        assert_eq!(m.sweep(&vec![true]), vec![0]);
        let act = m.apply(0, LifecycleEvent::Opened);
        if act == LifecycleAction::CreateVirtual {
            creates += 1;
            assert_eq!(m.apply(0, LifecycleEvent::Created(true)), LifecycleAction::Dispatch);
        } else {
            assert_eq!(act, LifecycleAction::Dispatch);
        }
        assert_eq!(m.states[0], state(Status::Active, true));
        assert_eq!(m.apply(0, LifecycleEvent::ProxyExited), LifecycleAction::Nothing);
        assert_eq!(m.states[0], state(Status::Pending, true));
    }
    assert_eq!(creates, 1);
}

#[test]
fn failed_open_returns_to_pending() {
    let mut m = one_device();
    m.sweep(&vec![true]);
    assert_eq!(m.apply(0, LifecycleEvent::OpenFailed), LifecycleAction::Nothing);
    assert_eq!(m.states[0], state(Status::Pending, false));
}

#[test]
fn failed_creation_returns_to_pending_and_retries() {
    let mut m = one_device();
    m.sweep(&vec![true]);
    assert_eq!(m.apply(0, LifecycleEvent::Opened), LifecycleAction::CreateVirtual);
    assert_eq!(m.apply(0, LifecycleEvent::Created(false)), LifecycleAction::Nothing);
    assert_eq!(m.states[0], state(Status::Pending, false));
    m.sweep(&vec![true]);
    assert_eq!(m.apply(0, LifecycleEvent::Opened), LifecycleAction::CreateVirtual);
}

#[test]
fn events_out_of_turn_are_ignored() {
    let mut m = one_device();
    assert_eq!(m.apply(0, LifecycleEvent::Opened), LifecycleAction::Nothing);
    assert_eq!(m.apply(0, LifecycleEvent::Created(true)), LifecycleAction::Nothing);
    assert_eq!(m.apply(0, LifecycleEvent::ProxyExited), LifecycleAction::Nothing);
    assert_eq!(m.states[0], state(Status::Pending, false));
}

#[test]
fn missing_cache_entry_falls_back_to_live_device() {
    let loaded = Capabilities::load(None);
    assert_eq!(descriptor_source(&loaded), DescriptorSource::LearnAndSave);
    let bad: Result<Capabilities, CodecError> = Capabilities::load(Some(vec![0, 1]));
    assert_eq!(descriptor_source(&bad), DescriptorSource::LearnAndSave);
}

#[test]
fn present_cache_entry_is_used() {
    let c = Capabilities {
        properties: vec![],
        keys: vec![2, 3],
        relative_axes: vec![],
        absolute_axes: vec![],
        switches: vec![],
        ff: vec![],
        max_ff_effects: 0,
        msc: vec![],
    };
    let loaded = Capabilities::load(Some(c.save()));
    assert_eq!(descriptor_source(&loaded), DescriptorSource::Cached);
}

#[test]
fn hotplug_add_triggers_sweep() {
    assert!(triggers_sweep(HotplugKind::Add));
    assert!(!triggers_sweep(HotplugKind::Other));
}

#[test]
fn end_to_end_first_binding_of_kbd1() {
    let mut m = one_device();
    // the path is absent at startup
    assert!(m.sweep(&vec![false]).is_empty());
    assert_eq!(m.states[0].status, Status::Pending);
    // a hotplug notification arrives and the path now exists
    assert!(triggers_sweep(HotplugKind::Add));
    assert_eq!(m.sweep(&vec![true]), vec![0]);
    assert_eq!(m.states[0].status, Status::Binding);
    assert_eq!(m.apply(0, LifecycleEvent::Opened), LifecycleAction::CreateVirtual);
    // no cache entry: learn from the device and save it
    assert_eq!(descriptor_source(&Capabilities::load(None)), DescriptorSource::LearnAndSave);
    let learned = Capabilities {
        properties: vec![],
        keys: vec![2, 3],
        relative_axes: vec![],
        absolute_axes: vec![],
        switches: vec![],
        ff: vec![],
        max_ff_effects: 0,
        msc: vec![],
    };
    let entry = learned.save();
    assert_eq!(Capabilities::load(Some(entry)).unwrap().keys, vec![2, 3]);
    let plan = creation_plan(&learned);
    assert_eq!(plan, vec![CapabilityGroup::Keys, CapabilityGroup::EffectSlots(0)]);
    assert_eq!(m.apply(0, LifecycleEvent::Created(true)), LifecycleAction::Dispatch);
    assert_eq!(m.states[0], state(Status::Active, true));
}

#[test]
fn startup_with_cached_virtual_devices() {
    let config = Config::new(
        None,
        vec![
            ("kbd1".to_string(), "/dev/input/event5".to_string()),
            ("pad".to_string(), "/dev/input/event6".to_string()),
        ],
        None,
    );
    let mut m = Manager::with_virtuals(&config, &vec![true, false]);
    assert_eq!(m.records[1].name, "pad");
    assert_eq!(m.states, vec![state(Status::Pending, true), state(Status::Pending, false)]);
    assert_eq!(m.sweep(&vec![true, true]), vec![0, 1]);
    assert_eq!(m.apply(0, LifecycleEvent::Opened), LifecycleAction::Dispatch);
    assert_eq!(m.apply(1, LifecycleEvent::Opened), LifecycleAction::CreateVirtual);
}

#[test]
fn sweep_failed_open_sweep_returns_to_same_state() {
    let mut m = one_device();
    assert_eq!(m.sweep(&vec![true]), vec![0]);
    m.apply(0, LifecycleEvent::OpenFailed);
    assert_eq!(m.states, vec![state(Status::Pending, false)]);
    assert_eq!(m.sweep(&vec![true]), vec![0]);
    m.apply(0, LifecycleEvent::OpenFailed);
    assert_eq!(m.states, vec![state(Status::Pending, false)]);
}

#[test]
fn invalid_cache_entry_falls_back_to_live_device() {
    let c = Capabilities {
        properties: vec![],
        keys: vec![2, 3, 2],
        relative_axes: vec![],
        absolute_axes: vec![],
        switches: vec![],
        ff: vec![],
        max_ff_effects: 0,
        msc: vec![],
    };
    assert!(!c.is_valid());
    let loaded = Capabilities::load(Some(c.save()));
    assert!(loaded.is_ok());
    assert_eq!(descriptor_source(&loaded), DescriptorSource::LearnAndSave);
}
