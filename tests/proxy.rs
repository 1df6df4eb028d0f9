use persistent_evdev::proxy::{release_events, ProxyAction, ProxyEvent, ProxyPhase, ProxySession, RawEvent};

fn key_up(code: u16) -> RawEvent {
    RawEvent { type_code: 1, code, value: 0 }
}

#[test]
fn release_two_held_keys_before_polling() {
    let mut s = ProxySession::new();
    match s.step(ProxyEvent::KeyState(vec![30, 31])) {
        ProxyAction::SendKeyUps(e) => assert_eq!(e, vec![key_up(30), key_up(31)]),
        other => panic!("unexpected {:?}", other),
    }
    assert_eq!(s.phase, ProxyPhase::WaitForRelease);
    assert!(matches!(s.step(ProxyEvent::KeyState(vec![31])), ProxyAction::PollAfter(100)));
    assert_eq!(s.phase, ProxyPhase::WaitForRelease);
    assert!(matches!(s.step(ProxyEvent::KeyState(vec![])), ProxyAction::Grab));
    assert_eq!(s.phase, ProxyPhase::Grabbing);
}

#[test]
fn held_key_at_bind_time_waits_for_release() {
    let mut s = ProxySession::new();
    match s.step(ProxyEvent::KeyState(vec![2])) {
        ProxyAction::SendKeyUps(e) => assert_eq!(e, vec![key_up(2)]),
        other => panic!("unexpected {:?}", other),
    }
    for _ in 0..3 {
        assert!(matches!(s.step(ProxyEvent::KeyState(vec![2])), ProxyAction::PollAfter(100)));
    }
    assert!(matches!(s.step(ProxyEvent::KeyState(vec![])), ProxyAction::Grab));
    assert!(matches!(s.step(ProxyEvent::Grabbed(true)), ProxyAction::Fetch));
    assert_eq!(s.phase, ProxyPhase::Forwarding);
}

#[test]
fn nothing_held_sends_no_events() {
    let mut s = ProxySession::new();
    match s.step(ProxyEvent::KeyState(vec![])) {
        ProxyAction::SendKeyUps(e) => assert!(e.is_empty()),
        other => panic!("unexpected {:?}", other),
    }
    assert!(matches!(s.step(ProxyEvent::KeyState(vec![])), ProxyAction::Grab));
}

#[test]
fn grab_refused_ends_the_run() {
    let mut s = ProxySession::new();
    s.step(ProxyEvent::KeyState(vec![]));
    s.step(ProxyEvent::KeyState(vec![]));
    assert!(matches!(s.step(ProxyEvent::Grabbed(false)), ProxyAction::Stop));
    assert_eq!(s.phase, ProxyPhase::Finished);
    assert!(matches!(s.step(ProxyEvent::KeyState(vec![])), ProxyAction::Stop));
}

#[test]
fn forwarding_survives_emit_failures_and_ends_on_fetch_failure() {
    let mut s = ProxySession::new();
    s.step(ProxyEvent::KeyState(vec![]));
    s.step(ProxyEvent::KeyState(vec![]));
    s.step(ProxyEvent::Grabbed(true));
    assert!(matches!(s.step(ProxyEvent::Fetched(true)), ProxyAction::Emit));
    assert!(matches!(s.step(ProxyEvent::Emitted(false)), ProxyAction::Fetch));
    assert!(matches!(s.step(ProxyEvent::Fetched(true)), ProxyAction::Emit));
    assert!(matches!(s.step(ProxyEvent::Emitted(true)), ProxyAction::Fetch));
    assert!(matches!(s.step(ProxyEvent::Fetched(false)), ProxyAction::Stop));
    assert_eq!(s.phase, ProxyPhase::Finished);
}

#[test]
fn key_state_failure_ends_the_run() {
    let mut s = ProxySession::new();
    assert!(matches!(s.step(ProxyEvent::DeviceFailed), ProxyAction::Stop));
    assert_eq!(s.phase, ProxyPhase::Finished);
}

#[test]
fn release_events_keep_order() {
    assert_eq!(release_events(&vec![31, 30, 2]), vec![key_up(31), key_up(30), key_up(2)]);
}
