use winswitch::hook::{next_phase, DaemonPhase, HookDecision, HookEvent, HotkeyDaemon, KeyPhase};

const TRIGGER: u32 = 0x1B;
const OTHER_KEY: u32 = 0x41;

fn key(vk: u32, phase: KeyPhase, modifier_held: bool) -> HookEvent {
    HookEvent::Key { vk, phase, modifier_held }
}

#[test]
fn trigger_down_without_modifier_passes_through() {
    let mut d = HotkeyDaemon::new(TRIGGER);
    let (decision, fired) = d.classify(key(TRIGGER, KeyPhase::Press, false));
    assert_eq!(decision, HookDecision::PassThrough);
    assert!(!fired);
}

#[test]
fn modifier_and_trigger_down_consumes_without_side_effect() {
    let mut d = HotkeyDaemon::new(TRIGGER);
    let (decision, fired) = d.classify(key(TRIGGER, KeyPhase::Press, true));
    assert_eq!(decision, HookDecision::Consume);
    assert!(!fired);
}

#[test]
fn modifier_and_trigger_up_consumes_and_fires_once() {
    let mut d = HotkeyDaemon::new(TRIGGER);
    let (decision, fired) = d.classify(key(TRIGGER, KeyPhase::Release, true));
    assert_eq!(decision, HookDecision::Consume);
    assert!(fired);
}

#[test]
fn auto_repeated_downs_consume_without_extra_side_effects() {
    let mut d = HotkeyDaemon::new(TRIGGER);
    for _ in 0..5 {
        let (decision, fired) = d.classify(key(TRIGGER, KeyPhase::Press, true));
        assert_eq!(decision, HookDecision::Consume);
        assert!(!fired);
    }
    let (decision, fired) = d.classify(key(TRIGGER, KeyPhase::Release, true));
    assert_eq!(decision, HookDecision::Consume);
    assert!(fired);
}

#[test]
fn other_keys_pass_through_with_or_without_modifier() {
    let mut d = HotkeyDaemon::new(TRIGGER);
    let (decision, fired) = d.classify(key(OTHER_KEY, KeyPhase::Press, true));
    assert_eq!(decision, HookDecision::PassThrough);
    assert!(!fired);
    let (decision, fired) = d.classify(key(OTHER_KEY, KeyPhase::Release, false));
    assert_eq!(decision, HookDecision::PassThrough);
    assert!(!fired);
}

#[test]
fn non_key_events_pass_through() {
    let mut d = HotkeyDaemon::new(TRIGGER);
    let (decision, fired) = d.classify(HookEvent::Other);
    assert_eq!(decision, HookDecision::PassThrough);
    assert!(!fired);
}

#[test]
fn a_trigger_in_flight_suppresses_further_side_effects() {
    let mut d = HotkeyDaemon::new(TRIGGER);
    let (_, fired) = d.classify(key(TRIGGER, KeyPhase::Release, true));
    assert!(fired);
    // The event is still consumed, but no second side effect launches
    // until the first reports completion.
    let (decision, fired) = d.classify(key(TRIGGER, KeyPhase::Release, true));
    assert_eq!(decision, HookDecision::Consume);
    assert!(!fired);
    d.side_effect_finished();
    let (_, fired) = d.classify(key(TRIGGER, KeyPhase::Release, true));
    assert!(fired);
}

#[test]
fn daemon_stops_on_shutdown_and_stays_stopped() {
    let p = DaemonPhase::Idle;
    let p = next_phase(p, false);
    assert_eq!(p, DaemonPhase::Idle);
    let p = next_phase(p, true);
    assert_eq!(p, DaemonPhase::Stopped);
    let p = next_phase(p, false);
    assert_eq!(p, DaemonPhase::Stopped);
}
