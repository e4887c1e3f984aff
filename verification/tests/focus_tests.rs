use winswitch::focus::{
    focus_start, focus_step, outcome_to_result, ActivationOutcome, FocusAction, FocusError,
    FocusEvent, FocusPhase,
};

/// Drive the whole sequence as the application would, with the two
/// modifier reads reporting `pre_held` and `post_held` and the activation
/// reporting `outcome`; collect every requested action.
fn drive(pre_held: bool, outcome: ActivationOutcome, post_held: bool) -> Vec<FocusAction> {
    let (mut phase, first) = focus_start();
    assert_eq!(first, FocusAction::ReadModifier);
    let mut actions = Vec::new();
    let mut events = vec![FocusEvent::ModifierState(pre_held)];
    if !pre_held {
        events.push(FocusEvent::Synthesized);
    }
    events.push(FocusEvent::Activation(outcome));
    events.push(FocusEvent::ModifierState(post_held));
    if !post_held {
        events.push(FocusEvent::Synthesized);
    }
    for e in events {
        let (next, action) = focus_step(phase, e);
        phase = next;
        actions.push(action);
    }
    assert!(matches!(phase, FocusPhase::Done { .. }));
    actions
}

#[test]
fn held_modifier_is_never_toggled() {
    for outcome in [
        ActivationOutcome::Activated,
        ActivationOutcome::HandleGone,
        ActivationOutcome::Refused,
    ] {
        let actions = drive(true, outcome, true);
        assert!(!actions.contains(&FocusAction::PressModifier));
        assert!(!actions.contains(&FocusAction::ReleaseModifier));
    }
}

#[test]
fn released_modifier_is_pressed_and_released_around_activation() {
    let actions = drive(false, ActivationOutcome::Activated, false);
    assert_eq!(
        actions,
        vec![
            FocusAction::PressModifier,
            FocusAction::RequestActivation,
            FocusAction::ReadModifier,
            FocusAction::ReleaseModifier,
            FocusAction::Finish(Ok(())),
        ]
    );
}

#[test]
fn stale_handle_reports_invalid_handle() {
    let actions = drive(true, ActivationOutcome::HandleGone, true);
    assert_eq!(
        actions.last(),
        Some(&FocusAction::Finish(Err(FocusError::InvalidHandle)))
    );
}

#[test]
fn refused_activation_reports_denied() {
    let actions = drive(false, ActivationOutcome::Refused, true);
    assert_eq!(
        actions.last(),
        Some(&FocusAction::Finish(Err(FocusError::Denied)))
    );
}

#[test]
fn successful_activation_reports_ok() {
    let actions = drive(true, ActivationOutcome::Activated, false);
    assert_eq!(actions.last(), Some(&FocusAction::Finish(Ok(()))));
}

#[test]
fn outcome_mapping_is_exact() {
    assert_eq!(outcome_to_result(ActivationOutcome::Activated), Ok(()));
    assert_eq!(
        outcome_to_result(ActivationOutcome::HandleGone),
        Err(FocusError::InvalidHandle)
    );
    assert_eq!(
        outcome_to_result(ActivationOutcome::Refused),
        Err(FocusError::Denied)
    );
}

#[test]
fn unexpected_event_reissues_the_pending_request() {
    let (phase, _) = focus_start();
    let (next, action) = focus_step(phase, FocusEvent::Synthesized);
    assert_eq!(next, FocusPhase::AwaitPre);
    assert_eq!(action, FocusAction::ReadModifier);
}
