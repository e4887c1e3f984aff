//! The focus-transfer sequence.
//!
//! The operating system may refuse to hand foreground focus to a window not
//! owned by the foreground process. The classic workaround brackets the
//! activation request with a synthetic press and release of a menu-class
//! modifier key — but only when that modifier is not already held, because
//! toggling a key the user is physically holding would corrupt their real
//! key state. The sequence is: read the modifier state; press the modifier
//! if it was not held; request activation; read the state again; release the
//! modifier if it is not held.
//!
//! The sequence is expressed as a state machine. The surrounding application
//! performs each emitted [`FocusAction`] against the operating system and
//! feeds the observation back as a [`FocusEvent`]; every decision in between
//! is made — and verified — here.

use vstd::prelude::*;

verus! {

/// Why an activation attempt did not end with focus on the target.
#[derive(Clone, Copy, PartialEq, Eq, Structural, Debug)]
pub enum FocusError {
    /// The window handle no longer names a live window: the window closed
    /// between enumeration and activation. Recoverable; never retried.
    InvalidHandle,
    /// The operating system refused the activation even after the bypass
    /// sequence. Reported, not retried.
    Denied,
}

/// What the operating system reported for the activation request itself.
#[derive(Clone, Copy, PartialEq, Eq, Structural, Debug)]
pub enum ActivationOutcome {
    /// The target window took foreground focus.
    Activated,
    /// The handle was no longer valid at the point of use.
    HandleGone,
    /// The handle was valid but the activation was refused.
    Refused,
}

/// One request from the state machine to the surrounding application.
#[derive(Clone, Copy, PartialEq, Eq, Debug)]
pub enum FocusAction {
    /// Read whether the bypass modifier key is currently held.
    ReadModifier,
    /// Synthesize a press of the bypass modifier key.
    PressModifier,
    /// Ask the operating system to put the target window in the foreground,
    /// re-validating the handle at the point of use.
    RequestActivation,
    /// Synthesize a release of the bypass modifier key.
    ReleaseModifier,
    /// The sequence is over; this is its result.
    Finish(Result<(), FocusError>),
}

/// One observation the application feeds back after performing an action.
#[derive(Clone, Copy, PartialEq, Eq, Structural, Debug)]
pub enum FocusEvent {
    /// Result of reading the modifier key state: true when held.
    ModifierState(bool),
    /// A requested synthetic key event has been injected.
    Synthesized,
    /// Result of the activation request.
    Activation(ActivationOutcome),
}

/// Where the sequence stands.
#[derive(Clone, Copy, PartialEq, Eq, Structural, Debug)]
pub enum FocusPhase {
    /// Waiting for the first modifier-state read.
    AwaitPre,
    /// A modifier press was requested; waiting for its injection.
    Pressing,
    /// Activation was requested; waiting for its outcome.
    Activating,
    /// Waiting for the second modifier-state read.
    AwaitPost { outcome: ActivationOutcome },
    /// A modifier release was requested; waiting for its injection.
    Releasing { outcome: ActivationOutcome },
    /// The sequence is complete.
    Done { outcome: ActivationOutcome },
}

/// The result the whole sequence reports for a given activation outcome.
pub open spec fn outcome_result(outcome: ActivationOutcome) -> Result<(), FocusError> {
    match outcome {
        ActivationOutcome::Activated => Ok(()),
        ActivationOutcome::HandleGone => Err(FocusError::InvalidHandle),
        ActivationOutcome::Refused => Err(FocusError::Denied),
    }
}

/// The action a phase is waiting on; re-issued when the application feeds
/// back an event the phase does not expect.
pub open spec fn pending_action(phase: FocusPhase) -> FocusAction {
    match phase {
        FocusPhase::AwaitPre => FocusAction::ReadModifier,
        FocusPhase::Pressing => FocusAction::PressModifier,
        FocusPhase::Activating => FocusAction::RequestActivation,
        FocusPhase::AwaitPost { .. } => FocusAction::ReadModifier,
        FocusPhase::Releasing { .. } => FocusAction::ReleaseModifier,
        FocusPhase::Done { outcome } => FocusAction::Finish(outcome_result(outcome)),
    }
}

/// The transition relation of the sequence: from a phase and an observation
/// to the next phase and the next request. A synthetic modifier event is
/// requested only when the immediately preceding read reported the modifier
/// not held; an unexpected observation leaves the phase unchanged and
/// re-issues its pending request.
pub open spec fn step_spec(phase: FocusPhase, event: FocusEvent) -> (FocusPhase, FocusAction) {
    match (phase, event) {
        (FocusPhase::AwaitPre, FocusEvent::ModifierState(held)) => if held {
            (FocusPhase::Activating, FocusAction::RequestActivation)
        } else {
            (FocusPhase::Pressing, FocusAction::PressModifier)
        },
        (FocusPhase::Pressing, FocusEvent::Synthesized) => (
            FocusPhase::Activating,
            FocusAction::RequestActivation,
        ),
        (FocusPhase::Activating, FocusEvent::Activation(outcome)) => (
            FocusPhase::AwaitPost { outcome },
            FocusAction::ReadModifier,
        ),
        (FocusPhase::AwaitPost { outcome }, FocusEvent::ModifierState(held)) => if held {
            (FocusPhase::Done { outcome }, FocusAction::Finish(outcome_result(outcome)))
        } else {
            (FocusPhase::Releasing { outcome }, FocusAction::ReleaseModifier)
        },
        (FocusPhase::Releasing { outcome }, FocusEvent::Synthesized) => (
            FocusPhase::Done { outcome },
            FocusAction::Finish(outcome_result(outcome)),
        ),
        _ => (phase, pending_action(phase)),
    }
}

/// The phase in which a focus-transfer sequence starts, paired with the
/// first request to perform.
pub fn focus_start() -> (r: (FocusPhase, FocusAction))
    ensures
        r.0 == FocusPhase::AwaitPre,
        r.1 == FocusAction::ReadModifier,
{
    (FocusPhase::AwaitPre, FocusAction::ReadModifier)
}

/// Advance the sequence by one observation.
pub fn focus_step(phase: FocusPhase, event: FocusEvent) -> (r: (FocusPhase, FocusAction))
    ensures
        r == step_spec(phase, event),
{
    match (phase, event) {
        (FocusPhase::AwaitPre, FocusEvent::ModifierState(held)) => if held {
            (FocusPhase::Activating, FocusAction::RequestActivation)
        } else {
            (FocusPhase::Pressing, FocusAction::PressModifier)
        },
        (FocusPhase::Pressing, FocusEvent::Synthesized) => (
            FocusPhase::Activating,
            FocusAction::RequestActivation,
        ),
        (FocusPhase::Activating, FocusEvent::Activation(outcome)) => (
            FocusPhase::AwaitPost { outcome },
            FocusAction::ReadModifier,
        ),
        (FocusPhase::AwaitPost { outcome }, FocusEvent::ModifierState(held)) => if held {
            (FocusPhase::Done { outcome }, FocusAction::Finish(outcome_to_result(outcome)))
        } else {
            (FocusPhase::Releasing { outcome }, FocusAction::ReleaseModifier)
        },
        (FocusPhase::Releasing { outcome }, FocusEvent::Synthesized) => (
            FocusPhase::Done { outcome },
            FocusAction::Finish(outcome_to_result(outcome)),
        ),
        (p, _) => {
            let a = match p {
                FocusPhase::AwaitPre => FocusAction::ReadModifier,
                FocusPhase::Pressing => FocusAction::PressModifier,
                FocusPhase::Activating => FocusAction::RequestActivation,
                FocusPhase::AwaitPost { .. } => FocusAction::ReadModifier,
                FocusPhase::Releasing { .. } => FocusAction::ReleaseModifier,
                FocusPhase::Done { outcome } => FocusAction::Finish(outcome_to_result(outcome)),
            };
            (p, a)
        },
    }
}

/// The result the sequence reports for an activation outcome.
pub fn outcome_to_result(outcome: ActivationOutcome) -> (r: Result<(), FocusError>)
    ensures
        r == outcome_result(outcome),
{
    match outcome {
        ActivationOutcome::Activated => Ok(()),
        ActivationOutcome::HandleGone => Err(FocusError::InvalidHandle),
        ActivationOutcome::Refused => Err(FocusError::Denied),
    }
}

/// Run the transition relation over a whole observation sequence, collecting
/// every requested action.
pub open spec fn run_spec(phase: FocusPhase, events: Seq<FocusEvent>) -> (FocusPhase, Seq<
    FocusAction,
>)
    decreases events.len(),
{
    if events.len() == 0 {
        (phase, Seq::empty())
    } else {
        let (next, action) = step_spec(phase, events[0]);
        let (end, rest) = run_spec(next, events.skip(1));
        (end, seq![action] + rest)
    }
}

/// The observations a fault-free run of the sequence produces, given what
/// the two modifier reads report and how the activation turns out.
pub open spec fn canonical_events(
    pre_held: bool,
    outcome: ActivationOutcome,
    post_held: bool,
) -> Seq<FocusEvent> {
    (if pre_held {
        seq![FocusEvent::ModifierState(true)]
    } else {
        seq![FocusEvent::ModifierState(false), FocusEvent::Synthesized]
    }) + seq![FocusEvent::Activation(outcome)] + (if post_held {
        seq![FocusEvent::ModifierState(true)]
    } else {
        seq![FocusEvent::ModifierState(false), FocusEvent::Synthesized]
    })
}

/// The requests such a run issues, in order: a press exactly when the first
/// read reported not held, then the activation, the second read, a release
/// exactly when the second read reported not held, and the final result.
pub open spec fn canonical_actions(
    pre_held: bool,
    outcome: ActivationOutcome,
    post_held: bool,
) -> Seq<FocusAction> {
    (if pre_held {
        seq![FocusAction::RequestActivation]
    } else {
        seq![FocusAction::PressModifier, FocusAction::RequestActivation]
    }) + seq![FocusAction::ReadModifier] + (if post_held {
        seq![FocusAction::Finish(outcome_result(outcome))]
    } else {
        seq![FocusAction::ReleaseModifier, FocusAction::Finish(outcome_result(outcome))]
    })
}

/// A fault-free run, started at `AwaitPre`, ends in `Done` with the result
/// determined by the activation outcome, and issues exactly the canonical
/// requests for what the two reads reported.
pub proof fn lemma_focus_run(pre_held: bool, outcome: ActivationOutcome, post_held: bool)
    ensures
        run_spec(FocusPhase::AwaitPre, canonical_events(pre_held, outcome, post_held)).0
            == (FocusPhase::Done { outcome }),
        run_spec(FocusPhase::AwaitPre, canonical_events(pre_held, outcome, post_held)).1
            =~= canonical_actions(pre_held, outcome, post_held),
{
    let evs = canonical_events(pre_held, outcome, post_held);
    reveal_with_fuel(run_spec, 6);
    if pre_held {
        if post_held {
            assert(evs =~= seq![
                FocusEvent::ModifierState(true),
                FocusEvent::Activation(outcome),
                FocusEvent::ModifierState(true),
            ]);
        } else {
            assert(evs =~= seq![
                FocusEvent::ModifierState(true),
                FocusEvent::Activation(outcome),
                FocusEvent::ModifierState(false),
                FocusEvent::Synthesized,
            ]);
        }
    } else {
        if post_held {
            assert(evs =~= seq![
                FocusEvent::ModifierState(false),
                FocusEvent::Synthesized,
                FocusEvent::Activation(outcome),
                FocusEvent::ModifierState(true),
            ]);
        } else {
            assert(evs =~= seq![
                FocusEvent::ModifierState(false),
                FocusEvent::Synthesized,
                FocusEvent::Activation(outcome),
                FocusEvent::ModifierState(false),
                FocusEvent::Synthesized,
            ]);
        }
    }
}

/// The modifier-key state after the synthetic events among `actions` are
/// applied to a keyboard whose modifier starts out in state `held`.
pub open spec fn modifier_after(held: bool, actions: Seq<FocusAction>) -> bool
    decreases actions.len(),
{
    if actions.len() == 0 {
        held
    } else {
        let next = match actions[0] {
            FocusAction::PressModifier => true,
            FocusAction::ReleaseModifier => false,
            _ => held,
        };
        modifier_after(next, actions.skip(1))
    }
}

/// A modifier key that was already held before the sequence is never
/// toggled by it: when both reads report the key held, the run synthesizes
/// no modifier press and no modifier release, so the key's state outside
/// the call is exactly what it was before.
pub proof fn lemma_held_modifier_untouched(outcome: ActivationOutcome)
    ensures
        ({
            let actions = run_spec(FocusPhase::AwaitPre, canonical_events(true, outcome, true)).1;
            &&& forall|k: int|
                0 <= k < actions.len()
                    ==> #[trigger] actions[k] != FocusAction::PressModifier
                        && actions[k] != FocusAction::ReleaseModifier
            &&& modifier_after(true, actions) == true
        }),
{
    lemma_focus_run(true, outcome, true);
    let actions = run_spec(FocusPhase::AwaitPre, canonical_events(true, outcome, true)).1;
    assert(actions =~= seq![
        FocusAction::RequestActivation,
        FocusAction::ReadModifier,
        FocusAction::Finish(outcome_result(outcome)),
    ]);
    reveal_with_fuel(modifier_after, 4);
    assert(actions.skip(1) =~= seq![
        FocusAction::ReadModifier,
        FocusAction::Finish(outcome_result(outcome)),
    ]);
    assert(actions.skip(1).skip(1) =~= seq![FocusAction::Finish(outcome_result(outcome))]);
    assert(actions.skip(1).skip(1).skip(1) =~= Seq::<FocusAction>::empty());
}

/// A handle that has gone stale fails cleanly: whatever the modifier reads
/// report, a run whose activation finds the window closed ends with
/// `FocusError::InvalidHandle` and with the sequence complete.
pub proof fn lemma_stale_handle_reports_invalid(pre_held: bool, post_held: bool)
    ensures
        ({
            let r = run_spec(
                FocusPhase::AwaitPre,
                canonical_events(pre_held, ActivationOutcome::HandleGone, post_held),
            );
            &&& r.0 == (FocusPhase::Done { outcome: ActivationOutcome::HandleGone })
            &&& r.1[r.1.len() - 1] == FocusAction::Finish(
                Err::<(), FocusError>(FocusError::InvalidHandle),
            )
        }),
{
    lemma_focus_run(pre_held, ActivationOutcome::HandleGone, post_held);
}

} // verus!
