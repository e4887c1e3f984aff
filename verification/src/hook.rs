//! Per-keystroke classification for the global-hotkey daemon.
//!
//! The daemon installs a system-wide low-level keyboard hook; for every input
//! event the hook callback must decide, quickly and without blocking, whether
//! to consume the event or pass it through to the rest of the system. The
//! decision rule lives here: an event is consumed exactly when it is a
//! key event whose virtual-key code equals the configured trigger key while
//! the configured modifier is held (as reported by the event's own flags).
//! The switcher side effect fires only on the release phase of the trigger,
//! so that auto-repeated key-down events cannot fire it repeatedly, and only
//! while no earlier side effect is still in flight.

use vstd::prelude::*;

verus! {

/// What the hook callback tells the operating system to do with an event.
#[derive(Clone, Copy, PartialEq, Eq, Structural, Debug)]
pub enum HookDecision {
    /// Swallow the event: no other handler sees it.
    Consume,
    /// Forward the event unchanged to the next handler in the chain.
    PassThrough,
}

/// The phase of a key event: key pressed down or released.
#[derive(Clone, Copy, PartialEq, Eq, Structural, Debug)]
pub enum KeyPhase {
    Press,
    Release,
}

/// An input event as seen by the hook callback, already stripped of
/// OS-specific framing. Events that are not key-down/key-up notifications
/// are represented by `Other`.
#[derive(Clone, Copy, PartialEq, Eq, Structural, Debug)]
pub enum HookEvent {
    Key {
        /// Virtual-key code of the key the event is about.
        vk: u32,
        /// Press or release phase.
        phase: KeyPhase,
        /// Whether the configured modifier was held during this event,
        /// taken from the event's own flags rather than a separate query.
        modifier_held: bool,
    },
    Other,
}

/// Lifecycle of the daemon: the hook is installed and pumping events while
/// `Idle`; once the event pump reports shutdown the daemon is `Stopped` and
/// the hook is uninstalled.
#[derive(Clone, Copy, PartialEq, Eq, Structural, Debug)]
pub enum DaemonPhase {
    Idle,
    Stopped,
}

/// The hotkey daemon's classification state: the configured trigger key and
/// a re-entry guard that suppresses further side effects while one launched
/// by an earlier trigger is still in flight.
pub struct HotkeyDaemon {
    /// Virtual-key code of the configured trigger key.
    pub trigger_vk: u32,
    /// True while a launched side effect has not yet reported completion.
    pub busy: bool,
}

/// True exactly when `event` must be consumed: a key event on the trigger
/// key with the modifier held, in either phase.
pub open spec fn consumes(trigger_vk: u32, event: HookEvent) -> bool {
    match event {
        HookEvent::Key { vk, phase, modifier_held } => modifier_held && vk == trigger_vk,
        HookEvent::Other => false,
    }
}

/// True exactly when classifying `event` with re-entry guard `busy` fires
/// the switcher side effect: a consumed event in its release phase while no
/// earlier side effect is in flight.
pub open spec fn fires(trigger_vk: u32, busy: bool, event: HookEvent) -> bool {
    &&& consumes(trigger_vk, event)
    &&& event matches HookEvent::Key { phase: KeyPhase::Release, .. }
    &&& !busy
}

impl HotkeyDaemon {
    /// A fresh daemon configured for the given trigger key, with no side
    /// effect in flight.
    pub fn new(trigger_vk: u32) -> (d: HotkeyDaemon)
        ensures
            d.trigger_vk == trigger_vk,
            !d.busy,
    {
        HotkeyDaemon { trigger_vk, busy: false }
    }

    /// Classify one event: decide whether to consume it and whether to fire
    /// the switcher side effect. Sets the re-entry guard when firing; the
    /// caller reports completion through [`HotkeyDaemon::side_effect_finished`].
    pub fn classify(&mut self, event: HookEvent) -> (r: (HookDecision, bool))
        ensures
            r.0 == (if consumes(old(self).trigger_vk, event) {
                HookDecision::Consume
            } else {
                HookDecision::PassThrough
            }),
            r.1 == fires(old(self).trigger_vk, old(self).busy, event),
            final(self).trigger_vk == old(self).trigger_vk,
            final(self).busy == (old(self).busy || r.1),
    {
        match event {
            HookEvent::Key { vk, phase, modifier_held } => {
                let consume = modifier_held && vk == self.trigger_vk;
                let fire = consume && matches!(phase, KeyPhase::Release) && !self.busy;
                if fire {
                    self.busy = true;
                }
                (
                    if consume {
                        HookDecision::Consume
                    } else {
                        HookDecision::PassThrough
                    },
                    fire,
                )
            },
            HookEvent::Other => (HookDecision::PassThrough, false),
        }
    }

    /// The launched side effect has completed: clear the re-entry guard so
    /// the next trigger release may fire again.
    pub fn side_effect_finished(&mut self)
        ensures
            final(self).trigger_vk == old(self).trigger_vk,
            !final(self).busy,
    {
        self.busy = false;
    }
}

/// The daemon phase after the event pump delivers one signal: a shutdown
/// signal moves `Idle` to the terminal `Stopped`; anything else leaves the
/// phase unchanged, and `Stopped` is never left.
pub fn next_phase(phase: DaemonPhase, shutdown: bool) -> (r: DaemonPhase)
    ensures
        r == (if shutdown {
            DaemonPhase::Stopped
        } else {
            phase
        }),
{
    if shutdown {
        DaemonPhase::Stopped
    } else {
        phase
    }
}

/// The classification state after running `classify` over every event of
/// `events` in order: only the re-entry guard can change.
pub open spec fn busy_after(trigger_vk: u32, busy: bool, events: Seq<HookEvent>) -> bool
    decreases events.len(),
{
    if events.len() == 0 {
        busy
    } else {
        busy_after(
            trigger_vk,
            busy || fires(trigger_vk, busy, events[0]),
            events.skip(1),
        )
    }
}

/// How many of `events` fire the side effect when classified in order.
pub open spec fn fire_count(trigger_vk: u32, busy: bool, events: Seq<HookEvent>) -> int
    decreases events.len(),
{
    if events.len() == 0 {
        0
    } else {
        (if fires(trigger_vk, busy, events[0]) {
            1int
        } else {
            0int
        }) + fire_count(trigger_vk, busy || fires(trigger_vk, busy, events[0]), events.skip(1))
    }
}

/// Auto-repeat is harmless: a run of key-down events — whatever their keys
/// and modifier flags — fires the side effect zero times and leaves the
/// re-entry guard unchanged. Only a release of the trigger can fire it.
pub proof fn lemma_presses_never_fire(trigger_vk: u32, busy: bool, events: Seq<HookEvent>)
    requires
        forall|i: int| 0 <= i < events.len()
            ==> #[trigger] events[i] matches HookEvent::Key { phase: KeyPhase::Press, .. }
                || events[i] matches HookEvent::Other,
    ensures
        fire_count(trigger_vk, busy, events) == 0,
        busy_after(trigger_vk, busy, events) == busy,
    decreases events.len(),
{
    if events.len() > 0 {
        assert(!fires(trigger_vk, busy, events[0]));
        assert(forall|i: int| 0 <= i < events.skip(1).len()
            ==> events.skip(1)[i] == events[i + 1]);
        lemma_presses_never_fire(trigger_vk, busy, events.skip(1));
    }
}

/// While a side effect is in flight, no event can fire another: with the
/// re-entry guard set, any run of events fires zero side effects until the
/// guard is cleared.
pub proof fn lemma_busy_suppresses_fires(trigger_vk: u32, events: Seq<HookEvent>)
    ensures
        fire_count(trigger_vk, true, events) == 0,
        busy_after(trigger_vk, true, events),
    decreases events.len(),
{
    if events.len() > 0 {
        lemma_busy_suppresses_fires(trigger_vk, events.skip(1));
    }
}

/// One trigger cycle fires exactly once: with the guard clear, a run of
/// auto-repeated trigger presses followed by one trigger release fires the
/// side effect exactly one time, and further events without an intervening
/// completion fire none.
pub proof fn lemma_trigger_cycle_fires_once(
    trigger_vk: u32,
    presses: Seq<HookEvent>,
    release: HookEvent,
    rest: Seq<HookEvent>,
)
    requires
        forall|i: int| 0 <= i < presses.len()
            ==> #[trigger] presses[i] matches HookEvent::Key { phase: KeyPhase::Press, .. }
                || presses[i] matches HookEvent::Other,
        release == (HookEvent::Key { vk: trigger_vk, phase: KeyPhase::Release, modifier_held: true }),
    ensures
        fire_count(trigger_vk, false, presses + seq![release] + rest) == 1,
    decreases presses.len(),
{
    if presses.len() == 0 {
        let whole = presses + seq![release] + rest;
        assert(whole[0] == release);
        assert(fires(trigger_vk, false, release));
        assert(whole.skip(1) =~= rest);
        lemma_busy_suppresses_fires(trigger_vk, rest);
    } else {
        let whole = presses + seq![release] + rest;
        assert(whole[0] == presses[0]);
        assert(!fires(trigger_vk, false, whole[0]));
        assert(whole.skip(1) =~= presses.skip(1) + seq![release] + rest);
        assert(forall|i: int| 0 <= i < presses.skip(1).len()
            ==> presses.skip(1)[i] == presses[i + 1]);
        lemma_trigger_cycle_fires_once(trigger_vk, presses.skip(1), release, rest);
    }
}

} // verus!
