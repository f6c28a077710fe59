//! The debounce state machine of the watch loop.
//!
//! The loop that owns the file watcher hands every event to `step` and does
//! what the returned action says. Times are milliseconds on any clock that
//! does not run backwards. A burst of writes counts as one save: each write
//! restarts the quiet period, and the rebuild runs when a quiet period has
//! passed in full.

use vstd::prelude::*;

verus! {

/// The quiet period after a write that the editor's multi-step save needs.
pub const DEBOUNCE_MS: u64 = 200;

/// Where the watch loop stands.
#[derive(Clone, Copy, Debug, PartialEq, Eq, Structural)]
pub enum WatchState {
    /// No write is waiting.
    Idle,
    /// A write is waiting for its quiet period to end at `deadline`.
    Pending { deadline: u64 },
    /// The loop was told to end.
    Stopped,
}

/// What the watch loop is told.
#[derive(Clone, Copy, Debug, PartialEq, Eq, Structural)]
pub enum WatchEvent {
    /// The watched file was written at the time `at`.
    Write { at: u64 },
    /// Anything else that happened to the file: metadata, rename, removal.
    Other,
    /// The clock reads `now`.
    Tick { now: u64 },
    /// The rebuild that `step` asked for has ended.
    Rebuilt { ok: bool },
    /// The session is over.
    Stop,
}

/// What the watch loop has to do next.
#[derive(Clone, Copy, Debug, PartialEq, Eq, Structural)]
pub enum WatchAction {
    /// Go on waiting.
    Nothing,
    /// Run one rebuild now.
    Rebuild,
    /// Tell the user that the rebuild failed, and go on waiting.
    Report,
}

/// The end of the quiet period that a write at `at` starts.
pub open spec fn deadline_after(at: u64, delay: u64) -> u64 {
    if at + delay > u64::MAX {
        u64::MAX
    } else {
        (at + delay) as u64
    }
}

/// The state that follows `state` on `event`.
pub open spec fn next_state(state: WatchState, event: WatchEvent, delay: u64) -> WatchState {
    match state {
        WatchState::Stopped => WatchState::Stopped,
        WatchState::Idle => match event {
            WatchEvent::Write { at } => WatchState::Pending { deadline: deadline_after(at, delay) },
            WatchEvent::Stop => WatchState::Stopped,
            _ => WatchState::Idle,
        },
        WatchState::Pending { deadline } => match event {
            WatchEvent::Write { at } => WatchState::Pending { deadline: deadline_after(at, delay) },
            WatchEvent::Tick { now } => if now >= deadline {
                WatchState::Idle
            } else {
                state
            },
            WatchEvent::Stop => WatchState::Stopped,
            _ => state,
        },
    }
}

/// What is to be done when `event` arrives in `state`. A rebuild runs when
/// the quiet period is over: on the tick that shows it, or on a write that
/// comes after it and starts the next period.
pub open spec fn action_on(state: WatchState, event: WatchEvent) -> WatchAction {
    match state {
        WatchState::Stopped => WatchAction::Nothing,
        WatchState::Idle => match event {
            WatchEvent::Rebuilt { ok } => if ok {
                WatchAction::Nothing
            } else {
                WatchAction::Report
            },
            _ => WatchAction::Nothing,
        },
        WatchState::Pending { deadline } => match event {
            WatchEvent::Write { at } => if at >= deadline {
                WatchAction::Rebuild
            } else {
                WatchAction::Nothing
            },
            WatchEvent::Tick { now } => if now >= deadline {
                WatchAction::Rebuild
            } else {
                WatchAction::Nothing
            },
            WatchEvent::Rebuilt { ok } => if ok {
                WatchAction::Nothing
            } else {
                WatchAction::Report
            },
            _ => WatchAction::Nothing,
        },
    }
}

/// The state after all of `events`, starting from `state`.
pub open spec fn state_after(state: WatchState, events: Seq<WatchEvent>, delay: u64) -> WatchState
    decreases events.len(),
{
    if events.len() == 0 {
        state
    } else {
        next_state(state_after(state, events.drop_last(), delay), events.last(), delay)
    }
}

/// How many rebuilds `events` set off, starting from `state`.
pub open spec fn rebuilds(state: WatchState, events: Seq<WatchEvent>, delay: u64) -> nat
    decreases events.len(),
{
    if events.len() == 0 {
        0
    } else {
        let before = state_after(state, events.drop_last(), delay);
        let fired: nat = if action_on(before, events.last()) == WatchAction::Rebuild {
            1
        } else {
            0
        };
        rebuilds(state, events.drop_last(), delay) + fired
    }
}

/// The writes at the times `times`, as events.
pub open spec fn writes(times: Seq<u64>) -> Seq<WatchEvent> {
    Seq::new(times.len(), |i: int| WatchEvent::Write { at: times[i] })
}

/// Each write of the burst comes before the quiet period of the one before it
/// has ended.
pub open spec fn is_burst(times: Seq<u64>, delay: u64) -> bool {
    forall|i: int| 0 < i < times.len() ==> #[trigger] times[i] < deadline_after(times[i - 1], delay)
}

/// One step of the watch loop: the state that follows and what to do.
pub fn step(state: WatchState, event: WatchEvent, delay: u64) -> (r: (WatchState, WatchAction))
    ensures
        r.0 == next_state(state, event, delay),
        r.1 == action_on(state, event),
{
    match state {
        WatchState::Stopped => (WatchState::Stopped, WatchAction::Nothing),
        WatchState::Idle => match event {
            WatchEvent::Write { at } => (
                WatchState::Pending { deadline: quiet_until(at, delay) },
                WatchAction::Nothing,
            ),
            WatchEvent::Stop => (WatchState::Stopped, WatchAction::Nothing),
            WatchEvent::Rebuilt { ok } => (WatchState::Idle, report_unless(ok)),
            _ => (WatchState::Idle, WatchAction::Nothing),
        },
        WatchState::Pending { deadline } => match event {
            WatchEvent::Write { at } => (
                WatchState::Pending { deadline: quiet_until(at, delay) },
                if at >= deadline {
                    WatchAction::Rebuild
                } else {
                    WatchAction::Nothing
                },
            ),
            WatchEvent::Tick { now } => if now >= deadline {
                (WatchState::Idle, WatchAction::Rebuild)
            } else {
                (state, WatchAction::Nothing)
            },
            WatchEvent::Stop => (WatchState::Stopped, WatchAction::Nothing),
            WatchEvent::Rebuilt { ok } => (state, report_unless(ok)),
            WatchEvent::Other => (state, WatchAction::Nothing),
        },
    }
}

/// The end of the quiet period that a write at `at` starts; the last
/// millisecond of the clock where the sum does not fit.
pub fn quiet_until(at: u64, delay: u64) -> (deadline: u64)
    ensures
        deadline == deadline_after(at, delay),
{
    if at > u64::MAX - delay {
        u64::MAX
    } else {
        at + delay
    }
}

/// What the end of a rebuild asks for.
fn report_unless(ok: bool) -> (action: WatchAction)
    ensures
        action == (if ok {
            WatchAction::Nothing
        } else {
            WatchAction::Report
        }),
{
    if ok {
        WatchAction::Nothing
    } else {
        WatchAction::Report
    }
}

/// How long the loop may sleep at the time `now` before it has to send a
/// tick: the rest of the quiet period while a write is waiting, and no limit
/// otherwise.
pub fn time_left(state: WatchState, now: u64) -> (left: Option<u64>)
    ensures
        left == match state {
            WatchState::Pending { deadline } => Some(
                if deadline > now {
                    (deadline - now) as u64
                } else {
                    0u64
                },
            ),
            _ => None::<u64>,
        },
{
    match state {
        WatchState::Pending { deadline } => if deadline > now {
            Some(deadline - now)
        } else {
            Some(0)
        },
        _ => None,
    }
}

/// A burst of writes is one save. Starting from `Idle`, a burst sets off no
/// rebuild while it lasts and leaves the loop waiting for the quiet period of
/// its last write.
pub proof fn lemma_burst_sets_off_nothing(times: Seq<u64>, delay: u64)
    requires
        times.len() > 0,
        is_burst(times, delay),
    ensures
        rebuilds(WatchState::Idle, writes(times), delay) == 0,
        state_after(WatchState::Idle, writes(times), delay) == (WatchState::Pending {
            deadline: deadline_after(times.last(), delay),
        }),
    decreases times.len(),
{
    let events = writes(times);
    assert(events.last() == WatchEvent::Write { at: times.last() });
    if times.len() == 1 {
        assert(events.drop_last() =~= Seq::<WatchEvent>::empty());
        assert(state_after(WatchState::Idle, events.drop_last(), delay) == WatchState::Idle);
        assert(rebuilds(WatchState::Idle, events.drop_last(), delay) == 0);
    } else {
        let shorter = times.drop_last();
        assert(events.drop_last() =~= writes(shorter));
        assert(is_burst(shorter, delay)) by {
            assert forall|i: int| 0 < i < shorter.len() implies #[trigger] shorter[i]
                < deadline_after(shorter[i - 1], delay) by {
                assert(times[i] < deadline_after(times[i - 1], delay));
            }
        }
        lemma_burst_sets_off_nothing(shorter, delay);
        assert(shorter.last() == times[times.len() - 2]);
        assert(times[times.len() - 1] < deadline_after(times[times.len() - 2], delay));
    }
}

/// After a burst, the one rebuild comes with the first tick that shows the
/// quiet period of the last write to be over, and with no tick before it.
pub proof fn lemma_burst_is_one_save(times: Seq<u64>, delay: u64, now: u64)
    requires
        times.len() > 0,
        is_burst(times, delay),
    ensures
        ({
            let events = writes(times).push(WatchEvent::Tick { now });
            let due = now >= deadline_after(times.last(), delay);
            &&& rebuilds(WatchState::Idle, events, delay) == (if due {
                1nat
            } else {
                0nat
            })
            &&& state_after(WatchState::Idle, events, delay) == (if due {
                WatchState::Idle
            } else {
                WatchState::Pending { deadline: deadline_after(times.last(), delay) }
            })
        }),
{
    lemma_burst_sets_off_nothing(times, delay);
    let events = writes(times).push(WatchEvent::Tick { now });
    assert(events.drop_last() =~= writes(times));
    assert(events.last() == WatchEvent::Tick { now });
}

/// The time of the last write among `events`, if there is one.
pub open spec fn last_write(events: Seq<WatchEvent>) -> Option<u64>
    decreases events.len(),
{
    if events.len() == 0 {
        None
    } else {
        match events.last() {
            WatchEvent::Write { at } => Some(at),
            _ => last_write(events.drop_last()),
        }
    }
}

/// While a write is waiting, the loop waits for the quiet period of the last
/// write it has seen, whatever came before.
pub proof fn lemma_pending_waits_for_last_write(events: Seq<WatchEvent>, delay: u64)
    ensures
        state_after(WatchState::Idle, events, delay) matches WatchState::Pending { deadline }
            ==> last_write(events) matches Some(at) && deadline == deadline_after(at, delay),
    decreases events.len(),
{
    if events.len() > 0 {
        lemma_pending_waits_for_last_write(events.drop_last(), delay);
    }
}

/// A rebuild is set off by nothing but the end of a quiet period: by a tick or
/// a write that comes at its deadline or later.
pub proof fn lemma_rebuild_only_when_due(state: WatchState, event: WatchEvent)
    ensures
        action_on(state, event) == WatchAction::Rebuild <==> (state matches WatchState::Pending {
            deadline,
        } && match event {
            WatchEvent::Tick { now } => now >= deadline,
            WatchEvent::Write { at } => at >= deadline,
            _ => false,
        }),
{
}

/// How a rebuild ends never changes the state: after a failed rebuild the
/// loop stands where it stood and takes the next event as it would have
/// after a rebuild that went well.
pub proof fn lemma_rebuild_outcome_keeps_state(state: WatchState, ok: bool, next: WatchEvent, delay: u64)
    ensures
        next_state(state, WatchEvent::Rebuilt { ok }, delay) == state,
        next_state(next_state(state, WatchEvent::Rebuilt { ok: false }, delay), next, delay)
            == next_state(next_state(state, WatchEvent::Rebuilt { ok: true }, delay), next, delay),
        action_on(next_state(state, WatchEvent::Rebuilt { ok: false }, delay), next) == action_on(
            next_state(state, WatchEvent::Rebuilt { ok: true }, delay),
            next,
        ),
        action_on(state, WatchEvent::Rebuilt { ok }) != WatchAction::Rebuild,
{
}

/// Once stopped, the loop takes in nothing more.
pub proof fn lemma_stopped_is_final(events: Seq<WatchEvent>, delay: u64)
    ensures
        state_after(WatchState::Stopped, events, delay) == WatchState::Stopped,
        rebuilds(WatchState::Stopped, events, delay) == 0,
    decreases events.len(),
{
    if events.len() > 0 {
        lemma_stopped_is_final(events.drop_last(), delay);
    }
}

} // verus!
