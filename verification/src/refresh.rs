//! The refresh of a fence after changes in its folder: many events in a row lead to one refresh,
//! once they have been quiet for a while. Times are nanoseconds on a clock that never goes back.
use vstd::prelude::*;

verus! {

/// How long events must have been quiet before a refresh, in milliseconds.
pub const REFRESH_DEBOUNCE_MS: u32 = 150;

/// The same time in nanoseconds.
pub const REFRESH_DEBOUNCE_NS: u64 = 150_000_000;

/// Whether a refresh is under way, and when the last event came.
#[derive(Clone, Copy, Debug, PartialEq, Eq, Structural)]
pub struct RefreshState {
    pub queued: bool,
    pub last_event: u64,
}

/// What is to be done when the refresh timer fires.
#[derive(Clone, Copy, Debug, PartialEq, Eq, Structural)]
pub enum RefreshTimerAction {
    Idle,
    /// Wait for so many more milliseconds.
    Wait(u32),
    Refresh,
}

impl Default for RefreshState {
    fn default() -> (r: Self)
        ensures
            r == (RefreshState { queued: false, last_event: 0 }),
    {
        RefreshState { queued: false, last_event: 0 }
    }
}

/// How long ago `last` was at `now`.
pub open spec fn elapsed(now: int, last: int) -> int {
    if now > last {
        now - last
    } else {
        0
    }
}

/// Nanoseconds in whole milliseconds, at least one, as far as a timer takes them.
pub open spec fn timer_ms(ns: int) -> int {
    let ms = ns / 1_000_000;
    if ms < 1 {
        1
    } else if ms > u32::MAX {
        u32::MAX as int
    } else {
        ms
    }
}

/// What is to be done when the timer fires at `now`.
pub open spec fn due(s: RefreshState, now: int, delay: int) -> RefreshTimerAction {
    if !s.queued {
        RefreshTimerAction::Idle
    } else if elapsed(now, s.last_event as int) < delay {
        RefreshTimerAction::Wait(timer_ms(delay - elapsed(now, s.last_event as int)) as u32)
    } else {
        RefreshTimerAction::Refresh
    }
}

impl RefreshState {
    /// Notes an event, and says whether it is the first one since the last refresh.
    pub fn record_event(&mut self, now: u64) -> (r: bool)
        ensures
            r == !old(self).queued,
            *final(self) == (RefreshState { queued: true, last_event: now }),
    {
        self.last_event = now;
        if self.queued {
            false
        } else {
            self.queued = true;
            true
        }
    }

    /// Says what is to be done when the timer fires at `now`; a refresh ends the wait.
    pub fn timer_action(&mut self, now: u64, delay: u64) -> (r: RefreshTimerAction)
        ensures
            r == due(*old(self), now as int, delay as int),
            *final(self) == (if r == RefreshTimerAction::Refresh {
                RefreshState { queued: false, ..*old(self) }
            } else {
                *old(self)
            }),
    {
        if !self.queued {
            return RefreshTimerAction::Idle;
        }
        let elapsed: u64 = if now > self.last_event { now - self.last_event } else { 0 };
        if elapsed < delay {
            let ms: u64 = (delay - elapsed) / 1_000_000;
            let ms: u64 = if ms < 1 {
                1
            } else if ms > 0xffff_ffff {
                0xffff_ffff
            } else {
                ms
            };
            return RefreshTimerAction::Wait(ms as u32);
        }
        self.queued = false;
        RefreshTimerAction::Refresh
    }
}

/// The refresh state that a fence shares with the watcher of its folder.
#[derive(Clone, Copy, Debug, PartialEq, Eq, Structural)]
pub struct RefreshSignal {
    pub state: RefreshState,
}

impl Default for RefreshSignal {
    fn default() -> (r: Self)
        ensures
            r == (RefreshSignal { state: RefreshState { queued: false, last_event: 0 } }),
    {
        RefreshSignal { state: RefreshState { queued: false, last_event: 0 } }
    }
}

impl RefreshSignal {
    /// Notes an event, and says whether a message must be posted for it: one message at a time is
    /// under way.
    pub fn post(&mut self, now: u64) -> (r: bool)
        ensures
            r == !old(self).state.queued,
            *final(self) == (RefreshSignal { state: RefreshState { queued: true, last_event: now } }),
    {
        self.state.record_event(now)
    }

    /// What follows a message that `post` asked for: one that could not be posted is forgotten, so
    /// that the next event asks for another.
    pub fn posted(&mut self, delivered: bool)
        ensures
            *final(self) == (if delivered {
                *old(self)
            } else {
                RefreshSignal { state: RefreshState { queued: false, ..old(self).state } }
            }),
    {
        if !delivered {
            self.cancel();
        }
    }

    /// What is to be done when the refresh timer fires at `now`.
    pub fn timer_action(&mut self, now: u64) -> (r: RefreshTimerAction)
        ensures
            r == due(old(self).state, now as int, REFRESH_DEBOUNCE_NS as int),
            *final(self) == (if r == RefreshTimerAction::Refresh {
                RefreshSignal { state: RefreshState { queued: false, ..old(self).state } }
            } else {
                *old(self)
            }),
    {
        self.state.timer_action(now, REFRESH_DEBOUNCE_NS)
    }

    /// Forgets what is under way.
    pub fn cancel(&mut self)
        ensures
            *final(self) == (RefreshSignal { state: RefreshState { queued: false, ..old(self).state } }),
    {
        self.state.queued = false;
    }
}

/// Events that come one after the other, with nothing between them.
pub open spec fn after_events(s: RefreshState, times: Seq<u64>) -> RefreshState {
    if times.len() == 0 {
        s
    } else {
        RefreshState { queued: true, last_event: times.last() }
    }
}

/// How many of the events ask for a message.
pub open spec fn messages(s: RefreshState, times: Seq<u64>) -> nat
    decreases times.len(),
{
    if times.len() == 0 {
        0
    } else {
        messages(s, times.drop_last()) + if after_events(s, times.drop_last()).queued {
            0nat
        } else {
            1nat
        }
    }
}

/// However many events come in a row, one message is posted for them, and none if one is already
/// under way.
pub proof fn lemma_events_coalesce(s: RefreshState, times: Seq<u64>)
    requires
        times.len() > 0,
    ensures
        messages(s, times) == if s.queued { 0nat } else { 1nat },
        after_events(s, times).queued,
    decreases times.len(),
{
    if times.len() == 1 {
        assert(times.drop_last().len() == 0);
        assert(messages(s, times.drop_last()) == 0);
    } else {
        lemma_events_coalesce(s, times.drop_last());
    }
}

/// A refresh comes once the delay has passed since the last event, and not before; the wait until
/// then never ends in two refreshes.
pub proof fn lemma_refresh_waits(s: RefreshState, now: int, delay: int)
    ensures
        due(s, now, delay) == RefreshTimerAction::Refresh <==> s.queued && elapsed(now, s.last_event as int) >= delay,
        due(RefreshState { queued: false, ..s }, now, delay) == RefreshTimerAction::Idle,
{
}

/// After the time that a wait asks for, and one millisecond at most, the refresh is due.
pub proof fn lemma_wait_suffices(s: RefreshState, now: int, delay: int)
    requires
        0 <= now,
        0 <= delay <= u32::MAX * 1_000_000,
        due(s, now, delay) is Wait,
        s.last_event <= now,
    ensures
        due(s, now + 1_000_000 * (due(s, now, delay)->Wait_0 as int) + 999_999, delay) == RefreshTimerAction::Refresh,
{
    let left = delay - elapsed(now, s.last_event as int);
    assert(left <= 1_000_000 * (left / 1_000_000) + 999_999);
}

} // verus!
