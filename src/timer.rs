use vstd::prelude::*;

verus! {

/// Phase of the round clock.
#[derive(Clone, Copy, PartialEq, Eq, Debug, Structural)]
pub enum TimerState {
    Stopped,
    Running,
    Frozen,
}

/// The mathematical model of a timer; times are in milliseconds of a
/// monotonic clock that the caller reads.
pub ghost struct TimerModel {
    pub start_time: Option<u64>,
    pub state: TimerState,
    pub frozen: u64,
}

impl TimerModel {
    /// What `elapsed` reports when the clock reads `now`.
    pub open spec fn elapsed_at(self, now: u64) -> Option<u64> {
        if self.state == TimerState::Frozen {
            Some(self.frozen)
        } else {
            match self.start_time {
                Some(t) => Some(if now >= t { (now - t) as u64 } else { 0 }),
                None => None,
            }
        }
    }
}

/// Elapsed-time state machine: stopped, running, frozen.
pub struct Timer {
    start_time: Option<u64>,
    state: TimerState,
    frozen: u64,
}

impl View for Timer {
    type V = TimerModel;

    closed spec fn view(&self) -> TimerModel {
        TimerModel { start_time: self.start_time, state: self.state, frozen: self.frozen }
    }
}

impl Timer {
    pub fn new() -> (r: Timer)
        ensures
            r@ == (TimerModel { start_time: None, state: TimerState::Stopped, frozen: 0 }),
    {
        Timer { start_time: None, state: TimerState::Stopped, frozen: 0 }
    }

    /// Back to stopped: nothing elapsed.
    pub fn clear(&mut self)
        ensures
            final(self)@ == (TimerModel {
                start_time: None,
                state: TimerState::Stopped,
                ..old(self)@
            }),
    {
        self.start_time = None;
        self.state = TimerState::Stopped;
    }

    /// Starts running from `now`.
    pub fn start(&mut self, now: u64)
        ensures
            final(self)@ == (TimerModel {
                start_time: Some(now),
                state: TimerState::Running,
                ..old(self)@
            }),
    {
        self.start_time = Some(now);
        self.state = TimerState::Running;
    }

    /// Time since the start while running, the snapshot while frozen, none while stopped.
    pub fn elapsed(&self, now: u64) -> (r: Option<u64>)
        ensures
            r == self@.elapsed_at(now),
    {
        if self.state == TimerState::Frozen {
            return Some(self.frozen);
        }
        match self.start_time {
            Some(t) => Some(now.saturating_sub(t)),
            None => None,
        }
    }

    /// Freezes what has elapsed by `now` (zero if the timer never started).
    pub fn stop(&mut self, now: u64)
        ensures
            final(self)@ == (TimerModel {
                state: TimerState::Frozen,
                frozen: match old(self)@.elapsed_at(now) {
                    Some(e) => e,
                    None => 0,
                },
                ..old(self)@
            }),
    {
        self.frozen = match self.elapsed(now) {
            Some(e) => e,
            None => 0,
        };
        self.state = TimerState::Frozen;
    }
}

} // verus!
