//! A repeating countdown timer.

use vstd::prelude::*;

verus! {

/// A timer that fires each time `duration` microseconds have gone by, and
/// carries what is left over into the next period.
#[derive(Clone, Copy, Debug, PartialEq, Eq, Structural)]
pub struct Timer {
    /// Length of one period, in microseconds.
    pub duration: u32,
    /// Time gone by in the running period.
    pub elapsed: u32,
    /// Whether the last tick completed a period.
    pub finished: bool,
}

/// The timer `t` after `dt` more microseconds. A timer without duration fires
/// on every tick.
pub open spec fn ticked(t: Timer, dt: u32) -> Timer {
    if t.duration == 0 {
        Timer { duration: 0, elapsed: 0, finished: true }
    } else {
        Timer {
            duration: t.duration,
            elapsed: ((t.elapsed + dt) % (t.duration as int)) as u32,
            finished: t.elapsed + dt >= t.duration,
        }
    }
}

impl Timer {
    /// A timer with a period of `duration` microseconds, at the start of its
    /// first period.
    pub fn new(duration: u32) -> (t: Timer)
        ensures
            t == (Timer { duration, elapsed: 0, finished: false }),
    {
        Timer { duration, elapsed: 0, finished: false }
    }

    /// Advances the timer by `dt` microseconds.
    pub fn tick(&mut self, dt: u32)
        ensures
            *final(self) == ticked(*old(self), dt),
    {
        if self.duration == 0 {
            self.elapsed = 0;
            self.finished = true;
        } else {
            let total: u64 = self.elapsed as u64 + dt as u64;
            self.finished = total >= self.duration as u64;
            self.elapsed = (total % (self.duration as u64)) as u32;
        }
    }

    /// Whether the last tick completed a period.
    pub fn just_finished(&self) -> (r: bool)
        ensures
            r == self.finished,
    {
        self.finished
    }
}

} // verus!
