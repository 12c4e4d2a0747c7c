//! A deadline timer over a monotonic clock.
//!
//! Time is measured in microseconds on a monotonic clock supplied by the
//! caller; the timer stores a duration and a deadline.

use vstd::prelude::*;

verus! {

/// A timer that expires `duration` microseconds after its last reset.
pub struct Timer {
    duration: u64,
    deadline: u64,
}

impl Timer {
    /// The configured duration, in microseconds.
    pub closed spec fn spec_duration(self) -> u64 {
        self.duration
    }

    /// The instant, in microseconds, at which the timer expires.
    pub closed spec fn spec_deadline(self) -> u64 {
        self.deadline
    }

    /// Creates a timer that expires `duration` microseconds after `now`.
    pub fn new(duration: u64, now: u64) -> (r: Timer)
        requires
            now + duration <= u64::MAX,
        ensures
            r.spec_duration() == duration,
            r.spec_deadline() == now + duration,
    {
        Timer { duration, deadline: now + duration }
    }

    /// Pushes the deadline out to `now` plus the configured duration.
    pub fn reset(&mut self, now: u64)
        requires
            now + old(self).spec_duration() <= u64::MAX,
        ensures
            final(self).spec_duration() == old(self).spec_duration(),
            final(self).spec_deadline() == now + old(self).spec_duration(),
    {
        self.deadline = now + self.duration;
    }

    /// True once the clock has reached the deadline.
    pub fn is_finished(&self, now: u64) -> (r: bool)
        ensures
            r == (now >= self.spec_deadline()),
    {
        now >= self.deadline
    }
}

} // verus!
