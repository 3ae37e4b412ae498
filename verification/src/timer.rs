use vstd::prelude::*;

use std::time::{Duration, Instant};

verus! {

#[verifier::external_type_specification]
#[verifier::external_body]
pub struct ExInstant(Instant);

/// The current moment (`Instant::now`).
#[verifier::external_body]
pub(crate) fn instant_now() -> Instant {
    Instant::now()
}

/// The time passed since `start` (`Instant::elapsed`).
#[verifier::external_body]
pub(crate) fn instant_elapsed(start: &Instant) -> Duration {
    start.elapsed()
}

/// Whether duration `a` is at least as long as duration `b`.
pub uninterp spec fn duration_ge(a: Duration, b: Duration) -> bool;

/// Whether `a` is at least as long as `b` (`Duration`'s `>=`): claimed to
/// depend on the two durations alone.
#[verifier::external_body]
fn duration_at_least(a: &Duration, b: &Duration) -> (r: bool)
    ensures
        r == duration_ge(*a, *b),
{
    *a >= *b
}

/// A timer that expires each time `timer_duration` has passed since it was last reset.
pub struct Timer {
    start: Instant,
    timer_duration: Duration,
}

impl View for Timer {
    type V = (Instant, Duration);

    /// The moment the timer was last reset and how long it runs.
    closed spec fn view(&self) -> (Instant, Duration) {
        (self.start, self.timer_duration)
    }
}

impl Timer {
    /// A timer of the given duration, started now.
    pub fn new(timer_duration: Duration) -> (t: Self)
        ensures
            t@.1 == timer_duration,
    {
        Self { start: instant_now(), timer_duration }
    }

    /// Restarts the timer now; its duration stays.
    pub fn reset(&mut self)
        ensures
            final(self)@.1 == old(self)@.1,
    {
        self.start = instant_now();
    }

    /// Whether the timer has expired once `elapsed` has passed since it was
    /// last reset: whether that is at least the timer's duration.
    pub fn has_expired(&self, elapsed: Duration) -> (expired: bool)
        ensures
            expired == duration_ge(elapsed, self@.1),
    {
        duration_at_least(&elapsed, &self.timer_duration)
    }

    /// Whether the timer's duration has passed since it was last reset (see
    /// `has_expired`); if it has, the timer is reset. The duration stays, and
    /// a timer that has not expired keeps its start. How much time has passed
    /// depends on the clock, so the answer is not stated.
    pub fn tick(&mut self) -> (expired: bool)
        ensures
            final(self)@.1 == old(self)@.1,
            !expired ==> final(self)@ == old(self)@,
    {
        let elapsed = instant_elapsed(&self.start);
        let expired = self.has_expired(elapsed);
        if expired {
            self.reset();
        }
        expired
    }
}

} // verus!
