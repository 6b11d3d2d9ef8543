//! Timing for the application: the time step between frames.
use std::time::{Duration, Instant};
use vstd::prelude::*;

verus! {

#[verifier::external_type_specification]
#[verifier::external_body]
pub struct ExInstant(Instant);

/// The duration that `Instant - Instant` gives for `later` and `earlier`.
pub uninterp spec fn instant_difference(later: Instant, earlier: Instant) -> Duration;

/// The duration that `Duration::new` builds from whole seconds and nanoseconds.
pub uninterp spec fn duration_from_parts(secs: u64, nanos: u32) -> Duration;

/// Calls `Instant - Instant` (`Instant::duration_since`): the time elapsed from
/// `earlier` to `later`, a function of the two instants.
#[verifier::external_body]
fn elapsed(later: Instant, earlier: Instant) -> (d: Duration)
    ensures
        d == instant_difference(later, earlier),
{
    later - earlier
}

/// Calls `Duration::new`, which carries whole seconds out of `nanos` and
/// panics when they push the seconds past `u64::MAX`; that input is excluded.
#[verifier::external_body]
fn duration_new(secs: u64, nanos: u32) -> (d: Duration)
    requires
        nanos < 1_000_000_000 || secs + nanos / 1_000_000_000 <= u64::MAX,
    ensures
        d == duration_from_parts(secs, nanos),
{
    Duration::new(secs, nanos)
}

/// Delta times and time steps between frames.
pub struct Time {
    last_time: Instant,
    delta_time: Duration,
}

impl Time {
    pub closed spec fn spec_last_time(&self) -> Instant {
        self.last_time
    }

    pub closed spec fn spec_delta_time(&self) -> Duration {
        self.delta_time
    }

    /// Start timing at `current_instant`, with a zero delta.
    pub fn new(current_instant: Instant) -> (t: Self)
        ensures
            t.spec_last_time() == current_instant,
            t.spec_delta_time() == duration_from_parts(0, 0),
    {
        Time { last_time: current_instant, delta_time: duration_new(0, 0) }
    }

    /// Advance to `instant`: the delta becomes the time elapsed since the last step.
    pub fn step(&mut self, instant: Instant)
        ensures
            final(self).spec_delta_time() == instant_difference(instant, old(self).spec_last_time()),
            final(self).spec_last_time() == instant,
    {
        self.delta_time = elapsed(instant, self.last_time);
        self.last_time = instant;
    }

    /// The time elapsed between the last two steps.
    pub fn get_delta_time(&self) -> (d: Duration)
        ensures
            d == self.spec_delta_time(),
    {
        self.delta_time
    }
}

} // verus!
