//! The time budget of one search: a start instant, a limit and the flag that
//! records that the limit was passed.
use vstd::prelude::*;

use std::time::{Duration, Instant};

verus! {

/// `std::time::Instant`, an instant of the monotonic clock, carried as an
/// opaque value.
#[verifier::external_type_specification]
#[verifier::external_body]
pub struct ExInstant(Instant);

/// Relies on `Instant::now`: the current instant of the monotonic clock.
#[verifier::external_body]
fn instant_now() -> Instant {
    Instant::now()
}

/// Relies on `Instant::elapsed`: the time passed since `start`, in whole
/// milliseconds (saturated at `u64::MAX`).
#[verifier::external_body]
fn elapsed_millis(start: &Instant) -> u64 {
    u64::try_from(start.elapsed().as_millis()).unwrap_or(u64::MAX)
}

/// Relies on `Duration::as_millis`: the whole milliseconds of `d` (saturated at
/// `u64::MAX`).
#[verifier::external_body]
pub(crate) fn duration_millis(d: &Duration) -> u64 {
    u64::try_from(d.as_millis()).unwrap_or(u64::MAX)
}

/// A deadline: `limit_ms` milliseconds after `start`. Once it has been seen to
/// pass, `aborted` stays set.
pub struct Deadline {
    pub start: Instant,
    pub limit_ms: u64,
    pub aborted: bool,
}

impl Deadline {
    /// A deadline `limit_ms` from now.
    pub fn new(limit_ms: u64) -> (r: Deadline)
        ensures
            r.limit_ms == limit_ms,
            !r.aborted,
    {
        Deadline { start: instant_now(), limit_ms, aborted: false }
    }

    /// Sets `aborted` when the deadline has passed.
    pub fn check(&mut self)
        ensures
            final(self).limit_ms == old(self).limit_ms,
            old(self).aborted ==> final(self).aborted,
    {
        if elapsed_millis(&self.start) > self.limit_ms {
            self.aborted = true;
        }
    }

    /// The milliseconds passed since the start.
    pub fn elapsed(&self) -> u64 {
        elapsed_millis(&self.start)
    }
}

} // verus!
