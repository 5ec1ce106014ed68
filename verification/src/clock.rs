//! Monotonic time, as nanoseconds since a clock was started.

use std::time::Instant;
use vstd::prelude::*;

verus! {

/// The longest time that a clock reports: `u64::MAX` seconds and 999 999 999 nanoseconds, the most
/// that a `std::time::Duration` holds.
pub const MAX_NANOS: u128 = 18446744073709551615999999999;

/// `std::time::Instant`, carried through untouched.
#[verifier::external_type_specification]
#[verifier::external_body]
pub struct ExInstant(std::time::Instant);

/// Calls `std::time::Instant::now`. Nothing is claimed of the instant.
#[verifier::external_body]
fn instant_now() -> (r: Instant) {
    Instant::now()
}

/// Calls `std::time::Instant::elapsed` and counts the duration in nanoseconds. Only the range of a
/// duration is claimed: how much time has passed is not known here.
#[verifier::external_body]
fn elapsed_nanos(since: &Instant) -> (r: u128)
    ensures
        r <= MAX_NANOS,
{
    since.elapsed().as_nanos()
}

/// A clock that was started once and never runs backwards.
pub struct Clock {
    origin: Instant,
    latest: u128,
}

impl Clock {
    /// The latest reading that was noted.
    pub closed spec fn latest(self) -> u128 {
        self.latest
    }

    /// What holds of every clock.
    pub open spec fn wf(self) -> bool {
        self.latest() <= MAX_NANOS
    }

    /// Starts a clock.
    pub fn start() -> (r: Clock)
        ensures
            r.wf(),
            r.latest() == 0,
    {
        Clock { origin: instant_now(), latest: 0 }
    }

    /// Reads the clock: no earlier than what was noted before.
    pub fn read(&self) -> (now: u128)
        requires
            self.wf(),
        ensures
            self.latest() <= now <= MAX_NANOS,
    {
        let t = elapsed_nanos(&self.origin);
        if t < self.latest {
            self.latest
        } else {
            t
        }
    }

    /// Notes a reading.
    pub fn note(&mut self, now: u128)
        requires
            old(self).latest() <= now <= MAX_NANOS,
        ensures
            final(self).wf(),
            final(self).latest() == now,
    {
        self.latest = now;
    }
}

} // verus!
