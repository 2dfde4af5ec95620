//! The timestamp that the engine caches for the length of one pass.

use vstd::prelude::*;

verus! {

/// `std::time::Instant`, carried around as an opaque value.
#[verifier::external_type_specification]
#[verifier::external_body]
pub struct ExInstant(std::time::Instant);

/// An opaque point in time, as read from the monotonic clock.
#[derive(Copy, Clone, PartialEq, Eq, Debug)]
pub struct Time {
    instant: std::time::Instant,
}

impl Time {
    /// The clock reading that this timestamp wraps.
    pub fn instant(&self) -> (i: std::time::Instant)
        ensures
            i == self.reading(),
    {
        self.instant
    }

    /// The clock reading that this timestamp wraps, for contracts.
    pub closed spec fn reading(&self) -> std::time::Instant {
        self.instant
    }
}

/// Reads the monotonic clock through `std::time::Instant::now`. The value
/// depends on when the call is made, so nothing is claimed about it.
#[verifier::external_body]
pub(crate) fn sample_uncached() -> (t: Time) {
    Time { instant: std::time::Instant::now() }
}

} // verus!
