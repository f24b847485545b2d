//! The clock by which entries are aged: nanoseconds counted on the monotonic
//! clock of the standard library from the moment the clock was started.

use std::time::Duration;
use std::time::Instant;
use vstd::prelude::*;

verus! {

/// `std::time::Instant`, a reading of the monotonic clock. Nothing is known
/// of what such a value holds.
#[verifier::external_type_specification]
#[verifier::external_body]
pub struct ExInstant(std::time::Instant);

/// `Instant::now` reads the monotonic clock. Nothing is claimed of the
/// reading.
pub assume_specification[ std::time::Instant::now ]() -> (t: Instant);

/// `Instant::elapsed` gives the time that has passed since the instant was
/// read. Nothing is claimed of its length.
pub assume_specification[ std::time::Instant::elapsed ](t: &Instant) -> (d: Duration);

/// `Duration::as_nanos` gives the whole length of a duration in nanoseconds.
/// Nothing is claimed of the number.
pub assume_specification[ std::time::Duration::as_nanos ](d: &Duration) -> (n: u128);

/// A clock that counts from its own start.
pub(crate) struct Clock {
    origin: Instant,
}

impl Clock {
    /// Starts a clock at the reading that the monotonic clock gives now.
    pub(crate) fn start() -> Clock {
        Clock { origin: Instant::now() }
    }

    /// The nanoseconds since the clock was started. Readings depend on the
    /// moment of the call, so nothing is promised of them.
    pub(crate) fn nanos(&self) -> u128 {
        let since_start = self.origin.elapsed();
        since_start.as_nanos()
    }
}

} // verus!
