//! Measuring how long a call to the target took.

use vstd::prelude::*;
use minstant::Instant;
use std::time::Duration;

verus! {

/// `minstant::Instant`, a reading of a monotonic clock.
#[verifier::external_type_specification]
#[verifier::external_body]
pub struct ExInstant(Instant);

/// `minstant::Instant::now` reads the cycle counter; nothing is known of the
/// value.
pub assume_specification[ Instant::now ]() -> (t: Instant)
;

/// `minstant::Instant::elapsed` is the time from `t` to now, zero if `t` lies
/// ahead; nothing is claimed of the value.
pub assume_specification[ Instant::elapsed ](t: &Instant) -> (d: Duration)
;

/// `Duration::as_micros` is the whole number of microseconds in `d`.
pub assume_specification[ Duration::as_micros ](d: &Duration) -> (us: u128)
;

/// A microsecond count reduced to 64 bits.
pub fn truncate_micros(us: u128) -> (r: u64)
    ensures
        r == us % 0x1_0000_0000_0000_0000,
{
    let low: u128 = us % 0x1_0000_0000_0000_0000;
    low as u64
}

/// A running measurement, started when it was made.
pub struct Stopwatch {
    started: Instant,
}

impl Stopwatch {
    /// Starts measuring.
    pub fn start() -> (r: Self) {
        Stopwatch { started: Instant::now() }
    }

    /// The microseconds since the start, reduced to 64 bits.
    pub fn elapsed_micros(&self) -> (us: u64) {
        truncate_micros(self.started.elapsed().as_micros())
    }
}

} // verus!
