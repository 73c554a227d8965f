//! A coarse wall clock: milliseconds since the epoch, read from a cell that a
//! periodic task refreshes.

use vstd::prelude::*;
use std::sync::Arc;
use std::sync::atomic::AtomicU64;
use std::sync::atomic::Ordering;
use std::time::{Duration, SystemTime, SystemTimeError, UNIX_EPOCH};

verus! {

/// `std::time::SystemTime`, a reading of the system clock.
#[verifier::external_type_specification]
#[verifier::external_body]
pub struct ExSystemTime(SystemTime);

/// `std::time::SystemTimeError`, the error of a time that lies before the
/// one it is measured from.
#[verifier::external_type_specification]
#[verifier::external_body]
pub struct ExSystemTimeError(SystemTimeError);

/// `SystemTime::now` reads the system clock; nothing is known of the value.
pub assume_specification[ SystemTime::now ]() -> (t: SystemTime)
;

/// `SystemTime::duration_since` against the Unix epoch: the time elapsed
/// since the epoch, or an error for a clock set before it. Nothing is claimed
/// of the value.
#[verifier::external_body]
fn since_epoch(t: &SystemTime) -> (r: Result<Duration, SystemTimeError>) {
    t.duration_since(UNIX_EPOCH)
}

/// `Duration::as_millis` is the whole number of milliseconds in `d`.
pub assume_specification[ Duration::as_millis ](d: &Duration) -> (ms: u128)
;

/// The low 64 bits of a millisecond count.
pub fn truncate_millis(ms: u128) -> (r: u64)
    ensures
        r == ms % 0x1_0000_0000_0000_0000,
{
    let low: u128 = ms % 0x1_0000_0000_0000_0000;
    low as u64
}

/// The clock reading that a time since the epoch stands for: its
/// milliseconds reduced to 64 bits. There is none where the clock was set
/// before the epoch and no such time exists.
pub fn epoch_millis(since_epoch_ms: Option<u128>) -> (r: Option<u64>)
    ensures
        r == match since_epoch_ms {
            Some(ms) => Some((ms % 0x1_0000_0000_0000_0000) as u64),
            None => None,
        },
{
    match since_epoch_ms {
        Some(ms) => Some(truncate_millis(ms)),
        None => None,
    }
}

/// The cached time. Readers see a value at most one refresh old.
pub struct TimeCache {
    current_ms: Arc<AtomicU64>,
    tick_interval: Duration,
}

impl TimeCache {
    /// The period at which the cache is meant to be refreshed.
    pub closed spec fn period(&self) -> Duration {
        self.tick_interval
    }

    /// A cache primed with the system time, or `None` where the clock is set
    /// before the epoch. `tick_interval` is how often its owner means to
    /// call [`TimeCache::refresh`].
    pub fn new(tick_interval: Duration) -> (r: Option<Self>)
        ensures
            r matches Some(cache) ==> cache.period() == tick_interval,
    {
        match Self::now_sys() {
            Some(ms) => Some(
                TimeCache { current_ms: Arc::new(AtomicU64::new(ms)), tick_interval },
            ),
            None => None,
        }
    }

    /// The system time in milliseconds since the epoch, or `None` for a
    /// clock set before it.
    pub fn now_sys() -> (ms: Option<u64>) {
        let t = SystemTime::now();
        let elapsed = match since_epoch(&t) {
            Ok(d) => Some(d.as_millis()),
            Err(_) => None,
        };
        epoch_millis(elapsed)
    }

    /// The time as of the last refresh.
    pub fn get_cached(&self) -> (ms: u64) {
        self.current_ms.load(Ordering::Relaxed)
    }

    /// Stores the system time in the cache and says whether it did: a clock
    /// set before the epoch has no reading, and the cache keeps what it held.
    pub fn refresh(&self) -> (stored: bool) {
        match Self::now_sys() {
            Some(ms) => {
                self.current_ms.store(ms, Ordering::Relaxed);
                true
            },
            None => false,
        }
    }

    /// The period at which the cache is meant to be refreshed.
    pub fn tick_interval(&self) -> (d: Duration)
        ensures
            d == self.period(),
    {
        self.tick_interval
    }
}

} // verus!
