//! The routing rule: which writes are queued and when the queue is drained.

use vstd::prelude::*;

verus! {

/// Writes shorter than this many bytes are always queued.
pub const SMALL_WRITE_CUTOFF: usize = 4096;

/// A queue holding more than this many bytes is flushed on enqueue.
pub const FLUSH_TRIGGER: u64 = 16384;

/// The latency threshold, in nanoseconds, of a newly registered target.
pub const DEFAULT_THRESHOLD_NS: u64 = 1_000_000;

/// Whether a write of `len` bytes is queued rather than issued directly.
///
/// It is queued when the target is slow, that is when its average write
/// latency in microseconds exceeds the threshold in nanoseconds divided by a
/// thousand, or when the write is small.
pub open spec fn should_buffer_spec(avg_write_latency_us: u64, threshold_ns: u64, len: nat) -> bool {
    avg_write_latency_us > threshold_ns / 1000 || len < SMALL_WRITE_CUTOFF
}

/// Decides the route of a write of `len` bytes.
pub fn should_buffer(avg_write_latency_us: u64, threshold_ns: u64, len: usize) -> (b: bool)
    ensures
        b == should_buffer_spec(avg_write_latency_us, threshold_ns, len as nat),
{
    avg_write_latency_us > threshold_ns / 1000 || len < SMALL_WRITE_CUTOFF
}

} // verus!
