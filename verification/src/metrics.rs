//! Per-target counters: smoothed latencies and the times of the last write
//! in and the last flush out.

use vstd::prelude::*;

verus! {

/// The moving average after one more `sample`: nine parts old, one part new,
/// and the sample itself while no average exists yet.
pub open spec fn ema_spec(avg: u64, sample: u64) -> u64 {
    if avg == 0 {
        sample
    } else {
        ((avg * 9 + sample) / 10) as u64
    }
}

/// The moving average after one more `sample`. The sum is formed in 128 bits,
/// so no input overflows.
pub fn ema(avg: u64, sample: u64) -> (r: u64)
    ensures
        r == ema_spec(avg, sample),
        r <= avg || r <= sample,
{
    if avg == 0 {
        sample
    } else {
        let wide: u128 = (avg as u128 * 9 + sample as u128) / 10;
        wide as u64
    }
}

/// Latencies are in microseconds, times in milliseconds since the epoch.
pub struct IoMetrics {
    pub avg_write_latency: u64,
    pub avg_read_latency: u64,
    pub total_ops: u64,
    /// When a write last entered the layer.
    pub last_in: u64,
    /// When a flush last completed.
    pub last_out: u64,
}

impl IoMetrics {
    /// All counters at zero.
    pub fn new() -> (r: Self)
        ensures
            r.avg_write_latency == 0,
            r.avg_read_latency == 0,
            r.total_ops == 0,
            r.last_in == 0,
            r.last_out == 0,
    {
        IoMetrics {
            avg_read_latency: 0,
            avg_write_latency: 0,
            total_ops: 0,
            last_in: 0,
            last_out: 0,
        }
    }

    /// Folds one measured write latency into the average.
    pub fn record_write_latency(&mut self, sample: u64)
        ensures
            *final(self) == (IoMetrics {
                avg_write_latency: ema_spec(old(self).avg_write_latency, sample),
                ..*old(self)
            }),
    {
        self.avg_write_latency = ema(self.avg_write_latency, sample);
    }

    /// Folds one measured read latency into the average.
    pub fn record_read_latency(&mut self, sample: u64)
        ensures
            *final(self) == (IoMetrics {
                avg_read_latency: ema_spec(old(self).avg_read_latency, sample),
                ..*old(self)
            }),
    {
        self.avg_read_latency = ema(self.avg_read_latency, sample);
    }

    /// Whether unflushed work has sat idle for longer than `threshold_ms`:
    /// the last write came after the last flush and more than `threshold_ms`
    /// before `now`.
    pub fn is_idle(&self, now: u64, threshold_ms: u64) -> (b: bool)
        ensures
            b == idle_spec(self.last_in, self.last_out, now, threshold_ms),
    {
        self.last_in > self.last_out && now > self.last_in && now - self.last_in > threshold_ms
    }
}

/// The janitor's test on a context's two time stamps.
pub open spec fn idle_spec(last_in: u64, last_out: u64, now: u64, threshold_ms: u64) -> bool {
    last_in > last_out && now - last_in > threshold_ms
}

} // verus!
