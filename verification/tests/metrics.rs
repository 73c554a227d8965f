use ringest::latency::{truncate_micros, Stopwatch};
use ringest::metrics::{ema, IoMetrics};
use ringest::policy::{should_buffer, DEFAULT_THRESHOLD_NS, FLUSH_TRIGGER, SMALL_WRITE_CUTOFF};
use ringest::time::{epoch_millis, truncate_millis, TimeCache};
use std::time::Duration;

#[test]
fn the_first_sample_is_the_average() {
    assert_eq!(ema(0, 0), 0);
    assert_eq!(ema(0, 1234), 1234);
    assert_eq!(ema(0, u64::MAX), u64::MAX);
}

#[test]
fn later_samples_count_for_a_tenth() {
    assert_eq!(ema(100, 200), 110);
    assert_eq!(ema(100, 0), 90);
    assert_eq!(ema(1, 0), 0);
    assert_eq!(ema(7, 7), 7);
    assert_eq!(ema(10, 19), 10);
    assert_eq!(ema(10, 20), 11);
}

#[test]
fn the_average_of_huge_values_does_not_overflow() {
    assert_eq!(ema(u64::MAX, u64::MAX), u64::MAX);
    assert_eq!(ema(u64::MAX, 0), 16602069666338596453);
    assert_eq!(ema(1, u64::MAX), 1844674407370955162);
}

#[test]
fn new_metrics_are_all_zero() {
    let m = IoMetrics::new();
    assert_eq!(m.avg_write_latency, 0);
    assert_eq!(m.avg_read_latency, 0);
    assert_eq!(m.total_ops, 0);
    assert_eq!(m.last_in, 0);
    assert_eq!(m.last_out, 0);
}

#[test]
fn recording_a_latency_touches_only_its_average() {
    let mut m = IoMetrics::new();
    m.last_in = 5;
    m.record_write_latency(50);
    assert_eq!(m.avg_write_latency, 50);
    m.record_write_latency(150);
    assert_eq!(m.avg_write_latency, 60);
    assert_eq!(m.avg_read_latency, 0);
    m.record_read_latency(30);
    m.record_read_latency(40);
    assert_eq!(m.avg_read_latency, 31);
    assert_eq!(m.avg_write_latency, 60);
    assert_eq!(m.last_in, 5);
    assert_eq!(m.last_out, 0);
    assert_eq!(m.total_ops, 0);
}

#[test]
fn a_context_is_idle_when_unflushed_work_has_been_quiet_long_enough() {
    let mut m = IoMetrics::new();
    m.last_in = 1000;
    m.last_out = 900;
    assert!(!m.is_idle(1100, 100));
    assert!(m.is_idle(1101, 100));
    assert!(!m.is_idle(1000, 0));
    assert!(m.is_idle(1001, 0));
    assert!(!m.is_idle(999, 0));
    m.last_out = 1000;
    assert!(!m.is_idle(5000, 100));
    m.last_out = 1001;
    assert!(!m.is_idle(5000, 100));
}

#[test]
fn routing_buffers_small_writes_and_slow_targets() {
    assert_eq!(SMALL_WRITE_CUTOFF, 4 * 1024);
    assert_eq!(FLUSH_TRIGGER, 16 * 1024);
    assert_eq!(DEFAULT_THRESHOLD_NS, 1_000_000);
    assert!(should_buffer(0, DEFAULT_THRESHOLD_NS, 0));
    assert!(should_buffer(0, DEFAULT_THRESHOLD_NS, 4095));
    assert!(!should_buffer(0, DEFAULT_THRESHOLD_NS, 4096));
    assert!(!should_buffer(1000, DEFAULT_THRESHOLD_NS, 4096));
    assert!(should_buffer(1001, DEFAULT_THRESHOLD_NS, 4096));
    assert!(should_buffer(1001, DEFAULT_THRESHOLD_NS, usize::MAX));
    assert!(should_buffer(1, 999, 1 << 20));
    assert!(!should_buffer(0, 0, 1 << 20));
    assert!(!should_buffer(1, 1999, 1 << 20));
    assert!(should_buffer(2, 1999, 1 << 20));
}

#[test]
fn millisecond_counts_are_reduced_to_sixty_four_bits() {
    assert_eq!(truncate_millis(0), 0);
    assert_eq!(truncate_millis(1_700_000_000_000), 1_700_000_000_000);
    assert_eq!(truncate_millis(u64::MAX as u128), u64::MAX);
    assert_eq!(truncate_millis(u64::MAX as u128 + 1), 0);
    assert_eq!(truncate_millis(u128::MAX), u64::MAX);
}

#[test]
fn the_time_cache_holds_the_system_time_of_its_last_refresh() {
    let before = TimeCache::now_sys().unwrap();
    let cache = TimeCache::new(Duration::from_millis(5)).unwrap();
    assert_eq!(cache.tick_interval(), Duration::from_millis(5));
    let first = cache.get_cached();
    assert!(first >= before);
    assert!(first > 1_600_000_000_000);
    assert_eq!(cache.get_cached(), first);
    while TimeCache::now_sys().unwrap() < first + 3 {
        std::hint::spin_loop();
    }
    assert_eq!(cache.get_cached(), first);
    assert!(cache.refresh());
    let second = cache.get_cached();
    assert!(second >= first + 3);
    assert!(second <= TimeCache::now_sys().unwrap());
}

#[test]
fn a_stopwatch_counts_microseconds() {
    let watch = Stopwatch::start();
    let began = TimeCache::now_sys().unwrap();
    while TimeCache::now_sys().unwrap() < began + 3 {
        std::hint::spin_loop();
    }
    let first = watch.elapsed_micros();
    assert!(first >= 1_000);
    assert!(first < 10_000_000);
    assert!(watch.elapsed_micros() >= first);
}

#[test]
fn a_clock_before_the_epoch_has_no_reading() {
    assert_eq!(epoch_millis(None), None);
    assert_eq!(epoch_millis(Some(0)), Some(0));
    assert_eq!(epoch_millis(Some(1_700_000_000_123)), Some(1_700_000_000_123));
    assert_eq!(epoch_millis(Some(u64::MAX as u128 + 5)), Some(4));
}

#[test]
fn microsecond_counts_are_reduced_to_sixty_four_bits() {
    assert_eq!(truncate_micros(0), 0);
    assert_eq!(truncate_micros(2_500), 2_500);
    assert_eq!(truncate_micros(u64::MAX as u128), u64::MAX);
    assert_eq!(truncate_micros(u64::MAX as u128 + 8), 7);
}
