use bytes::Bytes;
use ringest::ctx::IoContext;
use ringest::target::MemoryTarget;
use std::time::Duration;

fn fresh(contents: Vec<u8>) -> IoContext<MemoryTarget> {
    IoContext::new(
        MemoryTarget::with_contents(contents),
        Duration::from_millis(1000),
        Duration::from_millis(1000),
    )
}

#[test]
fn test_consistency_full_cycle() {
    let mut ctx = fresh(Vec::new());
    let original_data = Bytes::from("Highload consistency check");
    ctx.write_at(0, original_data.clone(), 10).unwrap();

    let memory_data = ctx.read_at(0, original_data.len() as u64).unwrap();
    assert_eq!(original_data, memory_data);
    assert!(ctx.target.contents().is_empty());

    ctx.flush(20).unwrap();

    let disk_data = ctx.read_at(0, original_data.len() as u64).unwrap();
    assert_eq!(original_data, disk_data);
    assert!(ctx.write_queue.is_empty());
    assert!(ctx.flushing_queue.is_empty());
    assert_eq!(ctx.target.contents().as_slice(), &original_data[..]);
}

#[test]
fn test_high_concurrency_io() {
    let mut ctx = fresh(Vec::new());
    let num_tasks: u64 = 20;
    let ops_per_task: u64 = 20;
    let mut now: u64 = 0;
    for i in 0..num_tasks {
        for j in 0..ops_per_task {
            let offset = (i * ops_per_task + j) * 8;
            let data = format!("d{:02}t{:02}xx", i, j).into_bytes();
            now += 1;
            ctx.write_at(offset, Bytes::from(data.clone()), now).unwrap();
            let read_data = ctx.read_at(offset, 8).unwrap();
            assert_eq!(read_data.as_ref(), data.as_slice());
        }
    }
    for i in 0..num_tasks {
        for j in 0..ops_per_task {
            let offset = (i * ops_per_task + j) * 8;
            let data = format!("d{:02}t{:02}xx", i, j).into_bytes();
            let read_data = ctx.read_at(offset, 8).unwrap();
            assert_eq!(read_data.as_ref(), data.as_slice());
        }
    }
}

#[test]
fn coalescing_issues_one_write_for_a_contiguous_run() {
    let mut ctx = fresh(Vec::new());
    for k in 0..8u64 {
        ctx.write_at(k * 1024, Bytes::from(vec![k as u8; 1024]), 5).unwrap();
    }
    assert_eq!(ctx.write_queue.len(), 8);
    assert_eq!(ctx.write_queue.total_bytes, 8192);
    assert!(ctx.target.write_calls().is_empty());
    ctx.flush(6).unwrap();
    assert_eq!(ctx.target.write_calls().as_slice(), &[(0u64, 8192usize)]);
    let mut expected = Vec::new();
    for k in 0..8u8 {
        expected.extend(vec![k; 1024]);
    }
    assert_eq!(ctx.target.contents(), &expected);
    assert_eq!(ctx.metrics.last_out, 6);
}

#[test]
fn read_merges_overlapping_patches_over_disk() {
    let mut ctx = fresh(vec![0xFF; 100]);
    ctx.write_at(10, Bytes::from(vec![0xAA; 20]), 1).unwrap();
    ctx.write_at(40, Bytes::from(vec![0xBB; 10]), 2).unwrap();
    let got = ctx.read_at(0, 100).unwrap();
    let mut expected = vec![0xFFu8; 100];
    for b in &mut expected[10..30] {
        *b = 0xAA;
    }
    for b in &mut expected[40..50] {
        *b = 0xBB;
    }
    assert_eq!(got.as_ref(), expected.as_slice());
    assert_eq!(ctx.target.contents(), &vec![0xFFu8; 100]);
}

struct Refusing;

impl ringest::target::IoTarget for Refusing {
    fn read_at(&self, _offset: u64, _len: usize) -> Result<Bytes, ringest::error::Error> {
        Err(ringest::error::Error::Internal("no reads".to_string()))
    }

    fn write_at(&mut self, _content: Bytes, _offset: u64) -> Result<(), ringest::error::Error> {
        Err(ringest::error::Error::Io(std::io::Error::from(std::io::ErrorKind::BrokenPipe)))
    }
}

#[test]
fn target_errors_are_surfaced_unchanged() {
    let mut ctx = IoContext::new(Refusing, Duration::from_millis(1), Duration::from_millis(1));
    match ctx.read_at(0, 4) {
        Err(ringest::error::Error::Internal(m)) => assert_eq!(m, "no reads"),
        other => panic!("unexpected result: {:?}", other),
    }
    match ctx.write_at(0, Bytes::from(vec![0u8; 4096]), 1) {
        Err(ringest::error::Error::Io(e)) => assert_eq!(e.kind(), std::io::ErrorKind::BrokenPipe),
        other => panic!("unexpected result: {:?}", other),
    }
    ctx.write_at(0, Bytes::from(vec![0u8; 16]), 2).unwrap();
    match ctx.flush(3) {
        Err(ringest::error::Error::Io(_)) => {}
        other => panic!("unexpected result: {:?}", other),
    }
    assert_eq!(ctx.flushing_queue.len(), 1);
    assert!(ctx.write_queue.is_empty());
    assert_eq!(ctx.read_at(0, 16).unwrap().as_ref(), &[0u8; 16][..]);
}

#[test]
fn a_large_write_to_a_fast_target_goes_direct() {
    let mut ctx = fresh(Vec::new());
    ctx.write_at(100, Bytes::from(vec![7u8; 4096]), 42).unwrap();
    assert!(ctx.write_queue.is_empty());
    assert_eq!(ctx.target.write_calls().as_slice(), &[(100u64, 4096usize)]);
    assert_eq!(ctx.metrics.last_in, 42);
    assert_eq!(ctx.metrics.last_out, 0);
    assert_eq!(ctx.read_at(100, 4096).unwrap().as_ref(), vec![7u8; 4096].as_slice());
}

#[test]
fn a_write_one_byte_under_the_cutoff_is_buffered() {
    let mut ctx = fresh(Vec::new());
    ctx.write_at(0, Bytes::from(vec![7u8; 4095]), 1).unwrap();
    assert_eq!(ctx.write_queue.len(), 1);
    assert_eq!(ctx.write_queue.total_bytes, 4095);
    assert!(ctx.target.write_calls().is_empty());
}

#[test]
fn a_large_write_to_a_slow_target_is_buffered() {
    let mut ctx = fresh(Vec::new());
    ctx.metrics.avg_write_latency = 1001;
    ctx.write_at(0, Bytes::from(vec![7u8; 8192]), 1).unwrap();
    assert_eq!(ctx.write_queue.len(), 1);
    assert!(ctx.target.write_calls().is_empty());

    let mut ctx = fresh(Vec::new());
    ctx.metrics.avg_write_latency = 1000;
    ctx.write_at(0, Bytes::from(vec![7u8; 8192]), 1).unwrap();
    assert!(ctx.write_queue.is_empty());
    assert_eq!(ctx.target.write_calls().len(), 1);
}

#[test]
fn the_threshold_is_taken_in_nanoseconds() {
    let mut ctx = fresh(Vec::new());
    assert_eq!(ctx.threshold_ns, 1_000_000);
    ctx.threshold_ns = 5_999;
    ctx.metrics.avg_write_latency = 6;
    ctx.write_at(0, Bytes::from(vec![7u8; 8192]), 1).unwrap();
    assert_eq!(ctx.write_queue.len(), 1);
    ctx.metrics.avg_write_latency = 5;
    ctx.write_at(8192, Bytes::from(vec![7u8; 8192]), 1).unwrap();
    assert_eq!(ctx.write_queue.len(), 1);
    assert_eq!(ctx.target.write_calls().as_slice(), &[(8192u64, 8192usize)]);
}

#[test]
fn the_queue_is_flushed_once_it_holds_more_than_the_trigger() {
    let mut ctx = fresh(Vec::new());
    for k in 0..16u64 {
        ctx.write_at(k * 1024, Bytes::from(vec![k as u8; 1024]), k).unwrap();
    }
    assert_eq!(ctx.write_queue.total_bytes, 16384);
    assert_eq!(ctx.write_queue.len(), 16);
    assert!(ctx.target.write_calls().is_empty());
    ctx.write_at(16 * 1024, Bytes::from(vec![16u8; 1]), 99).unwrap();
    assert!(ctx.write_queue.is_empty());
    assert_eq!(ctx.write_queue.total_bytes, 0);
    assert!(ctx.flushing_queue.is_empty());
    assert_eq!(ctx.target.write_calls().as_slice(), &[(0u64, 16385usize)]);
    assert_eq!(ctx.metrics.last_in, 99);
    assert_eq!(ctx.metrics.last_out, 99);
}

#[test]
fn a_failed_flush_keeps_the_writes_and_the_next_flush_reissues_them() {
    let mut ctx = fresh(vec![0u8; 32]);
    ctx.write_at(0, Bytes::from(vec![1u8; 8]), 1).unwrap();
    ctx.write_at(16, Bytes::from(vec![2u8; 8]), 2).unwrap();
    ctx.target.set_stalled(true);
    let err = ctx.flush(3).unwrap_err();
    assert!(err.is_timeout());
    assert!(ctx.write_queue.is_empty());
    assert_eq!(ctx.flushing_queue.len(), 2);
    assert_eq!(ctx.flushing_queue.total_bytes, 16);
    assert_eq!(ctx.metrics.last_out, 0);
    assert!(ctx.target.write_calls().is_empty());

    let mut expected = vec![0u8; 32];
    expected[0..8].copy_from_slice(&[1; 8]);
    expected[16..24].copy_from_slice(&[2; 8]);
    assert_eq!(ctx.read_at(0, 32).unwrap().as_ref(), expected.as_slice());

    ctx.write_at(8, Bytes::from(vec![3u8; 8]), 4).unwrap();
    expected[8..16].copy_from_slice(&[3; 8]);
    assert_eq!(ctx.flushing_queue.len(), 2);
    assert_eq!(ctx.write_queue.len(), 1);
    assert_eq!(ctx.read_at(0, 32).unwrap().as_ref(), expected.as_slice());

    ctx.target.set_stalled(false);
    ctx.flush(5).unwrap();
    assert!(ctx.write_queue.is_empty());
    assert!(ctx.flushing_queue.is_empty());
    assert_eq!(ctx.target.write_calls().as_slice(), &[(0u64, 24usize)]);
    assert_eq!(ctx.target.contents(), &expected);
    assert_eq!(ctx.metrics.last_out, 5);
    assert_eq!(ctx.read_at(0, 32).unwrap().as_ref(), expected.as_slice());
}

#[test]
fn a_flush_with_nothing_queued_changes_nothing() {
    let mut ctx = fresh(vec![5u8; 4]);
    ctx.target.set_stalled(true);
    ctx.flush(77).unwrap();
    assert_eq!(ctx.metrics.last_out, 0);
    assert_eq!(ctx.metrics.last_in, 0);
    assert!(ctx.target.write_calls().is_empty());
}

#[test]
fn writes_at_one_offset_are_issued_in_arrival_order() {
    let mut ctx = fresh(Vec::new());
    ctx.write_at(4, Bytes::from(vec![1u8; 4]), 1).unwrap();
    ctx.write_at(4, Bytes::from(vec![2u8; 2]), 2).unwrap();
    ctx.write_at(0, Bytes::from(vec![9u8; 2]), 3).unwrap();
    assert_eq!(ctx.read_at(0, 8).unwrap().as_ref(), &[9, 9, 0, 0, 2, 2, 1, 1]);
    ctx.flush(4).unwrap();
    assert_eq!(
        ctx.target.write_calls().as_slice(),
        &[(0u64, 2usize), (4u64, 4usize), (4u64, 2usize)]
    );
    assert_eq!(ctx.target.contents(), &vec![9, 9, 0, 0, 2, 2, 1, 1]);
    assert_eq!(ctx.read_at(0, 8).unwrap().as_ref(), &[9, 9, 0, 0, 2, 2, 1, 1]);
}

#[test]
fn overlapping_writes_that_arrive_against_offset_order_change_on_flush() {
    let mut ctx = fresh(vec![0u8; 16]);
    ctx.write_at(10, Bytes::from(vec![b'A'; 4]), 1).unwrap();
    ctx.write_at(8, Bytes::from(vec![b'B'; 4]), 2).unwrap();
    assert_eq!(ctx.read_at(8, 6).unwrap().as_ref(), b"BBBBAA");
    ctx.flush(3).unwrap();
    assert_eq!(ctx.target.write_calls().as_slice(), &[(8u64, 4usize), (10u64, 4usize)]);
    assert_eq!(ctx.read_at(8, 6).unwrap().as_ref(), b"BBAAAA");
}

#[test]
fn an_exact_match_answers_the_read_from_the_newest_such_write() {
    let mut ctx = fresh(vec![0u8; 8]);
    ctx.write_at(0, Bytes::from(vec![b'A'; 4]), 1).unwrap();
    ctx.write_at(0, Bytes::from(vec![b'C'; 4]), 2).unwrap();
    assert_eq!(ctx.read_at(0, 4).unwrap().as_ref(), b"CCCC");
    ctx.write_at(2, Bytes::from(vec![b'B'; 2]), 3).unwrap();
    assert_eq!(ctx.read_at(0, 4).unwrap().as_ref(), b"CCCC");
    assert_eq!(ctx.read_at(0, 5).unwrap().as_ref(), b"CCBB\0");
    assert_eq!(ctx.metrics.avg_write_latency, 0);
}

#[test]
fn an_exact_match_in_the_write_queue_beats_one_in_the_flushing_queue() {
    let mut ctx = fresh(vec![0u8; 8]);
    ctx.write_at(0, Bytes::from(vec![b'A'; 4]), 1).unwrap();
    ctx.target.set_stalled(true);
    assert!(ctx.flush(2).is_err());
    assert_eq!(ctx.read_at(0, 4).unwrap().as_ref(), b"AAAA");
    ctx.write_at(0, Bytes::from(vec![b'Z'; 4]), 3).unwrap();
    assert_eq!(ctx.read_at(0, 4).unwrap().as_ref(), b"ZZZZ");
}

#[test]
fn stamps_never_go_back_while_the_clock_does_not() {
    let mut ctx = fresh(Vec::new());
    let mut last_in = 0;
    let mut last_out = 0;
    for now in [3u64, 3, 8, 20, 21] {
        ctx.write_at(now, Bytes::from(vec![1u8; 2]), now).unwrap();
        assert!(ctx.metrics.last_in >= last_in);
        assert!(ctx.metrics.last_out >= last_out);
        last_in = ctx.metrics.last_in;
        ctx.flush(now + 1).unwrap();
        assert!(ctx.metrics.last_in >= last_in);
        assert!(ctx.metrics.last_out >= last_out);
        last_out = ctx.metrics.last_out;
        assert_eq!(last_out, now + 1);
    }
}

#[test]
fn a_read_of_no_bytes_is_empty() {
    let mut ctx = fresh(vec![1, 2, 3]);
    assert!(ctx.read_at(1, 0).unwrap().is_empty());
    ctx.write_at(1, Bytes::from(vec![9u8]), 1).unwrap();
    assert!(ctx.read_at(1, 0).unwrap().is_empty());
    assert_eq!(ctx.read_at(0, 3).unwrap().as_ref(), &[1, 9, 3]);
}

#[test]
fn a_patch_that_straddles_the_range_contributes_its_middle() {
    let mut ctx = fresh(vec![0u8; 32]);
    let data: Vec<u8> = (1..=20u8).collect();
    ctx.write_at(5, Bytes::from(data), 1).unwrap();
    assert_eq!(ctx.read_at(10, 4).unwrap().as_ref(), &[6, 7, 8, 9]);
    assert_eq!(ctx.read_at(0, 7).unwrap().as_ref(), &[0, 0, 0, 0, 0, 1, 2]);
    assert_eq!(ctx.read_at(23, 4).unwrap().as_ref(), &[19, 20, 0, 0]);
}

#[test]
fn a_new_context_is_empty_with_default_settings() {
    let ctx = IoContext::new(
        MemoryTarget::new(),
        Duration::from_millis(50),
        Duration::from_millis(70),
    );
    assert_eq!(ctx.threshold_ns, 1_000_000);
    assert_eq!(ctx.write_timeout, Duration::from_millis(50));
    assert_eq!(ctx.read_timeout, Duration::from_millis(70));
    assert!(ctx.write_queue.is_empty());
    assert!(ctx.flushing_queue.is_empty());
    assert!(ctx.read_queue.is_empty());
    assert_eq!(ctx.metrics.total_ops, 0);
    assert_eq!(ctx.metrics.avg_read_latency, 0);
}

#[test]
fn a_direct_write_under_a_queued_write_is_overlaid_by_it() {
    let mut ctx = fresh(vec![0u8; 8]);
    ctx.write_at(0, Bytes::from(vec![1u8; 8]), 1).unwrap();
    ctx.write_at(0, Bytes::from(vec![2u8; 4096]), 2).unwrap();
    assert_eq!(ctx.target.write_calls().as_slice(), &[(0u64, 4096usize)]);
    assert_eq!(ctx.write_queue.len(), 1);
    let got = ctx.read_at(0, 12).unwrap();
    assert_eq!(got.as_ref(), &[1, 1, 1, 1, 1, 1, 1, 1, 2, 2, 2, 2]);
    ctx.flush(3).unwrap();
    assert_eq!(&ctx.target.contents()[..12], &[1, 1, 1, 1, 1, 1, 1, 1, 2, 2, 2, 2]);
    assert_eq!(ctx.read_at(0, 12).unwrap().as_ref(), &[1, 1, 1, 1, 1, 1, 1, 1, 2, 2, 2, 2]);
}

#[test]
fn a_flush_with_an_empty_write_queue_leaves_the_flushing_queue_alone() {
    let mut ctx = fresh(vec![0u8; 8]);
    ctx.write_at(0, Bytes::from(vec![1u8; 4]), 1).unwrap();
    ctx.target.set_stalled(true);
    assert!(ctx.flush(2).is_err());
    ctx.target.set_stalled(false);
    assert!(ctx.write_queue.is_empty());
    assert_eq!(ctx.flushing_queue.len(), 1);

    ctx.flush(3).unwrap();
    assert!(ctx.write_queue.is_empty());
    assert_eq!(ctx.flushing_queue.len(), 1);
    assert_eq!(ctx.flushing_queue.total_bytes, 4);
    assert!(ctx.target.write_calls().is_empty());
    assert_eq!(ctx.target.contents(), &vec![0u8; 8]);
    assert_eq!(ctx.metrics.last_in, 1);
    assert_eq!(ctx.metrics.last_out, 0);
    assert_eq!(ctx.read_at(0, 8).unwrap().as_ref(), &[1, 1, 1, 1, 0, 0, 0, 0]);

    ctx.target.set_stalled(true);
    ctx.flush(4).unwrap();
    assert_eq!(ctx.flushing_queue.len(), 1);
    assert_eq!(ctx.metrics.last_out, 0);
}

#[test]
fn a_flush_right_after_a_flush_changes_nothing() {
    let mut ctx = fresh(Vec::new());
    ctx.write_at(0, Bytes::from(vec![1u8; 4]), 1).unwrap();
    ctx.flush(2).unwrap();
    assert_eq!(ctx.metrics.last_out, 2);
    ctx.flush(9).unwrap();
    assert_eq!(ctx.metrics.last_out, 2);
    assert_eq!(ctx.metrics.last_in, 1);
    assert_eq!(ctx.target.write_calls().len(), 1);
    assert!(ctx.write_queue.is_empty());
    assert!(ctx.flushing_queue.is_empty());
}
