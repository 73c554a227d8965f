use bytes::Bytes;
use ringest::read::BufferReader;
use ringest::registry::Registry;
use ringest::target::MemoryTarget;
use ringest::write::BufferWriter;
use std::time::Duration;

fn second() -> Duration {
    Duration::from_millis(1000)
}

#[test]
fn handles_reach_the_context_registered_under_their_id() {
    let mut registry: Registry<MemoryTarget> = Registry::new();
    assert_eq!(registry.len(), 0);
    registry.insert(1, MemoryTarget::new(), second(), second());
    registry.insert(12345, MemoryTarget::with_contents(vec![7; 4]), second(), second());
    assert_eq!(registry.len(), 2);
    assert!(registry.is_registered(1));
    assert!(registry.is_registered(12345));
    assert!(!registry.is_registered(2));
    assert!(registry.get_writer(2).is_none());
    assert!(registry.get_reader(2).is_none());

    {
        let mut writer = registry.get_writer(1).unwrap();
        writer.write_at(0, Bytes::from("Highload consistency check"), 10).unwrap();
    }
    {
        let mut reader = registry.get_reader(1).unwrap();
        assert_eq!(reader.read_at(0, 26).unwrap().as_ref(), b"Highload consistency check");
        assert_eq!(reader.context.write_queue.len(), 1);
    }
    {
        let mut other = registry.get_reader(12345).unwrap();
        assert_eq!(other.read_at(0, 4).unwrap().as_ref(), &[7, 7, 7, 7]);
        assert!(other.context.write_queue.is_empty());
    }
    {
        let mut writer = registry.get_writer(1).unwrap();
        writer.flush(20).unwrap();
        assert!(writer.context.write_queue.is_empty());
        assert_eq!(writer.context.metrics.last_out, 20);
        writer.write_at(26, Bytes::from("!"), 30).unwrap();
        writer.shutdown(40).unwrap();
        assert_eq!(writer.context.metrics.last_out, 40);
    }
    let ctx = registry.remove(1).unwrap();
    assert_eq!(ctx.target.contents().as_slice(), b"Highload consistency check!");
    assert!(!registry.is_registered(1));
    assert_eq!(registry.len(), 1);
    assert!(registry.remove(1).is_none());
}

#[test]
fn registering_an_id_again_replaces_its_context() {
    let mut registry: Registry<MemoryTarget> = Registry::new();
    registry.insert(5, MemoryTarget::with_contents(vec![1]), second(), second());
    registry.insert(6, MemoryTarget::with_contents(vec![2]), second(), second());
    registry.get_writer(5).unwrap().write_at(0, Bytes::from(vec![9u8]), 1).unwrap();
    registry.insert(5, MemoryTarget::with_contents(vec![3]), second(), Duration::from_millis(5));
    assert_eq!(registry.len(), 2);
    let mut reader = registry.get_reader(5).unwrap();
    assert!(reader.context.write_queue.is_empty());
    assert_eq!(reader.context.read_timeout, Duration::from_millis(5));
    assert_eq!(reader.context.threshold_ns, 1_000_000);
    assert_eq!(reader.read_at(0, 1).unwrap().as_ref(), &[3]);
    assert_eq!(registry.get_reader(6).unwrap().read_at(0, 1).unwrap().as_ref(), &[2]);
}

#[test]
fn the_janitor_flushes_contexts_that_have_been_quiet() {
    let mut registry: Registry<MemoryTarget> = Registry::new();
    registry.insert(1, MemoryTarget::new(), second(), second());
    registry.insert(2, MemoryTarget::new(), second(), second());
    registry.insert(3, MemoryTarget::new(), second(), second());
    registry.get_writer(1).unwrap().write_at(0, Bytes::from(vec![1u8; 1024]), 1000).unwrap();
    registry.get_writer(2).unwrap().write_at(0, Bytes::from(vec![2u8; 1024]), 1150).unwrap();

    assert_eq!(registry.sweep(1100, 100), 0);
    assert_eq!(registry.get_reader(1).unwrap().context.write_queue.len(), 1);

    assert_eq!(registry.sweep(1101, 100), 1);
    {
        let first = registry.get_reader(1).unwrap();
        assert!(first.context.write_queue.is_empty());
        assert!(first.context.metrics.last_out > first.context.metrics.last_in);
        assert_eq!(first.context.metrics.last_out, 1101);
        assert_eq!(first.context.target.contents(), &vec![1u8; 1024]);
    }
    assert_eq!(registry.get_reader(2).unwrap().context.write_queue.len(), 1);
    assert_eq!(registry.get_reader(3).unwrap().context.metrics.last_out, 0);

    assert_eq!(registry.sweep(1300, 100), 1);
    assert!(registry.get_reader(2).unwrap().context.write_queue.is_empty());
    assert_eq!(registry.sweep(5000, 100), 0);
}

#[test]
fn the_janitor_passes_over_a_flush_that_fails() {
    let mut registry: Registry<MemoryTarget> = Registry::new();
    registry.insert(1, MemoryTarget::new(), second(), second());
    {
        let mut writer = registry.get_writer(1).unwrap();
        writer.write_at(0, Bytes::from(vec![1u8; 8]), 10).unwrap();
        writer.context.target.set_stalled(true);
    }
    assert_eq!(registry.sweep(500, 100), 1);
    {
        let reader = registry.get_reader(1).unwrap();
        assert_eq!(reader.context.flushing_queue.len(), 1);
        assert_eq!(reader.context.metrics.last_out, 0);
    }
    registry.get_writer(1).unwrap().context.target.set_stalled(false);
    assert_eq!(registry.sweep(600, 100), 1);
    {
        let reader = registry.get_reader(1).unwrap();
        assert_eq!(reader.context.flushing_queue.len(), 1);
        assert_eq!(reader.context.metrics.last_out, 0);
        assert!(reader.context.target.write_calls().is_empty());
    }
    registry.get_writer(1).unwrap().write_at(8, Bytes::from(vec![2u8; 8]), 650).unwrap();
    assert_eq!(registry.sweep(700, 100), 0);
    assert_eq!(registry.sweep(800, 100), 1);
    let reader = registry.get_reader(1).unwrap();
    assert!(reader.context.flushing_queue.is_empty());
    assert!(reader.context.write_queue.is_empty());
    assert_eq!(reader.context.metrics.last_out, 800);
    assert_eq!(reader.context.target.write_calls().as_slice(), &[(0u64, 16usize)]);
}

#[test]
fn handles_can_be_made_on_a_context_directly() {
    let mut ctx = ringest::ctx::IoContext::new(MemoryTarget::new(), second(), second());
    BufferWriter::new(&mut ctx).write_at(3, Bytes::from(vec![4u8, 5]), 1).unwrap();
    assert_eq!(BufferReader::new(&mut ctx).read_at(2, 4).unwrap().as_ref(), &[0, 4, 5, 0]);
    assert_eq!(ctx.metrics.last_in, 1);
}

#[test]
fn removing_a_target_leaves_the_others_reachable() {
    let mut registry: Registry<MemoryTarget> = Registry::new();
    for id in [10u64, 20, 30, 40] {
        registry.insert(id, MemoryTarget::with_contents(vec![id as u8; 2]), second(), second());
    }
    assert_eq!(registry.remove(20).unwrap().target.contents(), &vec![20u8; 2]);
    assert_eq!(registry.len(), 3);
    assert!(!registry.is_registered(20));
    for id in [10u64, 30, 40] {
        assert!(registry.is_registered(id));
        let mut reader = registry.get_reader(id).unwrap();
        assert_eq!(reader.read_at(0, 2).unwrap().as_ref(), &[id as u8; 2]);
    }
    assert_eq!(registry.remove(40).unwrap().target.contents(), &vec![40u8; 2]);
    assert_eq!(registry.remove(10).unwrap().target.contents(), &vec![10u8; 2]);
    assert!(registry.remove(10).is_none());
    assert_eq!(registry.len(), 1);
    assert_eq!(registry.get_reader(30).unwrap().read_at(0, 2).unwrap().as_ref(), &[30u8; 2]);
    registry.insert(10, MemoryTarget::with_contents(vec![11u8; 2]), second(), second());
    assert_eq!(registry.len(), 2);
    assert_eq!(registry.get_reader(10).unwrap().read_at(0, 2).unwrap().as_ref(), &[11u8; 2]);
    assert_eq!(registry.remove(30).unwrap().target.contents(), &vec![30u8; 2]);
    assert_eq!(registry.remove(10).unwrap().target.contents(), &vec![11u8; 2]);
    assert_eq!(registry.len(), 0);
    assert_eq!(registry.sweep(1, 0), 0);
}

#[test]
fn the_janitor_counts_the_contexts_that_met_its_test() {
    let mut registry: Registry<MemoryTarget> = Registry::new();
    for id in 1..=4u64 {
        registry.insert(id, MemoryTarget::new(), second(), second());
    }
    registry.get_writer(1).unwrap().write_at(0, Bytes::from(vec![1u8]), 100).unwrap();
    registry.get_writer(2).unwrap().write_at(0, Bytes::from(vec![2u8]), 100).unwrap();
    registry.get_writer(3).unwrap().write_at(0, Bytes::from(vec![3u8]), 190).unwrap();
    assert_eq!(registry.sweep(250, 100), 2);
    assert_eq!(registry.sweep(250, 100), 0);
    assert_eq!(registry.sweep(291, 100), 1);
    assert_eq!(registry.sweep(1000, 100), 0);
}
