use bytes::Bytes;
use ringest::coalesce::coalesce;
use ringest::order::sort_by_offset;
use ringest::overlay::overlay;
use ringest::protocol::{enqueue, find_queued, merge_read, plan_flush};
use ringest::queue::WriteQueue;
use ringest::read::PendingRead;
use ringest::write::PendingWrite;

fn write(offset: u64, data: &[u8]) -> PendingWrite {
    PendingWrite::new(offset, Bytes::copy_from_slice(data))
}

fn shape(ws: &[PendingWrite]) -> Vec<(u64, Vec<u8>)> {
    ws.iter().map(|w| (w.offset(), w.data().to_vec())).collect()
}

#[test]
fn the_tally_is_the_sum_of_the_payload_lengths() {
    let mut q = WriteQueue::new();
    assert!(q.is_empty());
    assert_eq!(q.len(), 0);
    assert_eq!(q.total_bytes, 0);
    q.push(write(10, b"abc"));
    q.push(write(0, b""));
    q.push(write(3, b"defgh"));
    assert_eq!(q.len(), 3);
    assert!(!q.is_empty());
    assert_eq!(q.total_bytes, 8);
    let sum: usize = q.writes.iter().map(|w| w.data.len()).sum();
    assert_eq!(q.total_bytes, sum as u64);
    assert_eq!(
        shape(&q.writes),
        vec![(10, b"abc".to_vec()), (0, vec![]), (3, b"defgh".to_vec())]
    );
}

#[test]
fn clear_and_take_leave_an_empty_queue() {
    let mut q = WriteQueue::new();
    q.push(write(1, b"xy"));
    q.push(write(2, b"z"));
    let taken = q.take();
    assert!(q.is_empty());
    assert_eq!(q.total_bytes, 0);
    assert_eq!(taken.len(), 2);
    assert_eq!(taken.total_bytes, 3);
    q.push(write(9, b"k"));
    q.clear();
    assert!(q.is_empty());
    assert_eq!(q.total_bytes, 0);
    let d = WriteQueue::default();
    assert!(d.is_empty());
    assert_eq!(d.total_bytes, 0);
}

#[test]
fn absorb_appends_in_order_and_adds_the_tallies() {
    let mut a = WriteQueue::new();
    a.push(write(5, b"aa"));
    let mut b = WriteQueue::new();
    b.push(write(1, b"bbb"));
    b.push(write(7, b"c"));
    a.absorb(b);
    assert_eq!(a.total_bytes, 6);
    assert_eq!(
        shape(&a.writes),
        vec![(5, b"aa".to_vec()), (1, b"bbb".to_vec()), (7, b"c".to_vec())]
    );
    let c = a.clone();
    assert_eq!(shape(&c.writes), shape(&a.writes));
    assert_eq!(c.total_bytes, 6);
}

#[test]
fn find_exact_returns_the_newest_write_to_exactly_the_range() {
    let mut q = WriteQueue::new();
    q.push(write(4, b"old!"));
    q.push(write(4, b"longer"));
    q.push(write(4, b"new!"));
    q.push(write(5, b"miss"));
    assert_eq!(q.find_exact(4, 4).unwrap().as_ref(), b"new!");
    assert_eq!(q.find_exact(4, 6).unwrap().as_ref(), b"longer");
    assert_eq!(q.find_exact(5, 4).unwrap().as_ref(), b"miss");
    assert!(q.find_exact(4, 5).is_none());
    assert!(q.find_exact(3, 4).is_none());
    assert!(WriteQueue::new().find_exact(0, 0).is_none());
}

#[test]
fn collect_patches_keeps_what_intersects_the_range_once_and_in_order() {
    let mut q = WriteQueue::new();
    q.push(write(0, b"0123"));
    q.push(write(4, b"45"));
    q.push(write(6, b"6789"));
    q.push(write(5, b""));
    q.push(write(20, b"far"));
    q.push(write(3, b"3456"));
    let mut out = vec![write(99, b"kept")];
    q.collect_patches(4, 6, &mut out);
    assert_eq!(
        shape(&out),
        vec![
            (99, b"kept".to_vec()),
            (4, b"45".to_vec()),
            (5, vec![]),
            (3, b"3456".to_vec()),
        ]
    );
    let mut none = Vec::new();
    q.collect_patches(10, 20, &mut none);
    assert!(none.is_empty());
    let mut edge = Vec::new();
    q.collect_patches(9, 21, &mut edge);
    assert_eq!(shape(&edge), vec![(6, b"6789".to_vec()), (20, b"far".to_vec())]);
}

#[test]
fn sorting_is_by_offset_and_keeps_ties_in_arrival_order() {
    let ws = vec![
        write(8, b"c1"),
        write(2, b"a"),
        write(8, b"c2"),
        write(5, b"b"),
        write(2, b"a2"),
        write(8, b"c3"),
    ];
    let sorted = sort_by_offset(&ws);
    assert_eq!(
        shape(&sorted),
        vec![
            (2, b"a".to_vec()),
            (2, b"a2".to_vec()),
            (5, b"b".to_vec()),
            (8, b"c1".to_vec()),
            (8, b"c2".to_vec()),
            (8, b"c3".to_vec()),
        ]
    );
    assert_eq!(ws.len(), 6);
    assert!(sort_by_offset(&Vec::new()).is_empty());
}

#[test]
fn coalescing_merges_exactly_adjacent_writes() {
    let sorted = vec![
        write(0, b"ab"),
        write(2, b"cd"),
        write(4, b""),
        write(4, b"ef"),
        write(7, b"gh"),
        write(8, b"ij"),
        write(10, b"kl"),
    ];
    let runs = coalesce(&sorted);
    assert_eq!(
        shape(&runs),
        vec![
            (0, b"abcdef".to_vec()),
            (7, b"gh".to_vec()),
            (8, b"ijkl".to_vec()),
        ]
    );
    assert!(coalesce(&Vec::new()).is_empty());
    let single = coalesce(&vec![write(3, b"x")]);
    assert_eq!(shape(&single), vec![(3, b"x".to_vec())]);
}

#[test]
fn overlay_lays_later_patches_over_earlier_ones() {
    let disk = Bytes::from(vec![b'.'; 10]);
    let layers = vec![
        write(98, b"AAAAAA"),
        write(104, b"BBBBBBBBBB"),
        write(0, b"nowhere"),
        write(101, b"C"),
        write(110, b"beyond"),
    ];
    let got = overlay(&disk, &layers, 100);
    assert_eq!(got.as_ref(), b"ACAABBBBBB");
    assert_eq!(disk.as_ref(), &[b'.'; 10]);
    let same = overlay(&disk, &Vec::new(), 100);
    assert_eq!(same.as_ref(), disk.as_ref());
}

#[test]
fn a_pending_read_holds_its_range() {
    let r = PendingRead::new(7, 9);
    assert_eq!(r.offset, 7);
    assert_eq!(r.len, 9);
}

#[test]
fn enqueue_says_when_the_queue_passes_the_trigger() {
    let mut q = WriteQueue::new();
    assert!(!enqueue(&mut q, 0, Bytes::from(vec![0u8; 16384])));
    assert_eq!((q.len(), q.total_bytes), (1, 16384));
    assert!(enqueue(&mut q, 16384, Bytes::from(vec![0u8; 1])));
    assert_eq!((q.len(), q.total_bytes), (2, 16385));
    assert!(enqueue(&mut q, 9, Bytes::new()));
    assert_eq!(shape(&q.writes)[2], (9, vec![]));
}

#[test]
fn a_flush_is_planned_only_for_a_write_queue_that_holds_something() {
    let mut pending = WriteQueue::new();
    let mut flushing = WriteQueue::new();
    flushing.push(write(4, b"left"));
    assert!(plan_flush(&mut pending, &mut flushing).is_empty());
    assert_eq!(shape(&flushing.writes), vec![(4, b"left".to_vec())]);
    assert_eq!(flushing.total_bytes, 4);
    assert!(pending.is_empty());

    pending.push(write(8, b"new!"));
    pending.push(write(0, b"head"));
    let runs = plan_flush(&mut pending, &mut flushing);
    assert_eq!(shape(&runs), vec![(0, b"headleftnew!".to_vec())]);
    assert!(pending.is_empty());
    assert_eq!(pending.total_bytes, 0);
    assert_eq!(
        shape(&flushing.writes),
        vec![(4, b"left".to_vec()), (8, b"new!".to_vec()), (0, b"head".to_vec())]
    );
    assert_eq!(flushing.total_bytes, 12);
}

#[test]
fn a_read_is_answered_from_the_write_queue_before_the_flushing_queue() {
    let mut pending = WriteQueue::new();
    let mut flushing = WriteQueue::new();
    flushing.push(write(0, b"old!"));
    flushing.push(write(8, b"only"));
    pending.push(write(0, b"new!"));
    assert_eq!(find_queued(&pending, &flushing, 0, 4).unwrap().as_ref(), b"new!");
    assert_eq!(find_queued(&pending, &flushing, 8, 4).unwrap().as_ref(), b"only");
    assert!(find_queued(&pending, &flushing, 0, 3).is_none());

    let disk = Bytes::from(vec![b'.'; 12]);
    assert_eq!(merge_read(&flushing, &pending, &disk, 0).as_ref(), b"new!....only");
    assert_eq!(merge_read(&pending, &flushing, &disk, 0).as_ref(), b"old!....only");
    assert_eq!(merge_read(&flushing, &pending, &disk, 2).as_ref(), b"w!....only..");
}
