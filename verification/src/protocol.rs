//! The steps that the protocols of a context are made of, each on the queues
//! alone. A context that is driven in sequence runs them between its calls to
//! the target; a shell that awaits the target runs the same steps under its
//! locks.

use vstd::prelude::*;
use bytes::Bytes;
use crate::buf::bytes_view;
use crate::coalesce::{coalesce, coalesced};
use crate::model::{last_exact, lemma_select_concat, merged, select_overlapping, Patch};
use crate::order::{lemma_stable_sort_tally, sort_by_offset, stable_sort};
use crate::overlay::{lemma_read_your_writes, overlay};
use crate::policy::FLUSH_TRIGGER;
use crate::queue::WriteQueue;
use crate::write::{all_wf, patches, PendingWrite};

verus! {

/// What a read of `[offset, offset + len)` is answered with before the
/// target is asked: the payload of the latest write to exactly that range,
/// looked for among the pending writes first and the flushing writes second.
pub open spec fn queued_hit(
    pending: Seq<Patch>,
    flushing: Seq<Patch>,
    offset: int,
    len: int,
) -> Option<Seq<u8>> {
    match last_exact(pending, offset, len) {
        Some(k) => Some(pending[k].data),
        None => match last_exact(flushing, offset, len) {
            Some(k) => Some(flushing[k].data),
            None => None,
        },
    }
}

/// Appends a write of `data` at `offset` to the write queue and says whether
/// the queue now holds more than the flush trigger.
pub fn enqueue(write_queue: &mut WriteQueue, offset: u64, data: Bytes) -> (flush_due: bool)
    requires
        old(write_queue).wf(),
        offset + bytes_view(data).len() <= u64::MAX,
        old(write_queue).total_bytes + bytes_view(data).len() <= u64::MAX,
    ensures
        final(write_queue).wf(),
        final(write_queue)@ == old(write_queue)@.push(
            Patch { offset: offset as int, data: bytes_view(data) },
        ),
        final(write_queue).total_bytes == old(write_queue).total_bytes + bytes_view(data).len(),
        flush_due == (old(write_queue).total_bytes + bytes_view(data).len() > FLUSH_TRIGGER),
{
    write_queue.push(PendingWrite::new(offset, data));
    write_queue.total_bytes > FLUSH_TRIGGER
}

/// Begins a flush. With an empty write queue there is nothing to do: no run
/// is planned and both queues stay as they are. Otherwise the write queue is
/// emptied into the flushing queue, behind what an earlier failed flush left
/// there, and the runs to issue are the flushing queue's writes sorted by
/// offset with adjacent ones merged.
pub fn plan_flush(write_queue: &mut WriteQueue, flushing_queue: &mut WriteQueue) -> (runs: Vec<
    PendingWrite,
>)
    requires
        old(write_queue).wf(),
        old(flushing_queue).wf(),
        old(flushing_queue).total_bytes + old(write_queue).total_bytes <= isize::MAX,
    ensures
        final(write_queue).wf(),
        final(flushing_queue).wf(),
        final(flushing_queue).total_bytes + final(write_queue).total_bytes <= isize::MAX,
        all_wf(runs@),
        if old(write_queue)@.len() == 0 {
            &&& runs@.len() == 0
            &&& *final(write_queue) == *old(write_queue)
            &&& *final(flushing_queue) == *old(flushing_queue)
        } else {
            &&& final(write_queue)@ == Seq::<Patch>::empty()
            &&& final(write_queue).total_bytes == 0
            &&& final(flushing_queue)@ == old(flushing_queue)@ + old(write_queue)@
            &&& patches(runs@) == coalesced(
                stable_sort(old(flushing_queue)@ + old(write_queue)@),
            )
        },
{
    if write_queue.is_empty() {
        return Vec::new();
    }
    let taken = write_queue.take();
    flushing_queue.absorb(taken);
    let sorted = sort_by_offset(&flushing_queue.writes);
    proof {
        lemma_stable_sort_tally(flushing_queue@);
    }
    coalesce(&sorted)
}

/// The payload that answers a read of `[offset, offset + len)` without the
/// target, if a queued write covers exactly that range.
pub fn find_queued(
    write_queue: &WriteQueue,
    flushing_queue: &WriteQueue,
    offset: u64,
    len: u64,
) -> (r: Option<Bytes>)
    ensures
        match r {
            Some(b) => queued_hit(write_queue@, flushing_queue@, offset as int, len as int) == Some(
                bytes_view(b),
            ),
            None => queued_hit(write_queue@, flushing_queue@, offset as int, len as int) is None,
        },
{
    match write_queue.find_exact(offset, len) {
        Some(data) => Some(data),
        None => flushing_queue.find_exact(offset, len),
    }
}

/// Lays over `disk`, the bytes the target returned for the range starting at
/// `offset`, every queued write that intersects the range: the flushing
/// queue's first, then the write queue's, each once and in arrival order.
/// The result is the overlay of all queued writes on those bytes.
pub fn merge_read(
    flushing_queue: &WriteQueue,
    write_queue: &WriteQueue,
    disk: &Bytes,
    offset: u64,
) -> (r: Bytes)
    requires
        flushing_queue.wf(),
        write_queue.wf(),
        offset + bytes_view(*disk).len() <= u64::MAX,
    ensures
        bytes_view(r) == merged(bytes_view(*disk), offset as int, flushing_queue@ + write_queue@),
{
    let read_end: u64 = offset + disk.len() as u64;
    let mut layers: Vec<PendingWrite> = Vec::new();
    flushing_queue.collect_patches(offset, read_end, &mut layers);
    write_queue.collect_patches(offset, read_end, &mut layers);
    let out = overlay(disk, &layers, offset);
    proof {
        let all = flushing_queue@ + write_queue@;
        lemma_select_concat(flushing_queue@, write_queue@, offset as int, read_end as int);
        assert(patches(Seq::<PendingWrite>::empty()) =~= Seq::<Patch>::empty());
        assert(patches(layers@) =~= select_overlapping(all, offset as int, read_end as int));
        lemma_read_your_writes(all, bytes_view(*disk), offset as int);
    }
    out
}

} // verus!
