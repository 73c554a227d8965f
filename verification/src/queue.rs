//! The queue of pending writes and its running byte count.

use vstd::prelude::*;
use bytes::Bytes;
use crate::buf::bytes_view;
use crate::model::{last_exact, lemma_tally_concat, lemma_tally_push, select_overlapping, tally, Patch};
use crate::write::{all_wf, patches, PendingWrite};

verus! {

/// Pending writes in arrival order, with the number of payload bytes queued.
///
/// Nothing is sorted or merged here: the order of `writes` is the order in
/// which the writes were accepted.
pub struct WriteQueue {
    pub writes: Vec<PendingWrite>,
    pub total_bytes: u64,
}

impl View for WriteQueue {
    type V = Seq<Patch>;

    open spec fn view(&self) -> Seq<Patch> {
        patches(self.writes@)
    }
}

impl Default for WriteQueue {
    fn default() -> (r: Self)
        ensures
            r.wf(),
            r@ == Seq::<Patch>::empty(),
    {
        WriteQueue::new()
    }
}

impl Clone for WriteQueue {
    /// A queue holding the same writes; payloads are shared, not copied.
    fn clone(&self) -> (r: Self)
        ensures
            r@ == self@,
            r.total_bytes == self.total_bytes,
            self.wf() ==> r.wf(),
    {
        let mut writes: Vec<PendingWrite> = Vec::new();
        let mut i: usize = 0;
        while i < self.writes.len()
            invariant
                0 <= i <= self.writes.len(),
                patches(writes@) == patches(self.writes@.take(i as int)),
                all_wf(self.writes@) ==> all_wf(writes@),
            decreases self.writes.len() - i,
        {
            let w = self.writes[i].clone();
            proof {
                assert(self.writes@.take(i + 1).drop_last() =~= self.writes@.take(i as int));
                assert(patches(self.writes@.take(i + 1)) =~= patches(
                    self.writes@.take(i as int),
                ).push(self.writes@[i as int]@));
                assert(patches(writes@.push(w)) =~= patches(writes@).push(w@));
                if all_wf(self.writes@) {
                    assert(self.writes@[i as int].wf());
                    assert forall|j: int| 0 <= j < writes@.push(w).len() implies (
                    #[trigger] writes@.push(w)[j]).wf() by {
                        if j < writes@.len() {
                            assert(writes@[j].wf());
                        }
                    }
                }
            }
            writes.push(w);
            i += 1;
        }
        proof {
            assert(self.writes@.take(self.writes@.len() as int) =~= self.writes@);
        }
        WriteQueue { writes, total_bytes: self.total_bytes }
    }
}

impl WriteQueue {
    /// The queue invariant: the count equals the sum of the payload lengths,
    /// and every write ends within the `u64` offsets.
    pub open spec fn wf(&self) -> bool {
        &&& self.total_bytes == tally(self@)
        &&& all_wf(self.writes@)
    }

    /// An empty queue.
    pub fn new() -> (r: Self)
        ensures
            r.wf(),
            r@ == Seq::<Patch>::empty(),
            r.total_bytes == 0,
    {
        let r = WriteQueue { writes: Vec::new(), total_bytes: 0 };
        proof {
            assert(r@ =~= Seq::<Patch>::empty());
        }
        r
    }

    /// Appends `op` and adds its length to the byte count.
    pub fn push(&mut self, op: PendingWrite)
        requires
            old(self).wf(),
            op.wf(),
            old(self).total_bytes + op@.data.len() <= u64::MAX,
        ensures
            final(self).wf(),
            final(self)@ == old(self)@.push(op@),
            final(self).total_bytes == old(self).total_bytes + op@.data.len(),
    {
        proof {
            lemma_tally_push(self@, op@);
            assert(patches(self.writes@.push(op)) =~= patches(self.writes@).push(op@));
        }
        self.total_bytes += op.data.len() as u64;
        self.writes.push(op);
    }

    /// Drops every write and resets the byte count.
    pub fn clear(&mut self)
        ensures
            final(self).wf(),
            final(self)@ == Seq::<Patch>::empty(),
            final(self).total_bytes == 0,
    {
        self.writes.clear();
        self.total_bytes = 0;
        proof {
            assert(self@ =~= Seq::<Patch>::empty());
        }
    }

    /// The number of writes queued.
    pub fn len(&self) -> (n: usize)
        ensures
            n == self@.len(),
    {
        self.writes.len()
    }

    /// Whether no write is queued.
    pub fn is_empty(&self) -> (b: bool)
        ensures
            b == (self@.len() == 0),
    {
        self.writes.len() == 0
    }

    /// Hands out the queue's contents and leaves it empty with a zero count.
    pub fn take(&mut self) -> (taken: WriteQueue)
        ensures
            taken == *old(self),
            final(self).wf(),
            final(self)@ == Seq::<Patch>::empty(),
            final(self).total_bytes == 0,
    {
        let mut taken = WriteQueue::new();
        std::mem::swap(self, &mut taken);
        taken
    }

    /// Moves every write of `other` to the back of this queue, in order.
    pub fn absorb(&mut self, other: WriteQueue)
        requires
            old(self).wf(),
            other.wf(),
            old(self).total_bytes + other.total_bytes <= u64::MAX,
        ensures
            final(self).wf(),
            final(self)@ == old(self)@ + other@,
            final(self).total_bytes == old(self).total_bytes + other.total_bytes,
    {
        let mut other = other;
        proof {
            lemma_tally_concat(self@, other@);
            assert(patches(self.writes@ + other.writes@) =~= patches(self.writes@) + patches(
                other.writes@,
            ));
            assert forall|i: int| 0 <= i < (self.writes@ + other.writes@).len() implies (#[trigger] (
            self.writes@ + other.writes@)[i]).wf() by {
                if i < self.writes@.len() {
                    assert(self.writes@[i].wf());
                } else {
                    assert(other.writes@[i - self.writes@.len()].wf());
                }
            }
        }
        self.total_bytes += other.total_bytes;
        self.writes.append(&mut other.writes);
    }

    /// The payload of the most recent write that covers exactly
    /// `[offset, offset + len)`, scanning newest to oldest.
    pub fn find_exact(&self, offset: u64, len: u64) -> (r: Option<Bytes>)
        ensures
            match r {
                Some(b) => {
                    &&& last_exact(self@, offset as int, len as int) is Some
                    &&& bytes_view(b) == self@[last_exact(
                        self@,
                        offset as int,
                        len as int,
                    ).unwrap()].data
                },
                None => last_exact(self@, offset as int, len as int) is None,
            },
    {
        let mut i: usize = self.writes.len();
        proof {
            assert(self@.take(i as int) =~= self@);
        }
        while i > 0
            invariant
                0 <= i <= self.writes.len(),
                last_exact(self@, offset as int, len as int) == last_exact(
                    self@.take(i as int),
                    offset as int,
                    len as int,
                ),
            decreases i,
        {
            let w = &self.writes[i - 1];
            proof {
                assert(self@.take(i as int).last() == w@);
                assert(self@.take(i as int).drop_last() =~= self@.take(i - 1));
            }
            if w.offset == offset && w.data.len() as u64 == len {
                return Some(w.data.clone());
            }
            i -= 1;
        }
        None
    }

    /// Appends to `out` a handle on every queued write that intersects
    /// `[offset, read_end)`, oldest first.
    pub fn collect_patches(&self, offset: u64, read_end: u64, out: &mut Vec<PendingWrite>)
        requires
            self.wf(),
        ensures
            patches(final(out)@) == patches(old(out)@) + select_overlapping(
                self@,
                offset as int,
                read_end as int,
            ),
            all_wf(old(out)@) ==> all_wf(final(out)@),
    {
        let mut i: usize = 0;
        proof {
            assert(self@.take(0) =~= Seq::<Patch>::empty());
            assert(patches(out@) + Seq::<Patch>::empty() =~= patches(out@));
        }
        while i < self.writes.len()
            invariant
                0 <= i <= self.writes.len(),
                self.wf(),
                patches(out@) == patches(old(out)@) + select_overlapping(
                    self@.take(i as int),
                    offset as int,
                    read_end as int,
                ),
                all_wf(old(out)@) ==> all_wf(out@),
            decreases self.writes.len() - i,
        {
            let p = &self.writes[i];
            proof {
                assert(p.wf());
                assert(self@.take(i + 1).last() == p@);
                assert(self@.take(i + 1).drop_last() =~= self@.take(i as int));
            }
            let p_end: u64 = p.offset + p.data.len() as u64;
            if p.offset < read_end && p_end > offset {
                let handle = p.clone();
                proof {
                    assert(patches(out@.push(handle)) =~= patches(out@).push(handle@));
                    assert((patches(old(out)@) + select_overlapping(
                        self@.take(i as int),
                        offset as int,
                        read_end as int,
                    )).push(p@) =~= patches(old(out)@) + select_overlapping(
                        self@.take(i as int),
                        offset as int,
                        read_end as int,
                    ).push(p@));
                    if all_wf(old(out)@) {
                        assert forall|j: int| 0 <= j < out@.push(handle).len() implies (
                        #[trigger] out@.push(handle)[j]).wf() by {
                            if j < out@.len() {
                                assert(out@[j].wf());
                            }
                        }
                    }
                }
                out.push(handle);
            }
            i += 1;
        }
        proof {
            assert(self@.take(self.writes@.len() as int) =~= self@);
        }
    }
}

} // verus!
