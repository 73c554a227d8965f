//! The state kept for one target, and the three protocols that run on it:
//! writing, flushing and reading.

use vstd::prelude::*;
use bytes::Bytes;
use std::time::Duration;
use crate::buf::bytes_view;
use crate::coalesce::{coalesced, lemma_coalesced_bytes, lemma_coalesced_covered};
use crate::error::Error;
use crate::latency::Stopwatch;
use crate::metrics::{ema_spec, IoMetrics};
use crate::model::{
    byte_after, covered, exact_is_current, last_exact, lemma_covered_byte, tally,
    lemma_last_exact_concat, lemma_last_exact_is_last, lemma_uncovered_byte, merged, Patch,
};
use crate::order::{
    lemma_stable_sort_bytes, lemma_stable_sort_covered, overlaps_in_offset_order, ranges_meet,
    stable_sort,
};
use crate::overlay::lemma_exact_match_is_overlay;
use crate::protocol::{enqueue, find_queued, merge_read, plan_flush, queued_hit};
use crate::policy::{should_buffer, should_buffer_spec, DEFAULT_THRESHOLD_NS, FLUSH_TRIGGER};
use crate::queue::WriteQueue;
use crate::read::PendingRead;
use crate::target::{stored, written, IoTarget};
use crate::write::{all_wf, patches};

verus! {

/// Everything the layer keeps for one registered target.
///
/// `write_queue` holds the writes accepted since the last flush began;
/// `flushing_queue` holds the writes a flush is issuing, or failed to issue.
/// A reader sees the target's bytes with `flushing_queue` and then
/// `write_queue` laid over them.
pub struct IoContext<T: IoTarget> {
    pub target: T,
    pub metrics: IoMetrics,
    pub write_queue: WriteQueue,
    pub read_queue: Vec<PendingRead>,
    pub flushing_queue: WriteQueue,
    pub write_timeout: Duration,
    pub read_timeout: Duration,
    pub threshold_ns: u64,
}

/// The state a flush of the writes `all` leaves, on a target that was
/// `before` and with counters that were `metrics`.
///
/// The writes are sorted by offset, merged into runs and issued run by run.
/// When every run was accepted both queues are empty and the flush time is
/// stamped. When one was refused, the runs before it were accepted, the
/// flushing queue still holds all of `all`, and no byte that `all` does not
/// cover has changed.
pub open spec fn flush_outcome<T: IoTarget>(
    all: Seq<Patch>,
    before: T,
    metrics: IoMetrics,
    post: IoContext<T>,
    r: Result<(), Error>,
    now: u64,
) -> bool {
    let runs = coalesced(stable_sort(all));
    &&& post.write_queue@ == Seq::<Patch>::empty()
    &&& post.write_queue.total_bytes == 0
    &&& (forall|i: int| 0 <= i < runs.len() ==> before.takes(#[trigger] runs[i])) ==> r is Ok
    &&& post.flushing_queue.total_bytes == tally(post.flushing_queue@)
    &&& match r {
        Ok(_) => {
            &&& post.flushing_queue@ == Seq::<Patch>::empty()
            &&& post.metrics == (IoMetrics { last_out: now, ..metrics })
            &&& post.target.accepted() == before.accepted() + runs
            &&& forall|pos: int| #[trigger]
                post.target.byte_at(pos) == byte_after(stable_sort(all), before.byte_at(pos), pos)
        },
        Err(_) => {
            &&& post.flushing_queue@ == all
            &&& post.metrics == metrics
            &&& exists|k: int|
                0 <= k < runs.len() && post.target.accepted() == before.accepted() + #[trigger] runs.take(k)
            &&& forall|pos: int|
                !covered(all, pos) ==> #[trigger] post.target.byte_at(pos) == before.byte_at(pos)
        },
    }
}

/// The state that a flush at time `now` leaves: with an empty write queue,
/// the state it found, whatever the flushing queue holds; otherwise what
/// [`flush_outcome`] says of the writes of both queues. Settings are never
/// touched.
pub open spec fn flush_result<T: IoTarget>(
    pre: IoContext<T>,
    post: IoContext<T>,
    r: Result<(), Error>,
    now: u64,
) -> bool {
    &&& post.same_config(&pre)
    &&& if pre.write_queue@.len() == 0 {
        &&& r is Ok
        &&& post.target == pre.target
        &&& post.metrics == pre.metrics
        &&& post.write_queue == pre.write_queue
        &&& post.flushing_queue == pre.flushing_queue
    } else {
        flush_outcome(pre.queued(), pre.target, pre.metrics, post, r, now)
    }
}

/// The state a direct write of `w` leaves on the target that was `before`:
/// accepted, it is the latest write and its bytes are in place; refused, no
/// byte outside its range has changed. It is accepted where the target is
/// sure to take it.
pub open spec fn direct_outcome<T: IoTarget>(w: Patch, before: T, after: T, r: Result<(), Error>) -> bool {
    &&& before.takes(w) ==> r is Ok
    &&& match r {
        Ok(_) => {
            &&& after.accepted() == before.accepted().push(w)
            &&& forall|pos: int| #[trigger] after.byte_at(pos) == written(w, before.byte_at(pos), pos)
        },
        Err(_) => {
            &&& after.accepted() == before.accepted()
            &&& forall|pos: int| !w.covers(pos) ==> #[trigger] after.byte_at(pos) == before.byte_at(pos)
        },
    }
}

/// The state that writing `w` at time `now` leaves.
///
/// The entry time is stamped first. A write that the routing rule sends to
/// the buffer is appended to the write queue; if the queue then holds more
/// than the flush trigger, everything queued is flushed and the flush decides
/// the result. Any other write goes straight to the target, its duration is
/// folded into the average write latency, and the queues stay as they were.
pub open spec fn write_outcome<T: IoTarget>(
    pre: IoContext<T>,
    post: IoContext<T>,
    w: Patch,
    r: Result<(), Error>,
    now: u64,
) -> bool {
    let stamped = IoMetrics { last_in: now, ..pre.metrics };
    if should_buffer_spec(pre.metrics.avg_write_latency, pre.threshold_ns, w.data.len()) {
        if pre.write_queue.total_bytes + w.data.len() <= FLUSH_TRIGGER {
            &&& r is Ok
            &&& post.write_queue@ == pre.write_queue@.push(w)
            &&& post.write_queue.total_bytes == pre.write_queue.total_bytes + w.data.len()
            &&& post.flushing_queue == pre.flushing_queue
            &&& post.target == pre.target
            &&& post.metrics == stamped
        } else {
            flush_outcome(pre.queued().push(w), pre.target, stamped, post, r, now)
        }
    } else {
        &&& post.write_queue == pre.write_queue
        &&& post.flushing_queue == pre.flushing_queue
        &&& exists|sample: u64|
            post.metrics == (IoMetrics {
                avg_write_latency: #[trigger] ema_spec(pre.metrics.avg_write_latency, sample),
                ..stamped
            })
        &&& direct_outcome(w, pre.target, post.target, r)
    }
}

/// Whether writing `w` to `pre` keeps the order of writes visible: the write
/// is queued and stays queued; or it is queued and flushed with writes whose
/// overlaps arrived in offset order; or it goes to the target directly while
/// no queued write meets its range.
pub open spec fn keeps_write_order<T: IoTarget>(pre: IoContext<T>, w: Patch) -> bool {
    if should_buffer_spec(pre.metrics.avg_write_latency, pre.threshold_ns, w.data.len()) {
        pre.write_queue.total_bytes + w.data.len() <= FLUSH_TRIGGER || overlaps_in_offset_order(
            pre.queued().push(w),
        )
    } else {
        forall|i: int| 0 <= i < pre.queued().len() ==> !ranges_meet(#[trigger] pre.queued()[i], w)
    }
}

/// Read-your-writes, one write at a time: after a write that was accepted
/// and that keeps the order of writes visible, what a reader is owed at any
/// position is what it was owed before with the write laid over it. Applied
/// write after write, a reader is owed the overlay of all of them, in the
/// order they were made, on what the target held at first.
pub proof fn lemma_write_is_visible<T: IoTarget>(
    pre: IoContext<T>,
    post: IoContext<T>,
    w: Patch,
    r: Result<(), Error>,
    now: u64,
    pos: int,
)
    requires
        write_outcome(pre, post, w, r, now),
        r is Ok,
        keeps_write_order(pre, w),
    ensures
        post.content_at(pos) == written(w, pre.content_at(pos), pos),
{
    let all = pre.queued();
    if should_buffer_spec(pre.metrics.avg_write_latency, pre.threshold_ns, w.data.len()) {
        let pushed = all.push(w);
        assert(pushed.drop_last() =~= all);
        if pre.write_queue.total_bytes + w.data.len() <= FLUSH_TRIGGER {
            assert(post.queued() =~= pushed);
        } else {
            assert(post.queued() =~= Seq::<Patch>::empty());
            lemma_stable_sort_bytes(pushed, pre.target.byte_at(pos), pos);
            assert(post.target.byte_at(pos) == byte_after(
                stable_sort(pushed),
                pre.target.byte_at(pos),
                pos,
            ));
        }
    } else {
        assert(post.queued() == all);
        assert(post.target.byte_at(pos) == written(w, pre.target.byte_at(pos), pos));
        if w.covers(pos) {
            assert(!covered(all, pos)) by {
                if covered(all, pos) {
                    let i = choose|i: int| 0 <= i < all.len() && (#[trigger] all[i]).covers(pos);
                    assert(ranges_meet(all[i], w));
                }
            }
            lemma_uncovered_byte(all, post.target.byte_at(pos), pos);
        }
    }
}

/// The time stamps never go back while the clock does not: after a write at
/// a time no earlier than both stamps, neither stamp is earlier than it was.
pub proof fn lemma_write_keeps_stamps_monotone<T: IoTarget>(
    pre: IoContext<T>,
    post: IoContext<T>,
    w: Patch,
    r: Result<(), Error>,
    now: u64,
)
    requires
        write_outcome(pre, post, w, r, now),
        pre.metrics.last_in <= now,
        pre.metrics.last_out <= now,
    ensures
        post.metrics.last_in >= pre.metrics.last_in,
        post.metrics.last_out >= pre.metrics.last_out,
{
    if !should_buffer_spec(pre.metrics.avg_write_latency, pre.threshold_ns, w.data.len()) {
        let stamped = IoMetrics { last_in: now, ..pre.metrics };
        let sample = choose|sample: u64|
            post.metrics == (IoMetrics {
                avg_write_latency: #[trigger] ema_spec(pre.metrics.avg_write_latency, sample),
                ..stamped
            });
    }
}

/// The time stamps never go back while the clock does not: after a flush at
/// a time no earlier than the last flush, neither stamp is earlier than it
/// was.
pub proof fn lemma_flush_keeps_stamps_monotone<T: IoTarget>(
    pre: IoContext<T>,
    post: IoContext<T>,
    r: Result<(), Error>,
    now: u64,
)
    requires
        flush_result(pre, post, r, now),
        pre.metrics.last_out <= now,
    ensures
        post.metrics.last_in == pre.metrics.last_in,
        post.metrics.last_out >= pre.metrics.last_out,
{
}

impl<T: IoTarget> IoContext<T> {
    /// The context invariant: the target and both queues are well formed, and
    /// the bytes queued in both together fit one buffer.
    pub open spec fn wf(&self) -> bool {
        &&& self.target.wf()
        &&& self.write_queue.wf()
        &&& self.flushing_queue.wf()
        &&& self.flushing_queue.total_bytes + self.write_queue.total_bytes <= isize::MAX
    }

    /// Every write not yet known to be on the target, oldest first.
    pub open spec fn queued(&self) -> Seq<Patch> {
        self.flushing_queue@ + self.write_queue@
    }

    /// The byte a reader is owed at `pos`: the target's byte with every
    /// queued write laid over it.
    pub open spec fn content_at(&self, pos: int) -> u8 {
        byte_after(self.queued(), self.target.byte_at(pos), pos)
    }

    /// The bytes a reader is owed for `[offset, offset + len)`.
    pub open spec fn content(&self, offset: int, len: nat) -> Seq<u8> {
        Seq::new(len, |i: int| self.content_at(offset + i))
    }

    /// Whether `other` has the same settings and the same read queue.
    pub open spec fn same_config(&self, other: &Self) -> bool {
        &&& self.write_timeout == other.write_timeout
        &&& self.read_timeout == other.read_timeout
        &&& self.threshold_ns == other.threshold_ns
        &&& self.read_queue == other.read_queue
    }

    /// What a read of `[offset, offset + len)` is answered with before the
    /// target is asked: the payload of the latest write to exactly that
    /// range, looked for in the write queue first and the flushing queue
    /// second.
    pub open spec fn exact_hit(&self, offset: int, len: int) -> Option<Seq<u8>> {
        queued_hit(self.write_queue@, self.flushing_queue@, offset, len)
    }

    /// Whether the context is as [`IoContext::new`] makes it for `target`:
    /// queues empty, counters at zero, the default latency threshold.
    pub open spec fn is_fresh(&self, target: T, write_timeout: Duration, read_timeout: Duration) -> bool {
        &&& self.target == target
        &&& self.write_queue@ == Seq::<Patch>::empty()
        &&& self.write_queue.total_bytes == 0
        &&& self.flushing_queue@ == Seq::<Patch>::empty()
        &&& self.flushing_queue.total_bytes == 0
        &&& self.read_queue@.len() == 0
        &&& self.threshold_ns == DEFAULT_THRESHOLD_NS
        &&& self.write_timeout == write_timeout
        &&& self.read_timeout == read_timeout
        &&& self.metrics.avg_write_latency == 0
        &&& self.metrics.avg_read_latency == 0
        &&& self.metrics.total_ops == 0
        &&& self.metrics.last_in == 0
        &&& self.metrics.last_out == 0
    }

    /// A context for `target` with empty queues, zeroed counters and the
    /// default latency threshold.
    pub fn new(target: T, write_timeout: Duration, read_timeout: Duration) -> (r: Self)
        requires
            target.wf(),
        ensures
            r.wf(),
            r.is_fresh(target, write_timeout, read_timeout),
            forall|pos: int| #[trigger] r.content_at(pos) == target.byte_at(pos),
    {
        let r = IoContext {
            target,
            metrics: IoMetrics::new(),
            write_queue: WriteQueue::new(),
            read_queue: Vec::new(),
            flushing_queue: WriteQueue::new(),
            write_timeout,
            read_timeout,
            threshold_ns: DEFAULT_THRESHOLD_NS,
        };
        proof {
            assert(r.queued() =~= Seq::<Patch>::empty());
        }
        r
    }

    /// Drains the queues to the target.
    ///
    /// With an empty write queue this does nothing and succeeds. Otherwise
    /// the write queue is emptied into the flushing queue, behind whatever an
    /// earlier failed flush left there; the flushing queue's writes are
    /// sorted by offset, adjacent ones are merged, and each merged run is
    /// issued as one write. The first refusal ends the flush and is
    /// returned. The flush succeeds where the target is sure to take every
    /// run.
    pub fn flush(&mut self, now: u64) -> (r: Result<(), Error>)
        requires
            old(self).wf(),
        ensures
            final(self).wf(),
            flush_result(*old(self), *final(self), r, now),
            r is Err ==> forall|pos: int| #[trigger]
                final(self).content_at(pos) == old(self).content_at(pos),
            r is Ok && overlaps_in_offset_order(old(self).queued()) ==> forall|pos: int| #[trigger]
                final(self).content_at(pos) == old(self).content_at(pos),
            r is Ok && (old(self).write_queue@.len() > 0 || old(self).flushing_queue@.len() == 0)
                ==> forall|pos: int| #[trigger]
                final(self).content_at(pos) == final(self).target.byte_at(pos),
            final(self).metrics.last_in == old(self).metrics.last_in,
            old(self).metrics.last_out <= now ==> final(self).metrics.last_out >= old(
                self).metrics.last_out,
    {
        if self.write_queue.is_empty() {
            proof {
                if self.flushing_queue@.len() == 0 {
                    assert(self.queued() =~= Seq::<Patch>::empty());
                    assert forall|pos: int| #[trigger]
                        self.content_at(pos) == self.target.byte_at(pos) by {}
                }
            }
            return Ok(());
        }
        let ghost all = self.queued();
        let ghost before = self.target;
        let runs = plan_flush(&mut self.write_queue, &mut self.flushing_queue);
        let ghost plan = coalesced(stable_sort(all));
        let mut k: usize = 0;
        proof {
            assert(plan.take(0) =~= Seq::<Patch>::empty());
            assert(before.accepted() + plan.take(0) =~= before.accepted());
        }
        while k < runs.len()
            invariant
                0 <= k <= runs.len(),
                self.target.wf(),
                self.flushing_queue.wf(),
                self.write_queue.wf(),
                self.write_queue@ == Seq::<Patch>::empty(),
                self.write_queue.total_bytes == 0,
                self.flushing_queue.total_bytes <= isize::MAX,
                self.flushing_queue@ == all,
                self.metrics == old(self).metrics,
                self.same_config(old(self)),
                all == old(self).queued(),
                old(self).write_queue@.len() > 0,
                before == old(self).target,
                all_wf(runs@),
                patches(runs@) == plan,
                plan == coalesced(stable_sort(all)),
                self.target.accepted() == before.accepted() + plan.take(k as int),
                forall|v: Patch| before.takes(v) ==> #[trigger] self.target.takes(v),
                forall|pos: int| #[trigger]
                    self.target.byte_at(pos) == byte_after(
                        plan.take(k as int),
                        before.byte_at(pos),
                        pos,
                    ),
            decreases runs.len() - k,
        {
            let run = &runs[k];
            let ghost w = run@;
            let ghost mid = self.target;
            proof {
                assert(run.wf());
                assert(plan[k as int] == w);
                assert(plan.take(k + 1).drop_last() =~= plan.take(k as int));
                assert(plan.take(k + 1).last() == w);
            }
            match self.target.write_at(run.data.clone(), run.offset) {
                Ok(_) => {
                    proof {
                        assert(before.accepted() + plan.take(k + 1) =~= (before.accepted()
                            + plan.take(k as int)).push(w));
                        assert forall|pos: int| #[trigger]
                            self.target.byte_at(pos) == byte_after(
                                plan.take(k + 1),
                                before.byte_at(pos),
                                pos,
                            ) by {
                            assert(self.target.byte_at(pos) == written(w, mid.byte_at(pos), pos));
                        }
                    }
                },
                Err(e) => {
                    proof {
                        assert(!mid.takes(w));
                        assert(!before.takes(plan[k as int]));
                        assert forall|pos: int| !covered(all, pos) implies #[trigger]
                            self.target.byte_at(pos) == before.byte_at(pos) by {
                            Self::lemma_plan_covers_less(all, pos, k as int);
                            assert(!w.covers(pos));
                            assert(self.target.byte_at(pos) == mid.byte_at(pos));
                            lemma_uncovered_byte(plan.take(k as int), before.byte_at(pos), pos);
                        }
                        assert(self.queued() =~= all);
                        assert forall|pos: int| #[trigger]
                            self.content_at(pos) == old(self).content_at(pos) by {
                            if covered(all, pos) {
                                lemma_covered_byte(
                                    all,
                                    self.target.byte_at(pos),
                                    before.byte_at(pos),
                                    pos,
                                );
                            }
                        }
                    }
                    return Err(e);
                },
            }
            k += 1;
        }
        self.flushing_queue.clear();
        self.metrics.last_out = now;
        proof {
            assert(plan.take(runs.len() as int) =~= plan);
            assert(self.queued() =~= Seq::<Patch>::empty());
            assert forall|pos: int| #[trigger]
                self.target.byte_at(pos) == byte_after(
                    stable_sort(all),
                    before.byte_at(pos),
                    pos,
                ) by {
                lemma_coalesced_bytes(stable_sort(all), before.byte_at(pos), pos);
            }
            assert forall|pos: int| #[trigger]
                self.content_at(pos) == self.target.byte_at(pos) by {}
            if overlaps_in_offset_order(all) {
                assert forall|pos: int| #[trigger]
                    self.content_at(pos) == old(self).content_at(pos) by {
                    lemma_stable_sort_bytes(all, before.byte_at(pos), pos);
                    assert(self.content_at(pos) == self.target.byte_at(pos));
                }
            }
        }
        Ok(())
    }

    /// Accepts a write of `data` at `offset`, at time `now`.
    ///
    /// Small writes, and all writes while the target's average write latency
    /// is above the threshold, are queued; a queue grown past the flush
    /// trigger is flushed at once. Other writes are issued to the target
    /// directly.
    pub fn write_at(&mut self, offset: u64, data: Bytes, now: u64) -> (r: Result<(), Error>)
        requires
            old(self).wf(),
            offset + bytes_view(data).len() <= u64::MAX,
            old(self).flushing_queue.total_bytes + old(self).write_queue.total_bytes + bytes_view(
                data,
            ).len() <= isize::MAX,
        ensures
            final(self).wf(),
            final(self).same_config(old(self)),
            write_outcome(
                *old(self),
                *final(self),
                Patch { offset: offset as int, data: bytes_view(data) },
                r,
                now,
            ),
            r is Ok && keeps_write_order(
                *old(self),
                Patch { offset: offset as int, data: bytes_view(data) },
            ) ==> forall|pos: int| #[trigger]
                final(self).content_at(pos) == written(
                    Patch { offset: offset as int, data: bytes_view(data) },
                    old(self).content_at(pos),
                    pos,
                ),
            final(self).metrics.last_in == now,
            old(self).metrics.last_in <= now ==> final(self).metrics.last_in >= old(
                self).metrics.last_in,
            old(self).metrics.last_out <= now ==> final(self).metrics.last_out >= old(
                self).metrics.last_out,
    {
        let ghost w = Patch { offset: offset as int, data: bytes_view(data) };
        let ghost pre = *self;
        let len: usize = data.len();
        let avg: u64 = self.metrics.avg_write_latency;
        self.metrics.last_in = now;
        let r = if should_buffer(avg, self.threshold_ns, len) {
            let flush_due = enqueue(&mut self.write_queue, offset, data);
            proof {
                assert(self.queued() =~= pre.queued().push(w));
            }
            if flush_due {
                self.flush(now)
            } else {
                Ok(())
            }
        } else {
            let watch = Stopwatch::start();
            let r = self.target.write_at(data, offset);
            let sample: u64 = watch.elapsed_micros();
            self.metrics.record_write_latency(sample);
            r
        };
        proof {
            if r is Ok && keeps_write_order(pre, w) {
                assert forall|pos: int| #[trigger]
                    self.content_at(pos) == written(w, pre.content_at(pos), pos) by {
                    lemma_write_is_visible(pre, *self, w, r, now, pos);
                }
            }
        }
        r
    }

    /// Reads `len` bytes at `offset`, with every queued write in view.
    ///
    /// A queued write to exactly this range answers the read at once: the
    /// latest such write in the write queue, or else the latest in the
    /// flushing queue. Otherwise the target is read, the read's duration is
    /// folded into the average read latency, and the queued writes that
    /// intersect the range are laid over the bytes read, flushing queue first.
    pub fn read_at(&mut self, offset: u64, len: u64) -> (r: Result<Bytes, Error>)
        requires
            old(self).wf(),
            offset + len <= u64::MAX,
            len <= usize::MAX,
        ensures
            final(self).wf(),
            final(self).same_config(old(self)),
            final(self).target == old(self).target,
            final(self).write_queue == old(self).write_queue,
            final(self).flushing_queue == old(self).flushing_queue,
            final(self).metrics.last_in == old(self).metrics.last_in,
            final(self).metrics.last_out == old(self).metrics.last_out,
            old(self).target.reads(offset as int, len as nat) ==> r is Ok,
            match old(self).exact_hit(offset as int, len as int) {
                Some(data) => {
                    &&& r matches Ok(b) && bytes_view(b) == data
                    &&& final(self).metrics == old(self).metrics
                },
                None => {
                    &&& exists|sample: u64|
                        final(self).metrics == (IoMetrics {
                            avg_read_latency: #[trigger] ema_spec(
                                old(self).metrics.avg_read_latency,
                                sample,
                            ),
                            ..old(self).metrics
                        })
                    &&& r matches Ok(b) ==> bytes_view(b) == old(self).content(
                        offset as int,
                        len as nat,
                    )
                },
            },
            exact_is_current(old(self).queued(), offset as int, len as int) ==> (r matches Ok(b)
                ==> bytes_view(b) == old(self).content(offset as int, len as nat)),
    {
        let ghost all = self.queued();
        let ghost image = stored(&self.target, offset as int, len as nat);
        proof {
            lemma_last_exact_concat(self.flushing_queue@, self.write_queue@, offset as int, len as int);
            lemma_last_exact_is_last(self.flushing_queue@, offset as int, len as int);
            lemma_last_exact_is_last(self.write_queue@, offset as int, len as int);
            assert(merged(image, offset as int, all) =~= self.content(offset as int, len as nat));
            if exact_is_current(all, offset as int, len as int) && last_exact(
                all,
                offset as int,
                len as int,
            ) is Some {
                lemma_exact_match_is_overlay(all, image, offset as int);
                match last_exact(self.write_queue@, offset as int, len as int) {
                    Some(k) => {
                        assert(all[self.flushing_queue@.len() + k] == self.write_queue@[k]);
                    },
                    None => {
                        let k = last_exact(self.flushing_queue@, offset as int, len as int).unwrap();
                        assert(all[k] == self.flushing_queue@[k]);
                    },
                }
            }
        }
        match find_queued(&self.write_queue, &self.flushing_queue, offset, len) {
            Some(data) => {
                return Ok(data);
            },
            None => {},
        }
        let watch = Stopwatch::start();
        let fetched = self.target.read_at(offset, len as usize);
        let sample: u64 = watch.elapsed_micros();
        self.metrics.record_read_latency(sample);
        let disk = match fetched {
            Ok(disk) => disk,
            Err(e) => {
                return Err(e);
            },
        };
        let out = merge_read(&self.flushing_queue, &self.write_queue, &disk, offset);
        proof {
            assert(bytes_view(disk) =~= image);
        }
        Ok(out)
    }

    /// A position that no queued write covers is covered by none of the
    /// runs planned for them.
    proof fn lemma_plan_covers_less(all: Seq<Patch>, pos: int, k: int)
        requires
            !covered(all, pos),
            0 <= k < coalesced(stable_sort(all)).len(),
        ensures
            !coalesced(stable_sort(all))[k].covers(pos),
            !covered(coalesced(stable_sort(all)).take(k), pos),
    {
        let plan = coalesced(stable_sort(all));
        if plan[k].covers(pos) {
            assert(covered(plan, pos));
            lemma_coalesced_covered(stable_sort(all), pos);
            lemma_stable_sort_covered(all, pos);
        }
        if covered(plan.take(k), pos) {
            let i = choose|i: int| 0 <= i < plan.take(k).len() && (#[trigger] plan.take(k)[i]).covers(pos);
            assert(plan[i].covers(pos));
            assert(covered(plan, pos));
            lemma_coalesced_covered(stable_sort(all), pos);
            lemma_stable_sort_covered(all, pos);
        }
    }
}

} // verus!
