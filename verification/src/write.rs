//! Writes that the buffer has accepted and not yet issued.

use vstd::prelude::*;
use bytes::Bytes;
use crate::buf::bytes_view;
use crate::ctx::{flush_result, keeps_write_order, write_outcome, IoContext};
use crate::error::Error;
use crate::model::Patch;
use crate::order::overlaps_in_offset_order;
use crate::target::{written, IoTarget};

verus! {

/// A write waiting in a queue: where it goes and what it carries.
pub struct PendingWrite {
    pub offset: u64,
    pub data: Bytes,
}

impl View for PendingWrite {
    type V = Patch;

    open spec fn view(&self) -> Patch {
        Patch { offset: self.offset as int, data: bytes_view(self.data) }
    }
}

impl Clone for PendingWrite {
    /// A second handle on the same payload; no byte is copied.
    fn clone(&self) -> (r: Self)
        ensures
            r@ == self@,
            r.offset == self.offset,
    {
        PendingWrite { offset: self.offset, data: self.data.clone() }
    }
}

impl PendingWrite {
    /// A write is well formed when its range ends within the `u64` offsets.
    pub open spec fn wf(&self) -> bool {
        self@.end() <= u64::MAX
    }

    /// A write of `data` at `offset`.
    pub fn new(offset: u64, data: Bytes) -> (r: Self)
        ensures
            r.offset == offset,
            r@ == (Patch { offset: offset as int, data: bytes_view(data) }),
    {
        PendingWrite { offset, data }
    }

    /// Where the write begins.
    pub fn offset(&self) -> (r: u64)
        ensures
            r == self.offset,
    {
        self.offset
    }

    /// The bytes the write carries.
    pub fn data(&self) -> (r: &Bytes)
        ensures
            bytes_view(*r) == self@.data,
    {
        &self.data
    }
}

/// The patches that a vector of writes stands for, in the same order.
pub open spec fn patches(ws: Seq<PendingWrite>) -> Seq<Patch> {
    ws.map_values(|w: PendingWrite| w@)
}

/// Whether every write of `ws` is well formed.
pub open spec fn all_wf(ws: Seq<PendingWrite>) -> bool {
    forall|i: int| 0 <= i < ws.len() ==> (#[trigger] ws[i]).wf()
}

/// A handle for writing to one context. It borrows the context for as long
/// as it lives and hands every call on to it.
pub struct BufferWriter<'a, T: IoTarget> {
    pub context: &'a mut IoContext<T>,
}

impl<'a, T: IoTarget> BufferWriter<'a, T> {
    /// A writer on `context`.
    pub fn new(context: &'a mut IoContext<T>) -> (r: Self)
        ensures
            *r.context == *old(context),
            *final(r.context) == *final(context),
    {
        BufferWriter { context }
    }

    /// Accepts a write of `data` at `offset`, at time `now`, as
    /// [`IoContext::write_at`] does.
    pub fn write_at(&mut self, offset: u64, data: Bytes, now: u64) -> (r: Result<(), Error>)
        requires
            old(self).context.wf(),
            offset + bytes_view(data).len() <= u64::MAX,
            old(self).context.flushing_queue.total_bytes + old(self).context.write_queue.total_bytes
                + bytes_view(data).len() <= isize::MAX,
        ensures
            final(self).context.wf(),
            final(self).context.same_config(old(self).context),
            write_outcome(
                *old(self).context,
                *final(self).context,
                Patch { offset: offset as int, data: bytes_view(data) },
                r,
                now,
            ),
            r is Ok && keeps_write_order(
                *old(self).context,
                Patch { offset: offset as int, data: bytes_view(data) },
            ) ==> forall|pos: int| #[trigger]
                final(self).context.content_at(pos) == written(
                    Patch { offset: offset as int, data: bytes_view(data) },
                    old(self).context.content_at(pos),
                    pos,
                ),
            final(self).context.metrics.last_in == now,
            *final(final(self).context) == *final(old(self).context),
    {
        self.context.write_at(offset, data, now)
    }

    /// Drains the context's queues to its target, as [`IoContext::flush`]
    /// does.
    pub fn flush(&mut self, now: u64) -> (r: Result<(), Error>)
        requires
            old(self).context.wf(),
        ensures
            final(self).context.wf(),
            flush_result(*old(self).context, *final(self).context, r, now),
            r is Err ==> forall|pos: int| #[trigger]
                final(self).context.content_at(pos) == old(self).context.content_at(pos),
            r is Ok && overlaps_in_offset_order(old(self).context.queued()) ==> forall|pos: int| #[trigger]
                final(self).context.content_at(pos) == old(self).context.content_at(pos),
            *final(final(self).context) == *final(old(self).context),
    {
        self.context.flush(now)
    }

    /// Flushes what is queued before the writer is given up; the same as
    /// [`BufferWriter::flush`].
    pub fn shutdown(&mut self, now: u64) -> (r: Result<(), Error>)
        requires
            old(self).context.wf(),
        ensures
            final(self).context.wf(),
            flush_result(*old(self).context, *final(self).context, r, now),
            r is Err ==> forall|pos: int| #[trigger]
                final(self).context.content_at(pos) == old(self).context.content_at(pos),
            r is Ok && overlaps_in_offset_order(old(self).context.queued()) ==> forall|pos: int| #[trigger]
                final(self).context.content_at(pos) == old(self).context.content_at(pos),
            *final(final(self).context) == *final(old(self).context),
    {
        self.context.flush(now)
    }
}

} // verus!
