//! Reads that a context has been asked for.

use vstd::prelude::*;
use bytes::Bytes;
use crate::buf::bytes_view;
use crate::ctx::IoContext;
use crate::error::Error;
use crate::metrics::{ema_spec, IoMetrics};
use crate::model::exact_is_current;
use crate::target::IoTarget;

verus! {

/// A read waiting to be served: the range `[offset, offset + len)`.
pub struct PendingRead {
    pub offset: u64,
    pub len: u64,
}

impl PendingRead {
    /// A read of `len` bytes at `offset`.
    pub fn new(offset: u64, len: u64) -> (r: Self)
        ensures
            r.offset == offset,
            r.len == len,
    {
        PendingRead { offset, len }
    }
}

/// A handle for reading from one context. It borrows the context for as
/// long as it lives and hands every call on to it.
pub struct BufferReader<'a, T: IoTarget> {
    pub context: &'a mut IoContext<T>,
}

impl<'a, T: IoTarget> BufferReader<'a, T> {
    /// A reader on `context`.
    pub fn new(context: &'a mut IoContext<T>) -> (r: Self)
        ensures
            *r.context == *old(context),
            *final(r.context) == *final(context),
    {
        BufferReader { context }
    }

    /// Reads `len` bytes at `offset` with every queued write in view, as
    /// [`IoContext::read_at`] does.
    pub fn read_at(&mut self, offset: u64, len: u64) -> (r: Result<Bytes, Error>)
        requires
            old(self).context.wf(),
            offset + len <= u64::MAX,
            len <= usize::MAX,
        ensures
            final(self).context.wf(),
            final(self).context.same_config(old(self).context),
            final(self).context.target == old(self).context.target,
            final(self).context.write_queue == old(self).context.write_queue,
            final(self).context.flushing_queue == old(self).context.flushing_queue,
            final(self).context.metrics.last_in == old(self).context.metrics.last_in,
            final(self).context.metrics.last_out == old(self).context.metrics.last_out,
            old(self).context.target.reads(offset as int, len as nat) ==> r is Ok,
            match old(self).context.exact_hit(offset as int, len as int) {
                Some(data) => {
                    &&& r matches Ok(b) && bytes_view(b) == data
                    &&& final(self).context.metrics == old(self).context.metrics
                },
                None => {
                    &&& exists|sample: u64|
                        final(self).context.metrics == (IoMetrics {
                            avg_read_latency: #[trigger] ema_spec(
                                old(self).context.metrics.avg_read_latency,
                                sample,
                            ),
                            ..old(self).context.metrics
                        })
                    &&& r matches Ok(b) ==> bytes_view(b) == old(self).context.content(
                        offset as int,
                        len as nat,
                    )
                },
            },
            exact_is_current(old(self).context.queued(), offset as int, len as int) ==> (r matches Ok(
                b,
            ) ==> bytes_view(b) == old(self).context.content(offset as int, len as nat)),
            *final(final(self).context) == *final(old(self).context),
    {
        self.context.read_at(offset, len)
    }
}

} // verus!
