//! Buffered positional I/O over random-access byte targets.
//!
//! Small, clustered writes are queued per target and later issued as a few
//! large contiguous writes; reads overlay the queued bytes on what the target
//! returns, so a reader always observes its own writes.
//!
//! The library is sequential: a context is driven through `&mut`, and time is
//! an argument. Every function is verified against a contract over the model
//! in [`model`]. The main pieces are
//!
//! - [`ctx::IoContext`], the state of one target with its write, flush and
//!   read protocols;
//! - [`queue::WriteQueue`], [`order`], [`coalesce`] and [`overlay`], the
//!   queue and the three computations the protocols are made of, and
//!   [`protocol`], the steps of the protocols on the queues alone;
//! - [`target::IoTarget`], the capability a context consumes, with
//!   [`positional::PositionalFile`] to adapt a file handle to it;
//! - [`registry::Registry`], the contexts by identifier, with the janitor's
//!   pass over them;
//! - [`fs`], filters, names and totals for a directory walk.

pub mod buf;
pub mod coalesce;
pub mod ctx;
pub mod error;
pub mod fs;
pub mod latency;
pub mod metrics;
pub mod model;
pub mod order;
pub mod overlay;
pub mod policy;
pub mod positional;
pub mod protocol;
pub mod queue;
pub mod read;
pub mod registry;
pub mod target;
pub mod time;
pub mod write;

pub use crate::ctx::IoContext;
pub use crate::error::{Error, FileSystemError};
pub use crate::metrics::IoMetrics;
pub use crate::queue::WriteQueue;
pub use crate::read::{BufferReader, PendingRead};
pub use crate::registry::Registry;
pub use crate::target::{IoTarget, MemoryTarget};
pub use crate::time::TimeCache;
pub use crate::write::{BufferWriter, PendingWrite};
