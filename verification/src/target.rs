//! The capability the layer consumes: positional reads and writes on some
//! backing store.

use vstd::prelude::*;
use bytes::Bytes;
use crate::buf::bytes_view;
use crate::error::Error;
use crate::model::Patch;

verus! {

/// The bytes a store holds at `offset .. offset + len`.
pub open spec fn stored<T: IoTarget>(target: &T, offset: int, len: nat) -> Seq<u8> {
    Seq::new(len, |i: int| target.byte_at(offset + i))
}

/// A byte of a store after `w` was written to it: the patch's byte where the
/// patch covers `pos`, the byte `before` elsewhere.
pub open spec fn written(w: Patch, before: u8, pos: int) -> u8 {
    if w.covers(pos) {
        w.byte(pos)
    } else {
        before
    }
}

/// A store of bytes addressed by position.
///
/// A store is modelled by the byte it holds at every position and by the
/// list of writes it has accepted. An implementation promises that a
/// successful read returns exactly the bytes held, that a successful write
/// changes the bytes of its range and no others, and that a failed write
/// disturbs nothing outside its range. It may also say which reads and
/// writes it is sure to serve; what it is sure to take before a write it is
/// still sure to take after it.
pub trait IoTarget: Sized {
    /// The implementation's own invariant; none unless it states one.
    open spec fn wf(&self) -> bool {
        true
    }

    /// The byte held at `pos`; unspecified unless the implementation says.
    open spec fn byte_at(&self, pos: int) -> u8 {
        arbitrary()
    }

    /// The writes accepted so far, oldest first; unspecified unless the
    /// implementation says.
    open spec fn accepted(&self) -> Seq<Patch> {
        arbitrary()
    }

    /// Whether a read of `len` bytes at `offset` is sure to succeed. An
    /// implementation that can fail at any time promises nothing, which is
    /// the default.
    open spec fn reads(&self, offset: int, len: nat) -> bool {
        false
    }

    /// Whether the write `w` is sure to be accepted. An implementation that
    /// can fail at any time promises nothing, which is the default.
    open spec fn takes(&self, w: Patch) -> bool {
        false
    }

    /// Reads exactly `len` bytes starting at `offset`, or fails.
    fn read_at(&self, offset: u64, len: usize) -> (r: Result<Bytes, Error>)
        requires
            self.wf(),
            offset + len <= u64::MAX,
        ensures
            r matches Ok(b) ==> bytes_view(b) == Seq::new(
                len as nat,
                |i: int| self.byte_at(offset + i),
            ),
            self.reads(offset as int, len as nat) ==> r is Ok,
    ;

    /// Writes all of `content` at `offset`, or fails.
    fn write_at(&mut self, content: Bytes, offset: u64) -> (r: Result<(), Error>)
        requires
            old(self).wf(),
            offset + bytes_view(content).len() <= u64::MAX,
        ensures
            final(self).wf(),
            r is Ok ==> final(self).accepted() == old(self).accepted().push(
                Patch { offset: offset as int, data: bytes_view(content) },
            ),
            r is Ok ==> forall|pos: int| #[trigger]
                final(self).byte_at(pos) == written(
                    Patch { offset: offset as int, data: bytes_view(content) },
                    old(self).byte_at(pos),
                    pos,
                ),
            r is Err ==> final(self).accepted() == old(self).accepted(),
            r is Err ==> forall|pos: int|
                !(Patch { offset: offset as int, data: bytes_view(content) }).covers(pos)
                    ==> #[trigger] final(self).byte_at(pos) == old(self).byte_at(pos),
            old(self).takes(Patch { offset: offset as int, data: bytes_view(content) }) ==> r is Ok,
            forall|w: Patch| old(self).takes(w) ==> #[trigger] final(self).takes(w),
    ;
}

/// A store kept in memory: a byte vector that grows on demand and reads as
/// zero beyond its end. It records the offset and length of every write it
/// accepts, and can be told to stall, after which every write times out.
pub struct MemoryTarget {
    data: Vec<u8>,
    calls: Vec<(u64, usize)>,
    history: Ghost<Seq<Patch>>,
    stalled: bool,
}

impl MemoryTarget {
    /// An empty store.
    pub fn new() -> (r: Self)
        ensures
            r.wf(),
            r.contents_spec() == Seq::<u8>::empty(),
            r.issued() == Seq::<Patch>::empty(),
            !r.is_stalled_spec(),
    {
        MemoryTarget { data: Vec::new(), calls: Vec::new(), history: Ghost(Seq::empty()), stalled: false }
    }

    /// A store that holds `data` from position zero.
    pub fn with_contents(data: Vec<u8>) -> (r: Self)
        ensures
            r.wf(),
            r.contents_spec() == data@,
            r.issued() == Seq::<Patch>::empty(),
            !r.is_stalled_spec(),
    {
        MemoryTarget { data, calls: Vec::new(), history: Ghost(Seq::empty()), stalled: false }
    }

    /// The bytes held from position zero to the highest position written.
    pub closed spec fn contents_spec(&self) -> Seq<u8> {
        self.data@
    }

    /// Whether writes are refused.
    pub closed spec fn is_stalled_spec(&self) -> bool {
        self.stalled
    }

    /// The writes accepted so far, oldest first.
    pub closed spec fn issued(&self) -> Seq<Patch> {
        self.history@
    }

    /// The bytes held from position zero to the highest position written.
    pub fn contents(&self) -> (r: &Vec<u8>)
        ensures
            r@ == self.contents_spec(),
    {
        &self.data
    }

    /// The offset and length of every accepted write, oldest first.
    pub fn write_calls(&self) -> (r: &Vec<(u64, usize)>)
        requires
            self.wf(),
        ensures
            r@.len() == self.issued().len(),
            forall|i: int|
                0 <= i < r@.len() ==> (#[trigger] r@[i]).0 == self.issued()[i].offset && r@[i].1
                    == self.issued()[i].data.len(),
    {
        &self.calls
    }

    /// Makes the store refuse writes, or accept them again.
    pub fn set_stalled(&mut self, stalled: bool)
        requires
            old(self).wf(),
        ensures
            final(self).wf(),
            final(self).is_stalled_spec() == stalled,
            final(self).contents_spec() == old(self).contents_spec(),
            final(self).issued() == old(self).issued(),
    {
        self.stalled = stalled;
    }
}

impl IoTarget for MemoryTarget {
    closed spec fn wf(&self) -> bool {
        &&& self.calls@.len() == self.history@.len()
        &&& forall|i: int|
            0 <= i < self.calls@.len() ==> (#[trigger] self.calls@[i]).0 == self.history@[i].offset
                && self.calls@[i].1 == self.history@[i].data.len()
    }

    open spec fn byte_at(&self, pos: int) -> u8 {
        if 0 <= pos < self.contents_spec().len() {
            self.contents_spec()[pos]
        } else {
            0
        }
    }

    open spec fn accepted(&self) -> Seq<Patch> {
        self.issued()
    }

    open spec fn reads(&self, offset: int, len: nat) -> bool {
        true
    }

    open spec fn takes(&self, w: Patch) -> bool {
        !self.is_stalled_spec() && w.end() <= usize::MAX
    }

    /// Always succeeds; positions beyond the end read as zero.
    fn read_at(&self, offset: u64, len: usize) -> (r: Result<Bytes, Error>)
        ensures
            r is Ok,
    {
        let mut out: Vec<u8> = Vec::new();
        let mut i: usize = 0;
        while i < len
            invariant
                0 <= i <= len,
                offset + len <= u64::MAX,
                out@ == Seq::new(i as nat, |k: int| self.byte_at(offset + k)),
            decreases len - i,
        {
            let pos: u64 = offset + i as u64;
            let b: u8 = if pos < self.data.len() as u64 {
                self.data[pos as usize]
            } else {
                0
            };
            out.push(b);
            proof {
                assert(out@ =~= Seq::new((i + 1) as nat, |k: int| self.byte_at(offset + k)));
            }
            i += 1;
        }
        proof {
            assert(out@ =~= Seq::new(len as nat, |i: int| self.byte_at(offset + i)));
        }
        Ok(Bytes::from(out))
    }

    /// Fails with a timeout while the store is stalled, and with an internal
    /// error when the range ends beyond what memory can address. Otherwise
    /// the store grows to hold the range, zero-filled where nothing was
    /// written, and the write is recorded.
    fn write_at(&mut self, content: Bytes, offset: u64) -> (r: Result<(), Error>)
        ensures
            r is Ok <==> !old(self).is_stalled_spec() && offset + bytes_view(content).len()
                <= usize::MAX,
            r is Err ==> final(self).contents_spec() == old(self).contents_spec(),
            r is Err && old(self).is_stalled_spec() ==> r == Err::<(), Error>(Error::Timeout),
            r is Ok ==> final(self).contents_spec().len() == if offset + bytes_view(content).len()
                > old(self).contents_spec().len() {
                offset + bytes_view(content).len()
            } else {
                old(self).contents_spec().len() as int
            },
            final(self).is_stalled_spec() == old(self).is_stalled_spec(),
    {
        let src = content.as_ref();
        let n: usize = src.len();
        if self.stalled {
            return Err(Error::Timeout);
        }
        if offset > (usize::MAX - n) as u64 {
            return Err(Error::Internal("range beyond addressable memory".to_string()));
        }
        let start: usize = offset as usize;
        let end: usize = start + n;
        let ghost before = self.data@;
        while self.data.len() < end
            invariant
                self.data@.len() >= before.len(),
                self.data@.len() == before.len() || self.data@.len() <= end,
                forall|j: int| 0 <= j < before.len() ==> self.data@[j] == before[j],
                forall|j: int| before.len() <= j < self.data@.len() ==> self.data@[j] == 0,
                self.calls == old(self).calls,
                self.history == old(self).history,
                self.stalled == old(self).stalled,
            decreases end - self.data.len(),
        {
            self.data.push(0);
        }
        let ghost padded = self.data@;
        let mut i: usize = 0;
        while i < n
            invariant
                0 <= i <= n,
                end == start + n,
                src@.len() == n,
                self.data@.len() == padded.len(),
                padded.len() >= end,
                forall|j: int| 0 <= j < padded.len() && !(start <= j < start + i) ==> self.data@[j] == padded[j],
                forall|j: int| start <= j < start + i ==> self.data@[j] == src@[j - start],
                self.calls == old(self).calls,
                self.history == old(self).history,
                self.stalled == old(self).stalled,
            decreases n - i,
        {
            self.data.set(start + i, src[i]);
            i += 1;
        }
        self.calls.push((offset, n));
        proof {
            let w = Patch { offset: offset as int, data: bytes_view(content) };
            self.history@ = self.history@.push(w);
            assert forall|pos: int| #[trigger] self.byte_at(pos) == written(w, old(self).byte_at(pos), pos) by {
                if w.covers(pos) {
                    assert(self.data@[pos] == src@[pos - start]);
                } else if 0 <= pos < padded.len() {
                    assert(self.data@[pos] == padded[pos]);
                }
            }
        }
        Ok(())
    }
}

} // verus!
