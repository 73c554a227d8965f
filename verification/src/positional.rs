//! Adapting a file handle to a target.
//!
//! A handle's own reads and writes may transfer fewer bytes than asked for.
//! The adapter repeats them until the whole range has been transferred, so
//! that the layer above never sees a partial read or write.

use vstd::prelude::*;
use vstd::slice::slice_subrange;
use bytes::Bytes;
use crate::buf::bytes_view;
use crate::error::Error;
use crate::model::Patch;
use crate::target::{written, IoTarget};

verus! {

/// `std::io::Error::from` applied to `ErrorKind::WriteZero`: the error of a
/// write that made no progress.
#[verifier::external_body]
fn write_zero_error() -> (e: std::io::Error) {
    std::io::Error::from(std::io::ErrorKind::WriteZero)
}

/// `std::io::Error::from` applied to `ErrorKind::InvalidInput`: the error of
/// a range that cannot be addressed.
#[verifier::external_body]
fn invalid_input_error() -> (e: std::io::Error) {
    std::io::Error::from(std::io::ErrorKind::InvalidInput)
}

/// What a read that is being repeated does after one answer of the handle.
pub enum ReadStep {
    /// The file has ended: what is still to fill stays zero.
    Done,
    /// So many bytes are in now; the read goes on behind them.
    More(usize),
    /// The handle failed, and the read fails with its error.
    Fail(std::io::Error),
}

/// Decides how a read of `len` bytes, of which `filled` are in, goes on after
/// the handle answered `got`: an answer of no bytes ends it, an answer of
/// some bytes moves it on by that many, and a failure is passed on.
pub fn after_read(filled: usize, len: usize, got: Result<usize, std::io::Error>) -> (s: ReadStep)
    requires
        got matches Ok(n) ==> filled + n <= len,
    ensures
        s == match got {
            Ok(n) => if n == 0 {
                ReadStep::Done
            } else {
                ReadStep::More((filled + n) as usize)
            },
            Err(e) => ReadStep::Fail(e),
        },
{
    match got {
        Ok(n) => if n == 0 {
            ReadStep::Done
        } else {
            ReadStep::More(filled + n)
        },
        Err(e) => ReadStep::Fail(e),
    }
}

/// Decides how a write, of which `total` bytes are stored, goes on after the
/// handle answered `got`: an answer of some bytes gives the new total, an
/// answer of no bytes fails the write, since it would never end, and a
/// failure is passed on.
pub fn after_write(total: usize, got: Result<usize, std::io::Error>) -> (r: Result<
    usize,
    std::io::Error,
>)
    requires
        got matches Ok(n) ==> total + n <= usize::MAX,
    ensures
        match got {
            Ok(n) => if n == 0 {
                r is Err
            } else {
                r == Ok::<usize, std::io::Error>((total + n) as usize)
            },
            Err(e) => r == Err::<usize, std::io::Error>(e),
        },
{
    match got {
        Ok(n) => if n == 0 {
            Err(write_zero_error())
        } else {
            Ok(total + n)
        },
        Err(e) => Err(e),
    }
}

/// A file handle with positional reads and writes that may each fall short.
///
/// The handle is modelled by the byte it holds at every position; positions
/// past the end of the file hold zero. An implementation promises that a read
/// puts stored bytes at the front of the buffer and touches nothing behind
/// them, that it reports zero bytes for a non-empty buffer only at the end of
/// the file, and that a write stores a prefix of the buffer and changes
/// nothing outside the range it was given.
pub trait RFileExt: Sized {
    /// The implementation's own invariant; none unless it states one.
    open spec fn wf(&self) -> bool {
        true
    }

    /// The byte held at `pos`; unspecified unless the implementation says.
    open spec fn byte_at(&self, pos: int) -> u8 {
        arbitrary()
    }

    /// Reads up to `buf.len()` bytes stored from `offset` on into the front
    /// of `buf`, and returns how many.
    fn read_at_sync(&self, buf: &mut [u8], offset: u64) -> (r: Result<usize, std::io::Error>)
        requires
            self.wf(),
            offset + old(buf)@.len() <= u64::MAX,
        ensures
            final(buf)@.len() == old(buf)@.len(),
            r matches Ok(n) ==> {
                &&& n <= old(buf)@.len()
                &&& forall|i: int| 0 <= i < n ==> #[trigger] final(buf)@[i] == self.byte_at(offset + i)
                &&& forall|i: int| n <= i < old(buf)@.len() ==> #[trigger] final(buf)@[i] == old(buf)@[i]
                &&& n == 0 && old(buf)@.len() > 0 ==> forall|pos: int|
                    pos >= offset ==> #[trigger] self.byte_at(pos) == 0
            },
    ;

    /// Writes a prefix of `buf` at `offset`, and returns its length.
    fn write_at_sync(&mut self, buf: &[u8], offset: u64) -> (r: Result<usize, std::io::Error>)
        requires
            old(self).wf(),
            offset + buf@.len() <= u64::MAX,
        ensures
            final(self).wf(),
            match r {
                Ok(n) => {
                    &&& n <= buf@.len()
                    &&& forall|pos: int| #[trigger]
                        final(self).byte_at(pos) == if offset <= pos < offset + n {
                            buf@[pos - offset]
                        } else {
                            old(self).byte_at(pos)
                        }
                },
                Err(_) => forall|pos: int|
                    !(offset <= pos < offset + buf@.len()) ==> #[trigger] final(self).byte_at(pos)
                        == old(self).byte_at(pos),
            },
    ;
}

/// Positional reads and writes that transfer the whole range or fail.
pub trait PositionalIo: Sized {
    /// The implementation's own invariant; none unless it states one.
    open spec fn ready(&self) -> bool {
        true
    }

    /// The byte held at `pos`; unspecified unless the implementation says.
    open spec fn held(&self, pos: int) -> u8 {
        arbitrary()
    }

    /// Reads exactly `len` bytes at `offset`.
    fn read_at_pos(&self, offset: u64, len: usize) -> (r: Result<Vec<u8>, std::io::Error>)
        requires
            self.ready(),
            offset + len <= u64::MAX,
        ensures
            r matches Ok(v) ==> v@ == Seq::new(len as nat, |i: int| self.held(offset + i)),
    ;

    /// Writes all of `data` at `offset`.
    fn write_at_pos(&mut self, offset: u64, data: &[u8]) -> (r: Result<(), std::io::Error>)
        requires
            old(self).ready(),
            offset + data@.len() <= u64::MAX,
        ensures
            final(self).ready(),
            r is Ok ==> forall|pos: int| #[trigger]
                final(self).held(pos) == written(
                    Patch { offset: offset as int, data: data@ },
                    old(self).held(pos),
                    pos,
                ),
            r is Err ==> forall|pos: int|
                !(Patch { offset: offset as int, data: data@ }).covers(pos) ==> #[trigger] final(self).held(
                    pos,
                ) == old(self).held(pos),
    ;
}

/// A file handle made into a target: every read and write is repeated until
/// the whole range has been transferred.
pub struct PositionalFile<F: RFileExt> {
    file: F,
    history: Ghost<Seq<Patch>>,
}

impl<F: RFileExt> PositionalFile<F> {
    /// Wraps `file`.
    pub fn new(file: F) -> (r: Self)
        requires
            file.wf(),
        ensures
            r.file_spec() == file,
            r.issued() == Seq::<Patch>::empty(),
    {
        PositionalFile { file, history: Ghost(Seq::empty()) }
    }

    /// The handle underneath.
    pub closed spec fn file_spec(&self) -> F {
        self.file
    }

    /// The writes stored in full so far, oldest first.
    pub closed spec fn issued(&self) -> Seq<Patch> {
        self.history@
    }

    /// The handle underneath.
    pub fn file(&self) -> (r: &F)
        ensures
            *r == self.file_spec(),
    {
        &self.file
    }

    /// Gives the handle back.
    pub fn into_inner(self) -> (r: F)
        ensures
            r == self.file_spec(),
    {
        self.file
    }
}

impl<F: RFileExt> PositionalIo for PositionalFile<F> {
    open spec fn ready(&self) -> bool {
        self.file_spec().wf()
    }

    open spec fn held(&self, pos: int) -> u8 {
        self.file_spec().byte_at(pos)
    }

    /// Reads until `len` bytes are in or the file ends; what lies past the
    /// end reads as zero. Fails only when the handle does; a read of no bytes
    /// asks nothing of the handle.
    fn read_at_pos(&self, offset: u64, len: usize) -> (r: Result<Vec<u8>, std::io::Error>)
        ensures
            len == 0 ==> r is Ok,
    {
        let mut buf: Vec<u8> = Vec::new();
        buf.resize(len, 0u8);
        let mut filled: usize = 0;
        let mut at_end: bool = false;
        while filled < len && !at_end
            invariant
                filled <= len,
                buf@.len() == len,
                offset + len <= u64::MAX,
                self.file.wf(),
                forall|i: int| 0 <= i < filled ==> #[trigger] buf@[i] == self.file.byte_at(offset + i),
                forall|i: int| filled <= i < len ==> #[trigger] buf@[i] == 0,
                at_end ==> forall|pos: int| pos >= offset + filled ==> #[trigger] self.file.byte_at(pos) == 0,
            decreases len - filled, if at_end { 0int } else { 1int },
        {
            let ghost before = buf@;
            let (head, tail) = buf.as_mut_slice().split_at_mut(filled);
            let ghost tail_before = tail@;
            let got = self.file.read_at_sync(tail, offset + filled as u64);
            assert(head@ == before.subrange(0, filled as int));
            assert(buf@ == before.subrange(0, filled as int) + tail@);
            proof {
                if let Ok(n) = got {
                    assert forall|i: int| 0 <= i < filled + n implies #[trigger] buf@[i]
                        == self.file.byte_at(offset + i) by {
                        if i >= filled {
                            assert(buf@[i] == tail@[i - filled]);
                        } else {
                            assert(buf@[i] == before[i]);
                        }
                    }
                    assert forall|i: int| filled + n <= i < len implies #[trigger] buf@[i] == 0 by {
                        assert(buf@[i] == tail@[i - filled]);
                        assert(tail@[i - filled] == tail_before[i - filled]);
                        assert(tail_before[i - filled] == before[i]);
                    }
                }
            }
            match after_read(filled, len, got) {
                ReadStep::Done => {
                    at_end = true;
                },
                ReadStep::More(next) => {
                    filled = next;
                },
                ReadStep::Fail(e) => {
                    return Err(e);
                },
            }
        }
        proof {
            assert(buf@ =~= Seq::new(len as nat, |i: int| self.held(offset + i)));
        }
        Ok(buf)
    }

    /// Writes until all of `data` is stored. A write that stores nothing
    /// fails the call, as does a failure of the handle.
    fn write_at_pos(&mut self, offset: u64, data: &[u8]) -> (r: Result<(), std::io::Error>)
        ensures
            final(self).issued() == old(self).issued(),
            data@.len() == 0 ==> r is Ok,
    {
        let len: usize = data.len();
        let ghost w = Patch { offset: offset as int, data: data@ };
        let mut total_written: usize = 0;
        while total_written < len
            invariant
                total_written <= len,
                len == data@.len(),
                offset + len <= u64::MAX,
                self.file.wf(),
                self.history == old(self).history,
                w == (Patch { offset: offset as int, data: data@ }),
                forall|pos: int| #[trigger]
                    self.file.byte_at(pos) == if offset <= pos < offset + total_written {
                        data@[pos - offset]
                    } else {
                        old(self).file.byte_at(pos)
                    },
            decreases len - total_written,
        {
            let rest = slice_subrange(data, total_written, len);
            let ghost mid = self.file;
            let got = self.file.write_at_sync(rest, offset + total_written as u64);
            proof {
                if let Ok(n) = got {
                    assert forall|pos: int| #[trigger]
                        self.file.byte_at(pos) == if offset <= pos < offset + total_written + n {
                            data@[pos - offset]
                        } else {
                            old(self).file.byte_at(pos)
                        } by {
                        if offset + total_written <= pos < offset + total_written + n {
                            assert(rest@[pos - (offset + total_written)] == data@[pos - offset]);
                        } else {
                            assert(self.file.byte_at(pos) == mid.byte_at(pos));
                        }
                    }
                }
            }
            match after_write(total_written, got) {
                Ok(stored) => {
                    total_written = stored;
                },
                Err(e) => {
                    proof {
                        assert forall|pos: int| !w.covers(pos) implies #[trigger] self.held(pos)
                            == old(self).held(pos) by {
                            assert(self.file.byte_at(pos) == mid.byte_at(pos));
                        }
                    }
                    return Err(e);
                },
            }
        }
        Ok(())
    }
}

impl<F: RFileExt> IoTarget for PositionalFile<F> {
    open spec fn wf(&self) -> bool {
        self.file_spec().wf()
    }

    open spec fn byte_at(&self, pos: int) -> u8 {
        self.file_spec().byte_at(pos)
    }

    open spec fn accepted(&self) -> Seq<Patch> {
        self.issued()
    }

    /// Reads the whole range, repeating short reads. A read of no bytes
    /// succeeds without asking the handle; the only failure is one of the
    /// handle, which is passed on as an I/O error.
    fn read_at(&self, offset: u64, len: usize) -> (r: Result<Bytes, Error>)
        ensures
            len == 0 ==> r is Ok,
            r matches Err(e) ==> e is Io,
    {
        match self.read_at_pos(offset, len) {
            Ok(data) => Ok(Bytes::from(data)),
            Err(e) => Err(Error::Io(e)),
        }
    }

    /// Writes the whole of `content`, repeating short writes, and records
    /// the write once all of it is stored. A write of no bytes succeeds
    /// without asking the handle; the only failures are one of the handle and
    /// a write that stored nothing, both passed on as an I/O error, and after
    /// either the record of writes is as it was.
    fn write_at(&mut self, content: Bytes, offset: u64) -> (r: Result<(), Error>)
        ensures
            bytes_view(content).len() == 0 ==> r is Ok,
            r matches Err(e) ==> e is Io,
            r is Ok ==> final(self).issued() == old(self).issued().push(
                Patch { offset: offset as int, data: bytes_view(content) },
            ),
            r is Err ==> final(self).issued() == old(self).issued(),
    {
        let ghost pre = *self;
        let ghost w = Patch { offset: offset as int, data: bytes_view(content) };
        match self.write_at_pos(offset, content.as_ref()) {
            Ok(_) => {
                let ghost mid = *self;
                proof {
                    self.history@ = self.history@.push(w);
                    assert forall|pos: int| #[trigger]
                        self.byte_at(pos) == written(w, pre.byte_at(pos), pos) by {
                        assert(mid.held(pos) == written(w, pre.held(pos), pos));
                    }
                }
                Ok(())
            },
            Err(e) => {
                proof {
                    assert forall|pos: int| !w.covers(pos) implies #[trigger] self.byte_at(pos)
                        == pre.byte_at(pos) by {
                        assert(self.held(pos) == pre.held(pos));
                    }
                }
                Err(Error::Io(e))
            },
        }
    }
}

/// The lesser of two numbers.
pub open spec fn least(a: int, b: int) -> int {
    if a <= b {
        a
    } else {
        b
    }
}

/// A file kept in memory whose reads and writes move at most
/// `max_transfer` bytes at a time, as a handle under load might.
pub struct MemoryFile {
    data: Vec<u8>,
    max_transfer: usize,
}

impl MemoryFile {
    /// A file holding `data` that moves at most `max_transfer` bytes per
    /// call, and at least one.
    pub fn new(data: Vec<u8>, max_transfer: usize) -> (r: Self)
        ensures
            r.wf(),
            r.contents_spec() == data@,
            r.max_transfer_spec() == if max_transfer == 0 {
                1usize
            } else {
                max_transfer
            },
    {
        MemoryFile { data, max_transfer: if max_transfer == 0 { 1 } else { max_transfer } }
    }

    /// The bytes of the file.
    pub closed spec fn contents_spec(&self) -> Seq<u8> {
        self.data@
    }

    /// The most bytes one call moves.
    pub closed spec fn max_transfer_spec(&self) -> usize {
        self.max_transfer
    }

    /// The bytes of the file.
    pub fn contents(&self) -> (r: &Vec<u8>)
        ensures
            r@ == self.contents_spec(),
    {
        &self.data
    }
}

impl RFileExt for MemoryFile {
    open spec fn wf(&self) -> bool {
        self.max_transfer_spec() >= 1
    }

    open spec fn byte_at(&self, pos: int) -> u8 {
        if 0 <= pos < self.contents_spec().len() {
            self.contents_spec()[pos]
        } else {
            0
        }
    }

    /// Never fails. Moves as many bytes as the buffer takes, the file still
    /// holds from `offset` on, and one call may move.
    fn read_at_sync(&self, buf: &mut [u8], offset: u64) -> (r: Result<usize, std::io::Error>)
        ensures
            r matches Ok(n) && n == least(
                least(old(buf)@.len() as int, self.max_transfer_spec() as int),
                if offset < self.contents_spec().len() {
                    self.contents_spec().len() - offset
                } else {
                    0
                },
            ),
    {
        let have: usize = self.data.len();
        if offset >= have as u64 {
            return Ok(0);
        }
        let start: usize = offset as usize;
        let mut n: usize = have - start;
        if n > buf.len() {
            n = buf.len();
        }
        if n > self.max_transfer {
            n = self.max_transfer;
        }
        let mut i: usize = 0;
        while i < n
            invariant
                0 <= i <= n,
                n <= buf@.len(),
                start + n <= self.data@.len(),
                have == self.data@.len(),
                start == offset,
                buf@.len() == old(buf)@.len(),
                forall|j: int| 0 <= j < i ==> #[trigger] buf@[j] == self.data@[start + j],
                forall|j: int| i <= j < buf@.len() ==> #[trigger] buf@[j] == old(buf)@[j],
            decreases n - i,
        {
            buf[i] = self.data[start + i];
            i += 1;
        }
        Ok(n)
    }

    /// Fails only when the range ends beyond what memory can address.
    /// Otherwise stores as many bytes as one call may move, growing the file
    /// with zeros where the range begins past its end.
    fn write_at_sync(&mut self, buf: &[u8], offset: u64) -> (r: Result<usize, std::io::Error>)
        ensures
            final(self).max_transfer_spec() == old(self).max_transfer_spec(),
            r is Ok <==> offset + least(buf@.len() as int, old(self).max_transfer_spec() as int)
                <= usize::MAX,
            r matches Ok(n) ==> n == least(buf@.len() as int, old(self).max_transfer_spec() as int)
                && final(self).contents_spec().len() == if offset + n > old(
                self).contents_spec().len() {
                offset + n
            } else {
                old(self).contents_spec().len() as int
            },
            r is Err ==> final(self).contents_spec() == old(self).contents_spec(),
    {
        let mut n: usize = buf.len();
        if n > self.max_transfer {
            n = self.max_transfer;
        }
        if offset > (usize::MAX - n) as u64 {
            return Err(invalid_input_error());
        }
        let start: usize = offset as usize;
        let end: usize = start + n;
        let ghost before = self.data@;
        while self.data.len() < end
            invariant
                self.data@.len() >= before.len(),
                self.data@.len() == before.len() || self.data@.len() <= end,
                self.max_transfer == old(self).max_transfer,
                forall|j: int| 0 <= j < before.len() ==> self.data@[j] == before[j],
                forall|j: int| before.len() <= j < self.data@.len() ==> self.data@[j] == 0,
            decreases end - self.data.len(),
        {
            self.data.push(0);
        }
        let ghost padded = self.data@;
        let mut i: usize = 0;
        while i < n
            invariant
                0 <= i <= n,
                end == start + n,
                n <= buf@.len(),
                self.max_transfer == old(self).max_transfer,
                self.data@.len() == padded.len(),
                padded.len() >= end,
                forall|j: int|
                    0 <= j < padded.len() && !(start <= j < start + i) ==> self.data@[j] == padded[j],
                forall|j: int| start <= j < start + i ==> self.data@[j] == buf@[j - start],
            decreases n - i,
        {
            self.data.set(start + i, buf[i]);
            i += 1;
        }
        proof {
            assert forall|pos: int| #[trigger]
                self.byte_at(pos) == if offset <= pos < offset + n {
                    buf@[pos - offset]
                } else {
                    old(self).byte_at(pos)
                } by {
                if offset <= pos < offset + n {
                    assert(self.data@[pos] == buf@[pos - start]);
                } else if 0 <= pos < padded.len() {
                    assert(self.data@[pos] == padded[pos]);
                }
            }
        }
        Ok(n)
    }
}

} // verus!
