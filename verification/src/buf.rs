//! The byte buffers of the `bytes` crate, as the verifier sees them.
//!
//! `Bytes` and `BytesMut` are opaque here. What either holds is named by a
//! specification function, and every operation the library performs on them
//! is declared with a contract over those names. None of these contracts is
//! proved: each restates what the `bytes` crate documents.

use vstd::prelude::*;
use bytes::{Bytes, BytesMut};

verus! {

/// `bytes::Bytes`, an immutable, cheaply cloned byte buffer.
#[verifier::external_type_specification]
#[verifier::external_body]
pub struct ExBytes(Bytes);

/// `bytes::BytesMut`, a growable byte buffer.
#[verifier::external_type_specification]
#[verifier::external_body]
pub struct ExBytesMut(BytesMut);

/// The bytes that an immutable buffer holds, first to last.
pub uninterp spec fn bytes_view(b: Bytes) -> Seq<u8>;

/// The bytes that a growable buffer holds, first to last.
pub uninterp spec fn bytes_mut_view(b: BytesMut) -> Seq<u8>;

/// `Bytes::len` returns the number of bytes held.
pub assume_specification[ Bytes::len ](b: &Bytes) -> (n: usize)
    ensures
        n == bytes_view(*b).len(),
;

/// `Bytes::clone` hands out a second handle on the same bytes.
pub assume_specification[ <Bytes as Clone>::clone ](b: &Bytes) -> (r: Bytes)
    ensures
        bytes_view(r) == bytes_view(*b),
;

/// `Bytes::from(Vec<u8>)` takes over the vector's elements unchanged.
pub assume_specification[ <Bytes as From<Vec<u8>>>::from ](v: Vec<u8>) -> (r: Bytes)
    ensures
        bytes_view(r) == v@,
;

/// `Bytes::as_ref` borrows the held bytes as a slice.
pub assume_specification<'a>[ <Bytes as AsRef<[u8]>>::as_ref ](b: &'a Bytes) -> (s: &'a [u8])
    ensures
        s@ == bytes_view(*b),
;

/// `BytesMut::new` returns a buffer of length zero.
pub assume_specification[ BytesMut::new ]() -> (r: BytesMut)
    ensures
        bytes_mut_view(r) == Seq::<u8>::empty(),
;

/// `BytesMut::len` returns the number of bytes held.
pub assume_specification[ BytesMut::len ](b: &BytesMut) -> (n: usize)
    ensures
        n == bytes_mut_view(*b).len(),
;

/// `BytesMut::extend_from_slice` appends the slice, growing the buffer as
/// needed. It panics where the new length would exceed what an allocation
/// can hold, which the precondition rules out.
pub assume_specification[ BytesMut::extend_from_slice ](b: &mut BytesMut, extend: &[u8])
    requires
        bytes_mut_view(*old(b)).len() + extend@.len() <= isize::MAX,
    ensures
        bytes_mut_view(*final(b)) == bytes_mut_view(*old(b)) + extend@,
;

/// `BytesMut::freeze` turns the buffer into an immutable one holding the
/// same bytes.
pub assume_specification[ BytesMut::freeze ](b: BytesMut) -> (r: Bytes)
    ensures
        bytes_view(r) == bytes_mut_view(b),
;

/// `BytesMut::from(&[u8])` copies the slice into a fresh buffer.
pub assume_specification<'a>[ <BytesMut as From<&'a [u8]>>::from ](src: &'a [u8]) -> (r: BytesMut)
    ensures
        bytes_mut_view(r) == src@,
;

/// Overwrites the bytes `start..end` of `buf` with `src`, through
/// `copy_from_slice` on the buffer's mutable slice. The bytes before `start`
/// and from `end` on stay as they were, and so does the length.
#[verifier::external_body]
pub(crate) fn overwrite_range(buf: &mut BytesMut, start: usize, end: usize, src: &[u8])
    requires
        start <= end <= bytes_mut_view(*old(buf)).len(),
        src@.len() == end - start,
    ensures
        bytes_mut_view(*final(buf)) == bytes_mut_view(*old(buf)).subrange(0, start as int) + src@
            + bytes_mut_view(*old(buf)).subrange(
            end as int,
            bytes_mut_view(*old(buf)).len() as int,
        ),
{
    buf[start..end].copy_from_slice(src);
}

} // verus!
