//! The decode buffer: a `bytes::BytesMut` holding the bytes of a connection
//! that have arrived but not yet been consumed as complete frames.
//!
//! Verus sees the buffer only through `buf_bytes`, the sequence of bytes it
//! holds from front to back, and through the wrappers below.

use vstd::prelude::*;
use bytes::BytesMut;

verus! {

#[verifier::external_type_specification]
#[verifier::external_body]
pub struct ExBytesMut(BytesMut);

/// The bytes a `BytesMut` buffer holds, from front to back.
pub uninterp spec fn buf_bytes(b: BytesMut) -> Seq<u8>;

/// Relies on `bytes::BytesMut::new`: a newly created buffer is empty.
#[verifier::external_body]
pub(crate) fn buf_new() -> (r: BytesMut)
    ensures
        buf_bytes(r) == Seq::<u8>::empty(),
{
    BytesMut::new()
}

/// Relies on `bytes::BytesMut::len`: the number of bytes the buffer holds.
#[verifier::external_body]
pub(crate) fn buf_len(b: &BytesMut) -> (r: usize)
    ensures
        r == buf_bytes(*b).len(),
{
    b.len()
}

/// Relies on `bytes::BytesMut::extend_from_slice`: appends the slice's bytes
/// at the back of the buffer.
#[verifier::external_body]
pub(crate) fn buf_extend(b: &mut BytesMut, data: &[u8])
    ensures
        buf_bytes(*final(b)) == buf_bytes(*old(b)) + data@,
{
    b.extend_from_slice(data)
}

/// Relies on `<BytesMut as bytes::Buf>::advance`: discards the first n bytes
/// (and panics when n exceeds the length, which the precondition excludes).
#[verifier::external_body]
pub(crate) fn buf_advance(b: &mut BytesMut, n: usize)
    requires
        n <= buf_bytes(*old(b)).len(),
    ensures
        buf_bytes(*final(b)) == buf_bytes(*old(b)).skip(n as int),
{
    bytes::Buf::advance(b, n)
}

/// Relies on `slice::get` through BytesMut's `Deref` to `[u8]`: the first
/// byte of the buffer, if the buffer is not empty.
#[verifier::external_body]
pub(crate) fn buf_first(b: &BytesMut) -> (r: Option<u8>)
    ensures
        r == if buf_bytes(*b).len() == 0 {
            Option::<u8>::None
        } else {
            Option::<u8>::Some(buf_bytes(*b)[0])
        },
{
    b.get(0).copied()
}

/// Relies on `slice::get` with a range through BytesMut's `Deref` to `[u8]`:
/// `Some` holding a copy of the bytes at `start..end` exactly when that range
/// lies inside the buffer.
#[verifier::external_body]
pub(crate) fn buf_copy_range(b: &BytesMut, start: usize, end: usize) -> (r: Option<Vec<u8>>)
    requires
        start <= end,
    ensures
        r matches Some(v) ==> end <= buf_bytes(*b).len() && v@ == buf_bytes(*b).subrange(
            start as int,
            end as int,
        ),
        end <= buf_bytes(*b).len() ==> r is Some,
{
    b.get(start..end).map(|s| s.to_vec())
}

} // verus!
