//! The byte buffers of the `bytes` crate: what they hold, and what the calls used here do
//! to it.

use bytes::{BufMut, Bytes, BytesMut};
use vstd::prelude::*;

verus! {

#[verifier::external_type_specification]
#[verifier::external_body]
pub struct ExBytes(bytes::Bytes);

#[verifier::external_type_specification]
#[verifier::external_body]
pub struct ExBytesMut(bytes::BytesMut);

/// The bytes that a `Bytes` holds, in order.
pub uninterp spec fn bytes_view(b: Bytes) -> Seq<u8>;

/// The bytes that a `BytesMut` holds, in order.
pub uninterp spec fn bytes_mut_view(b: BytesMut) -> Seq<u8>;

/// `Bytes::clone`: a handle to the same bytes.
pub assume_specification [<bytes::Bytes as std::clone::Clone>::clone](b: &bytes::Bytes) -> (r: bytes::Bytes)
    ensures
        bytes_view(r) == bytes_view(*b),
;

/// `Bytes::from_static`: the bytes of the slice.
#[verifier::external_body]
pub(crate) fn bytes_from_static(data: &'static [u8]) -> (r: Bytes)
    ensures
        bytes_view(r) == data@,
{
    Bytes::from_static(data)
}

/// `Bytes::copy_from_slice`: a copy of the slice.
#[verifier::external_body]
pub(crate) fn bytes_copy_from_slice(data: &[u8]) -> (r: Bytes)
    ensures
        bytes_view(r) == data@,
{
    Bytes::copy_from_slice(data)
}

/// `Bytes::as_ref`: the bytes as a slice.
#[verifier::external_body]
pub(crate) fn bytes_as_slice(b: &Bytes) -> (r: &[u8])
    ensures
        r@ == bytes_view(*b),
{
    b.as_ref()
}

/// `Bytes::slice` with an open end: the bytes from `start` on. It panics for a start
/// behind the end.
#[verifier::external_body]
pub(crate) fn bytes_slice_from(b: &Bytes, start: usize) -> (r: Bytes)
    requires
        start <= bytes_view(*b).len(),
    ensures
        bytes_view(r) == bytes_view(*b).skip(start as int),
{
    b.slice(start..)
}

/// `BytesMut::with_capacity`: an empty buffer. It panics for a capacity that no
/// allocation can have.
#[verifier::external_body]
pub(crate) fn buf_with_capacity(capacity: usize) -> (r: BytesMut)
    requires
        capacity <= isize::MAX,
    ensures
        bytes_mut_view(r) == Seq::<u8>::empty(),
{
    BytesMut::with_capacity(capacity)
}

/// `BytesMut::new`: an empty buffer.
#[verifier::external_body]
pub(crate) fn buf_new() -> (r: BytesMut)
    ensures
        bytes_mut_view(r) == Seq::<u8>::empty(),
{
    BytesMut::new()
}

/// `BufMut::put_u8`: appends the byte. Like every append, it panics if the buffer grows
/// beyond what an allocation can hold.
#[verifier::external_body]
pub(crate) fn buf_put_u8(b: &mut BytesMut, n: u8)
    requires
        bytes_mut_view(*old(b)).len() + 1 <= isize::MAX,
    ensures
        bytes_mut_view(*final(b)) == bytes_mut_view(*old(b)).push(n),
{
    b.put_u8(n)
}

/// `BufMut::put_u32`: appends the four bytes of the number, most significant first.
#[verifier::external_body]
pub(crate) fn buf_put_u32(b: &mut BytesMut, n: u32)
    requires
        bytes_mut_view(*old(b)).len() + 4 <= isize::MAX,
    ensures
        bytes_mut_view(*final(b)) == bytes_mut_view(*old(b)) + crate::be::to_be(n as nat, 4),
{
    b.put_u32(n)
}

/// `BufMut::put_slice`: appends the slice.
#[verifier::external_body]
pub(crate) fn buf_put_slice(b: &mut BytesMut, data: &[u8])
    requires
        bytes_mut_view(*old(b)).len() + data@.len() <= isize::MAX,
    ensures
        bytes_mut_view(*final(b)) == bytes_mut_view(*old(b)) + data@,
{
    b.put_slice(data)
}

/// `BytesMut::extend_from_slice`: appends the slice.
#[verifier::external_body]
pub(crate) fn buf_extend_from_slice(b: &mut BytesMut, data: &[u8])
    requires
        bytes_mut_view(*old(b)).len() + data@.len() <= isize::MAX,
    ensures
        bytes_mut_view(*final(b)) == bytes_mut_view(*old(b)) + data@,
{
    b.extend_from_slice(data)
}

/// `BytesMut::split_to`: takes the first `at` bytes off the buffer and returns them. It
/// panics if there are fewer.
#[verifier::external_body]
pub(crate) fn buf_split_to(b: &mut BytesMut, at: usize) -> (r: BytesMut)
    requires
        at <= bytes_mut_view(*old(b)).len(),
    ensures
        bytes_mut_view(r) == bytes_mut_view(*old(b)).take(at as int),
        bytes_mut_view(*final(b)) == bytes_mut_view(*old(b)).skip(at as int),
{
    b.split_to(at)
}

/// `BytesMut::as_ref`: the bytes as a slice.
#[verifier::external_body]
pub(crate) fn buf_as_slice(b: &BytesMut) -> (r: &[u8])
    ensures
        r@ == bytes_mut_view(*b),
{
    b.as_ref()
}

/// `BytesMut::freeze`: the same bytes, no longer to be changed.
#[verifier::external_body]
pub(crate) fn buf_freeze(b: BytesMut) -> (r: Bytes)
    ensures
        bytes_view(r) == bytes_mut_view(b),
{
    b.freeze()
}

} // verus!
