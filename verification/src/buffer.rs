//! The byte buffer of the `bytes` crate, in which frames are put together.
use crate::wire::be_bytes;
use bytes::BufMut;
use vstd::prelude::*;

verus! {

#[verifier::external_type_specification]
#[verifier::external_body]
pub struct ExBytesMut(bytes::BytesMut);

/// The bytes that a buffer holds.
pub uninterp spec fn held(buf: bytes::BytesMut) -> Seq<u8>;

/// Calls `BytesMut::with_capacity`, which gives an empty buffer. A capacity
/// above `isize::MAX` would make the allocation panic.
#[verifier::external_body]
pub(crate) fn buffer_with_capacity(capacity: usize) -> (buf: bytes::BytesMut)
    requires
        capacity <= isize::MAX,
    ensures
        held(buf) == Seq::<u8>::empty(),
{
    bytes::BytesMut::with_capacity(capacity)
}

/// Calls `BufMut::put_u32`, which appends the four bytes of `n`, most
/// significant first; the buffer grows as needed.
#[verifier::external_body]
pub(crate) fn put_u32(buf: &mut bytes::BytesMut, n: u32)
    requires
        held(*old(buf)).len() + 4 <= isize::MAX,
    ensures
        held(*final(buf)) == held(*old(buf)) + be_bytes(n),
{
    buf.put_u32(n)
}

/// Calls `BufMut::put_u8`, which appends one byte.
#[verifier::external_body]
pub(crate) fn put_u8(buf: &mut bytes::BytesMut, byte: u8)
    requires
        held(*old(buf)).len() + 1 <= isize::MAX,
    ensures
        held(*final(buf)) == held(*old(buf)).push(byte),
{
    buf.put_u8(byte)
}

/// Calls `BufMut::put` with a slice, which appends its bytes.
#[verifier::external_body]
pub(crate) fn put(buf: &mut bytes::BytesMut, bytes: &[u8])
    requires
        held(*old(buf)).len() + bytes@.len() <= isize::MAX,
    ensures
        held(*final(buf)) == held(*old(buf)) + bytes@,
{
    buf.put(bytes)
}

/// Copies the bytes out of the buffer, through its `Deref` to a slice.
#[verifier::external_body]
pub(crate) fn contents(buf: &bytes::BytesMut) -> (bytes: Vec<u8>)
    ensures
        bytes@ == held(*buf),
{
    buf.to_vec()
}

} // verus!
