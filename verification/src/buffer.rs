//! Trusted interface to the byte buffers of the `bytes` crate.
//!
//! The frame codec operates directly on `bytes::BytesMut` and
//! `bytes::Bytes`.  Both types are opaque to the verifier, so the
//! functions here wrap the handful of methods the codec calls and state,
//! over the abstract contents `buf_bytes` / `bytes_view`, what each call
//! does to a buffer.

use vstd::prelude::*;
use bytes::Buf;
use bytes::BufMut;

verus! {

#[verifier::external_type_specification]
#[verifier::external_body]
pub struct ExBytesMut(bytes::BytesMut);

#[verifier::external_type_specification]
#[verifier::external_body]
pub struct ExBytes(bytes::Bytes);

/// The bytes a `bytes::BytesMut` currently holds, oldest first.
pub uninterp spec fn buf_bytes(b: bytes::BytesMut) -> Seq<u8>;

/// The bytes a `bytes::Bytes` holds.
pub uninterp spec fn bytes_view(b: bytes::Bytes) -> Seq<u8>;

/// Relies on `BytesMut::len`: the number of bytes the buffer holds.
/// A buffer is one allocation, and a Rust allocation holds at most
/// `isize::MAX` bytes, which the second clause records.
#[verifier::external_body]
pub(crate) fn buf_len(b: &bytes::BytesMut) -> (r: usize)
    ensures
        r == buf_bytes(*b).len(),
        r <= usize::MAX / 2,
{
    b.len()
}

/// Relies on indexing into `BytesMut` (through its view as a byte
/// slice): the byte at position `i`.
#[verifier::external_body]
pub(crate) fn buf_byte(b: &bytes::BytesMut, i: usize) -> (r: u8)
    requires
        i < buf_bytes(*b).len(),
    ensures
        r == buf_bytes(*b)[i as int],
{
    b[i]
}

/// Relies on `Buf::advance` for `BytesMut`: discards the first `cnt`
/// bytes.
#[verifier::external_body]
pub(crate) fn buf_advance(b: &mut bytes::BytesMut, cnt: usize)
    requires
        cnt <= buf_bytes(*old(b)).len(),
    ensures
        buf_bytes(*final(b)) == buf_bytes(*old(b)).skip(cnt as int),
{
    b.advance(cnt);
}

/// Relies on `BytesMut::reserve`: grows capacity, leaves the contents
/// alone.
#[verifier::external_body]
pub(crate) fn buf_reserve(b: &mut bytes::BytesMut, additional: usize)
    requires
        buf_bytes(*old(b)).len() + additional <= usize::MAX / 2,
    ensures
        buf_bytes(*final(b)) == buf_bytes(*old(b)),
{
    b.reserve(additional);
}

/// Relies on `BytesMut::split_to`: removes and returns the first `at`
/// bytes, keeping the rest.
#[verifier::external_body]
pub(crate) fn buf_split_to(b: &mut bytes::BytesMut, at: usize) -> (r: bytes::BytesMut)
    requires
        at <= buf_bytes(*old(b)).len(),
    ensures
        buf_bytes(r) == buf_bytes(*old(b)).take(at as int),
        buf_bytes(*final(b)) == buf_bytes(*old(b)).skip(at as int),
{
    b.split_to(at)
}

/// Relies on `BufMut::put_u8` for `BytesMut`: appends one byte.
#[verifier::external_body]
pub(crate) fn buf_put_u8(b: &mut bytes::BytesMut, v: u8)
    requires
        buf_bytes(*old(b)).len() + 1 <= usize::MAX / 2,
    ensures
        buf_bytes(*final(b)) == buf_bytes(*old(b)) + seq![v],
{
    b.put_u8(v);
}

/// Relies on `BufMut::put_u16_le` for `BytesMut`: appends the two bytes
/// of `v`, least significant first.
#[verifier::external_body]
pub(crate) fn buf_put_u16_le(b: &mut bytes::BytesMut, v: u16)
    requires
        buf_bytes(*old(b)).len() + 2 <= usize::MAX / 2,
    ensures
        buf_bytes(*final(b)) == buf_bytes(*old(b)) + seq![(v % 256) as u8, (v / 256) as u8],
{
    b.put_u16_le(v);
}

/// Relies on `BufMut::put_u32_le` for `BytesMut`: appends the four bytes
/// of `v`, least significant first.
#[verifier::external_body]
pub(crate) fn buf_put_u32_le(b: &mut bytes::BytesMut, v: u32)
    requires
        buf_bytes(*old(b)).len() + 4 <= usize::MAX / 2,
    ensures
        buf_bytes(*final(b)) == buf_bytes(*old(b)) + seq![
            (v % 256) as u8,
            ((v / 256) % 256) as u8,
            ((v / 65536) % 256) as u8,
            ((v / 16777216) % 256) as u8,
        ],
{
    b.put_u32_le(v);
}

/// Relies on `BufMut::put` for `BytesMut` with a `Bytes` source: appends
/// the source's bytes.
#[verifier::external_body]
pub(crate) fn buf_put_bytes(b: &mut bytes::BytesMut, data: bytes::Bytes)
    requires
        buf_bytes(*old(b)).len() + bytes_view(data).len() <= usize::MAX / 2,
    ensures
        buf_bytes(*final(b)) == buf_bytes(*old(b)) + bytes_view(data),
{
    b.put(data);
}

/// Relies on `Bytes::len`: the number of bytes held; one allocation, so
/// at most `isize::MAX` bytes.
#[verifier::external_body]
pub(crate) fn bytes_len(b: &bytes::Bytes) -> (r: usize)
    ensures
        r == bytes_view(*b).len(),
        r <= usize::MAX / 2,
{
    b.len()
}

} // verus!
