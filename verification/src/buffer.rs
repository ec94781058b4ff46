//! The byte buffers of the `bytes` crate, as the rest of the library sees them.
//!
//! `Bytes` is a read cursor: what it holds is the sequence of bytes not yet
//! consumed. `BytesMut` is a growable buffer. Nothing here is proved: each
//! function states what the `bytes` crate documents for the call it makes.

use bytes::{Buf, BufMut, Bytes, BytesMut};
use vstd::prelude::*;

verus! {

#[verifier::external_type_specification]
#[verifier::external_body]
pub struct ExBytes(Bytes);

#[verifier::external_type_specification]
#[verifier::external_body]
pub struct ExBytesMut(BytesMut);

/// The bytes that a `Bytes` cursor still holds, next byte first.
pub uninterp spec fn unread(buf: Bytes) -> Seq<u8>;

/// The bytes written to a `BytesMut` so far, oldest first.
pub uninterp spec fn written(buf: BytesMut) -> Seq<u8>;

/// The value of `bytes` read as an unsigned big-endian number.
pub open spec fn big_endian(bytes: Seq<u8>) -> nat
    decreases bytes.len(),
{
    if bytes.len() == 0 {
        0
    } else {
        big_endian(bytes.drop_last()) * 256 + bytes.last() as nat
    }
}

/// `Bytes::len`: the number of bytes not yet consumed.
#[verifier::external_body]
pub(crate) fn remaining(buf: &Bytes) -> (n: usize)
    ensures
        n == unread(*buf).len(),
{
    buf.len()
}

/// Indexing a `Bytes` through its `Deref` to a slice: the byte `index` places
/// after the cursor. The index must be in range, else the call panics.
#[verifier::external_body]
pub(crate) fn peek(buf: &Bytes, index: usize) -> (b: u8)
    requires
        index < unread(*buf).len(),
    ensures
        b == unread(*buf)[index as int],
{
    buf[index]
}

/// `Bytes::slice` from the cursor, copied out: the next `len` bytes, the
/// cursor left where it is. Panics when fewer than `len` bytes are left.
#[verifier::external_body]
pub(crate) fn copy_prefix(buf: &Bytes, len: usize) -> (out: Vec<u8>)
    requires
        len <= unread(*buf).len(),
    ensures
        out@ == unread(*buf).take(len as int),
{
    buf.slice(0..len).to_vec()
}

/// `Buf::advance`: drops the next `count` bytes. Panics when fewer are left.
#[verifier::external_body]
pub(crate) fn advance(buf: &mut Bytes, count: usize)
    requires
        count <= unread(*old(buf)).len(),
    ensures
        unread(*final(buf)) == unread(*old(buf)).skip(count as int),
{
    buf.advance(count)
}

/// `Buf::get_u8`: takes the next byte. Panics on an empty buffer.
#[verifier::external_body]
pub(crate) fn get_u8(buf: &mut Bytes) -> (b: u8)
    requires
        unread(*old(buf)).len() >= 1,
    ensures
        b == unread(*old(buf))[0],
        unread(*final(buf)) == unread(*old(buf)).skip(1),
{
    buf.get_u8()
}

/// `Buf::get_u16`: takes the next two bytes as a big-endian number. Panics
/// when fewer than two bytes are left.
#[verifier::external_body]
pub(crate) fn get_u16(buf: &mut Bytes) -> (v: u16)
    requires
        unread(*old(buf)).len() >= 2,
    ensures
        v == big_endian(unread(*old(buf)).take(2)),
        unread(*final(buf)) == unread(*old(buf)).skip(2),
{
    buf.get_u16()
}

/// `Buf::get_u64`: takes the next eight bytes as a big-endian number. Panics
/// when fewer than eight bytes are left.
#[verifier::external_body]
pub(crate) fn get_u64(buf: &mut Bytes) -> (v: u64)
    requires
        unread(*old(buf)).len() >= 8,
    ensures
        v == big_endian(unread(*old(buf)).take(8)),
        unread(*final(buf)) == unread(*old(buf)).skip(8),
{
    buf.get_u64()
}

/// `BytesMut::new`: an empty buffer.
#[verifier::external_body]
pub(crate) fn new_buffer() -> (buf: BytesMut)
    ensures
        written(buf) == Seq::<u8>::empty(),
{
    BytesMut::new()
}

/// `BufMut::put_slice` on a `BytesMut`: appends `src`. The buffer grows as
/// needed.
#[verifier::external_body]
pub(crate) fn put_slice(buf: &mut BytesMut, src: &[u8])
    ensures
        written(*final(buf)) == written(*old(buf)) + src@,
{
    buf.put_slice(src)
}

/// `BytesMut::len`: the number of bytes written.
#[verifier::external_body]
pub(crate) fn buffer_len(buf: &BytesMut) -> (n: usize)
    ensures
        n == written(*buf).len(),
{
    buf.len()
}

/// The contents of a `BytesMut`, copied out through its `Deref` to a slice.
#[verifier::external_body]
pub(crate) fn buffer_to_vec(buf: &BytesMut) -> (out: Vec<u8>)
    ensures
        out@ == written(*buf),
{
    buf.to_vec()
}

} // verus!
