//! The byte buffers of the `bytes` crate, as the rest of the library sees them.
//!
//! A buffer is known by the bytes it holds and by nothing else: `unread` for a
//! `BytesMut`, `content` for a `Bytes`.

use bytes::{Buf, BufMut, Bytes, BytesMut};
use std::ops::Deref;
use vstd::prelude::*;

verus! {

/// The growable buffer that bytes are read into.
#[verifier::external_type_specification]
#[verifier::external_body]
pub struct ExBytesMut(BytesMut);

/// The immutable, cheaply shared buffer that messages travel in.
#[verifier::external_type_specification]
#[verifier::external_body]
pub struct ExBytes(Bytes);

/// The bytes that a `BytesMut` holds, first to last.
pub uninterp spec fn unread(buffer: BytesMut) -> Seq<u8>;

/// The bytes that a `Bytes` holds, first to last.
pub uninterp spec fn content(buffer: Bytes) -> Seq<u8>;

/// What each of a queue of buffers holds.
pub open spec fn contents(queue: Seq<Bytes>) -> Seq<Seq<u8>> {
    queue.map_values(|buffer: Bytes| content(buffer))
}

/// `BytesMut::new`: the new buffer holds nothing.
pub assume_specification[ BytesMut::new ]() -> (buffer: BytesMut)
    ensures
        unread(buffer) == Seq::<u8>::empty(),
;

/// `BytesMut::len`: how many bytes the buffer holds.
pub assume_specification[ BytesMut::len ](buffer: &BytesMut) -> (len: usize)
    ensures
        len == unread(*buffer).len(),
;

/// `BytesMut::is_empty`: whether the buffer holds nothing.
pub assume_specification[ BytesMut::is_empty ](buffer: &BytesMut) -> (empty: bool)
    ensures
        empty == (unread(*buffer).len() == 0),
;

/// `BytesMut::split_to`: the first `at` bytes leave the buffer and are returned.
/// It panics where the buffer holds fewer.
pub assume_specification[ BytesMut::split_to ](buffer: &mut BytesMut, at: usize) -> (front: BytesMut)
    requires
        at <= unread(*old(buffer)).len(),
    ensures
        unread(front) == unread(*old(buffer)).take(at as int),
        unread(*final(buffer)) == unread(*old(buffer)).skip(at as int),
;

/// `BytesMut::freeze`: the same bytes, no longer changeable.
pub assume_specification[ BytesMut::freeze ](buffer: BytesMut) -> (frozen: Bytes)
    ensures
        content(frozen) == unread(buffer),
;

/// `Bytes::is_empty`: whether the buffer holds nothing.
pub assume_specification[ Bytes::is_empty ](buffer: &Bytes) -> (empty: bool)
    ensures
        empty == (content(*buffer).len() == 0),
;

/// `<BytesMut as Buf>::advance`: the first `count` bytes leave the buffer. It
/// panics where the buffer holds fewer.
pub assume_specification[ <BytesMut as Buf>::advance ](buffer: &mut BytesMut, count: usize)
    requires
        count <= unread(*old(buffer)).len(),
    ensures
        unread(*final(buffer)) == unread(*old(buffer)).skip(count as int),
;

/// `<Bytes as Buf>::advance`: the first `count` bytes leave the buffer. It
/// panics where the buffer holds fewer.
pub assume_specification[ <Bytes as Buf>::advance ](buffer: &mut Bytes, count: usize)
    requires
        count <= content(*old(buffer)).len(),
    ensures
        content(*final(buffer)) == content(*old(buffer)).skip(count as int),
;

/// `<BytesMut as BufMut>::put_slice`: the bytes of `src` follow those that the
/// buffer holds. No allocation holds more than `isize::MAX` bytes, and growing
/// past that panics. How much the buffer allocates beyond what it holds is its own
/// affair, so as with every allocation nothing is said of memory running out
/// before that.
pub assume_specification[ <BytesMut as BufMut>::put_slice ](buffer: &mut BytesMut, src: &[u8])
    requires
        unread(*old(buffer)).len() + src@.len() <= isize::MAX,
    ensures
        unread(*final(buffer)) == unread(*old(buffer)) + src@,
;

/// `<BytesMut as Deref>::deref`: the bytes of the buffer as a slice.
#[verifier::external_body]
pub(crate) fn unread_slice(buffer: &BytesMut) -> (slice: &[u8])
    ensures
        slice@ == unread(*buffer),
{
    buffer.deref()
}

/// `<Bytes as Deref>::deref`: the bytes of the buffer as a slice.
#[verifier::external_body]
pub(crate) fn content_slice(buffer: &Bytes) -> (slice: &[u8])
    ensures
        slice@ == content(*buffer),
{
    buffer.deref()
}

/// `Bytes::from_owner`, on an array of four bytes: a buffer that holds the
/// array's bytes.
#[verifier::external_body]
pub(crate) fn bytes_of(owner: [u8; 4]) -> (buffer: Bytes)
    ensures
        content(buffer) == owner@,
{
    Bytes::from_owner(owner)
}

} // verus!
