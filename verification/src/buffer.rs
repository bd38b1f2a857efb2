//! The growable byte buffer of the `bytes` crate, as the encoders use it.
use vstd::prelude::*;
use bytes::BufMut;
use bytes::BytesMut;

verus! {

#[verifier::external_type_specification]
#[verifier::external_body]
pub struct ExBytesMut(BytesMut);

/// The bytes that a `BytesMut` holds, first to last.
pub uninterp spec fn bytes_mut_contents(buf: BytesMut) -> Seq<u8>;

/// The four bytes of `n`, most significant first.
pub open spec fn be_u32_bytes(n: u32) -> Seq<u8> {
    seq![
        (n / 0x100_0000) as u8,
        ((n / 0x1_0000) % 0x100) as u8,
        ((n / 0x100) % 0x100) as u8,
        (n % 0x100) as u8,
    ]
}

/// `BytesMut::new`: the buffer it returns holds no bytes.
#[verifier::external_body]
pub(crate) fn new_buffer() -> (buf: BytesMut)
    ensures
        bytes_mut_contents(buf) == Seq::<u8>::empty(),
{
    BytesMut::new()
}

/// An empty buffer, to encode values into with their `write_to`.
pub fn empty_buffer() -> (buf: BytesMut)
    ensures
        bytes_mut_contents(buf) == Seq::<u8>::empty(),
{
    new_buffer()
}

/// The number of bytes in `buf`, so that a caller can check the room that
/// `write_to` asks for.
pub fn buffer_len(buf: &BytesMut) -> (n: usize)
    ensures
        n == bytes_mut_contents(*buf).len(),
{
    bytes_mut_len(buf)
}

/// `BytesMut::len`: the number of bytes the buffer holds.
#[verifier::external_body]
fn bytes_mut_len(buf: &BytesMut) -> (n: usize)
    ensures
        n == bytes_mut_contents(*buf).len(),
{
    buf.len()
}

/// `BufMut::put_u8` for `BytesMut`: appends the byte.  The buffer panics when it
/// would grow past `isize::MAX` bytes, which `requires` rules out.
#[verifier::external_body]
pub(crate) fn put_u8(buf: &mut BytesMut, n: u8)
    requires
        bytes_mut_contents(*old(buf)).len() + 1 <= isize::MAX,
    ensures
        bytes_mut_contents(*final(buf)) == bytes_mut_contents(*old(buf)).push(n),
{
    buf.put_u8(n)
}

/// `BufMut::put_u32` for `BytesMut`: appends the four bytes of `n` in big-endian
/// order, as its documentation states.  The size limit is that of `put_u8`.
#[verifier::external_body]
pub(crate) fn put_u32(buf: &mut BytesMut, n: u32)
    requires
        bytes_mut_contents(*old(buf)).len() + 4 <= isize::MAX,
    ensures
        bytes_mut_contents(*final(buf)) == bytes_mut_contents(*old(buf)) + be_u32_bytes(n),
{
    buf.put_u32(n)
}

/// `BufMut::put_slice` for `BytesMut` (which calls `extend_from_slice`): appends
/// the bytes of `src` in order.  The size limit is that of `put_u8`.
#[verifier::external_body]
pub(crate) fn put_slice(buf: &mut BytesMut, src: &[u8])
    requires
        bytes_mut_contents(*old(buf)).len() + src@.len() <= isize::MAX,
    ensures
        bytes_mut_contents(*final(buf)) == bytes_mut_contents(*old(buf)) + src@,
{
    buf.put_slice(src)
}

/// `<[u8]>::to_vec` on the buffer's bytes (reached through `Deref`): a vector
/// holding the same bytes in the same order.
#[verifier::external_body]
pub(crate) fn buffer_to_vec(buf: &BytesMut) -> (v: Vec<u8>)
    ensures
        v@ == bytes_mut_contents(*buf),
{
    buf.to_vec()
}

} // verus!
