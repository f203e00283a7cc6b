//! Byte-buffer access through the `bytes` crate.
use bytes::{Buf, BufMut, Bytes};
use vstd::prelude::*;

verus! {

/// Big-endian value of the four bytes starting at `i`.
pub open spec fn be_u32_at(s: Seq<u8>, i: int) -> int {
    0x100_0000 * s[i] + 0x1_0000 * s[i + 1] + 0x100 * s[i + 2] + s[i + 3]
}

/// Little-endian value of the four bytes starting at `i`.
pub open spec fn le_u32_at(s: Seq<u8>, i: int) -> int {
    s[i] + 0x100 * s[i + 1] + 0x1_0000 * s[i + 2] + 0x100_0000 * s[i + 3]
}

/// The four little-endian bytes of `n`.
pub open spec fn le_bytes_u32(n: u32) -> Seq<u8> {
    seq![(n % 0x100) as u8, ((n / 0x100) % 0x100) as u8, ((n / 0x1_0000) % 0x100) as u8, (n / 0x100_0000) as u8]
}

#[verifier::external_type_specification]
#[verifier::external_body]
pub struct ExBytes(Bytes);

/// The bytes that remain to be read from a `Bytes` buffer.
pub uninterp spec fn bytes_contents(b: Bytes) -> Seq<u8>;

/// `Bytes::from(Vec<u8>)`: a buffer whose contents are the vector's bytes.
#[verifier::external_body]
pub(crate) fn bytes_from_vec(v: Vec<u8>) -> (b: Bytes)
    ensures
        bytes_contents(b) == v@,
{
    Bytes::from(v)
}

/// `Buf::remaining` on `Bytes`: the number of bytes left to read.
#[verifier::external_body]
pub(crate) fn bytes_remaining(b: &Bytes) -> (n: usize)
    ensures
        n == bytes_contents(*b).len(),
{
    b.remaining()
}

/// `Buf::has_remaining` on `Bytes`: whether any byte is left to read.
#[verifier::external_body]
pub(crate) fn bytes_has_remaining(b: &Bytes) -> (r: bool)
    ensures
        r == (bytes_contents(*b).len() > 0),
{
    b.has_remaining()
}

/// `Buf::get_u32` on `Bytes`: reads four bytes as a big-endian integer and
/// advances past them. It panics when fewer than four bytes remain, which the
/// precondition rules out.
#[verifier::external_body]
pub(crate) fn bytes_get_u32(b: &mut Bytes) -> (v: u32)
    requires
        bytes_contents(*old(b)).len() >= 4,
    ensures
        v as int == be_u32_at(bytes_contents(*old(b)), 0),
        bytes_contents(*final(b)) == bytes_contents(*old(b)).skip(4),
{
    b.get_u32()
}

/// `Buf::get_u32_le` on `Bytes`: reads four bytes as a little-endian integer
/// and advances past them. It panics when fewer than four bytes remain, which
/// the precondition rules out.
#[verifier::external_body]
pub(crate) fn bytes_get_u32_le(b: &mut Bytes) -> (v: u32)
    requires
        bytes_contents(*old(b)).len() >= 4,
    ensures
        v as int == le_u32_at(bytes_contents(*old(b)), 0),
        bytes_contents(*final(b)) == bytes_contents(*old(b)).skip(4),
{
    b.get_u32_le()
}

/// `Buf::copy_to_bytes` on `Bytes`, turned into a vector: takes the next `n`
/// bytes and advances past them. It panics when fewer than `n` bytes remain,
/// which the precondition rules out.
#[verifier::external_body]
pub(crate) fn bytes_copy_to_vec(b: &mut Bytes, n: usize) -> (v: Vec<u8>)
    requires
        n <= bytes_contents(*old(b)).len(),
    ensures
        v@ == bytes_contents(*old(b)).take(n as int),
        bytes_contents(*final(b)) == bytes_contents(*old(b)).skip(n as int),
{
    b.copy_to_bytes(n).to_vec()
}

/// `BufMut::put_u32_le` on `Vec<u8>`: appends the four little-endian bytes of
/// `n`. For a vector this is `extend_from_slice`, which fails only as any
/// growth of a vector does, when memory runs out.
#[verifier::external_body]
pub(crate) fn vec_put_u32_le(buf: &mut Vec<u8>, n: u32)
    ensures
        final(buf)@ == old(buf)@ + le_bytes_u32(n),
{
    buf.put_u32_le(n)
}

/// `BufMut::put_u8` on `Vec<u8>`: appends one byte. For a vector this is
/// `extend_from_slice`, which fails only as any growth of a vector does, when
/// memory runs out.
#[verifier::external_body]
pub(crate) fn vec_put_u8(buf: &mut Vec<u8>, n: u8)
    ensures
        final(buf)@ == old(buf)@.push(n),
{
    buf.put_u8(n)
}

/// `BufMut::put_slice` on `Vec<u8>`: appends the bytes of `src`. For a vector
/// this is `extend_from_slice`, which fails only as any growth of a vector
/// does, when memory runs out.
#[verifier::external_body]
pub(crate) fn vec_put_slice(buf: &mut Vec<u8>, src: &[u8])
    ensures
        final(buf)@ == old(buf)@ + src@,
{
    buf.put_slice(src)
}

} // verus!
