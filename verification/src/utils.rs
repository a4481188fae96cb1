//! Fixed-width integers on the wire: big-endian, the high byte first.

use bytes::{Buf, BufMut};
use vstd::prelude::*;

verus! {

/// The width of an offset or a length inside a block or a table index.
pub const SIZEOF_U16: usize = 2;

/// The width of a block offset inside a table file.
pub const SIZEOF_USIZE: usize = 4;

/// The number that two bytes spell, the high byte first.
pub open spec fn u16_of(hi: u8, lo: u8) -> u16 {
    (hi as int * 256 + lo as int) as u16
}

/// The two bytes that spell `n`, the high byte first.
pub open spec fn be16(n: u16) -> Seq<u8> {
    seq![(n / 256) as u8, (n % 256) as u8]
}

/// The number that four bytes spell, the high byte first.
pub open spec fn u32_of(b0: u8, b1: u8, b2: u8, b3: u8) -> u32 {
    (b0 as int * 16777216 + b1 as int * 65536 + b2 as int * 256 + b3 as int) as u32
}

/// The four bytes that spell `n`, the high byte first.
pub open spec fn be32(n: u32) -> Seq<u8> {
    seq![
        (n / 16777216) as u8,
        ((n / 65536) % 256) as u8,
        ((n / 256) % 256) as u8,
        (n % 256) as u8,
    ]
}

/// Reading back the bytes of a number gives the number.
pub proof fn lemma_be16_round_trip(n: u16)
    ensures
        be16(n).len() == 2,
        u16_of(be16(n)[0], be16(n)[1]) == n,
{
}

/// Reading back the bytes of a number gives the number.
pub proof fn lemma_be32_round_trip(n: u32)
    ensures
        be32(n).len() == 4,
        u32_of(be32(n)[0], be32(n)[1], be32(n)[2], be32(n)[3]) == n,
{
}

/// Reads the number that a slice of two bytes spells.
pub fn two_u8_to_u16(slice: &[u8]) -> (n: u16)
    requires
        slice@.len() == 2,
    ensures
        n == u16_of(slice@[0], slice@[1]),
{
    let hi: u16 = slice[0] as u16;
    let lo: u16 = slice[1] as u16;
    assert((hi << 8) | lo == hi * 256 + lo) by (bit_vector)
        requires
            hi < 256,
            lo < 256,
    ;
    (hi << 8) | lo
}

/// `bytes::BufMut::put_u16` on a vector: the two bytes of `n` are appended,
/// the high byte first, and nothing else changes.
#[verifier::external_body]
pub(crate) fn put_u16(buf: &mut Vec<u8>, n: u16)
    ensures
        final(buf)@ == old(buf)@ + be16(n),
{
    buf.put_u16(n)
}

/// `bytes::BufMut::put_u32` on a vector: the four bytes of `n` are appended,
/// the high byte first, and nothing else changes.
#[verifier::external_body]
pub(crate) fn put_u32(buf: &mut Vec<u8>, n: u32)
    ensures
        final(buf)@ == old(buf)@ + be32(n),
{
    buf.put_u32(n)
}

/// `bytes::Buf::get_u16` on a slice: the number that its first two bytes
/// spell, the high byte first. The call needs two bytes to read.
#[verifier::external_body]
pub(crate) fn get_u16(bytes: &[u8]) -> (n: u16)
    requires
        bytes@.len() >= 2,
    ensures
        n == u16_of(bytes@[0], bytes@[1]),
{
    let mut cursor = bytes;
    cursor.get_u16()
}

/// `bytes::Buf::get_u32` on a slice: the number that its first four bytes
/// spell, the high byte first. The call needs four bytes to read.
#[verifier::external_body]
pub(crate) fn get_u32(bytes: &[u8]) -> (n: u32)
    requires
        bytes@.len() >= 4,
    ensures
        n == u32_of(bytes@[0], bytes@[1], bytes@[2], bytes@[3]),
{
    let mut cursor = bytes;
    cursor.get_u32()
}

/// Appends a copy of `src` to `buf`.
pub fn put_slice(buf: &mut Vec<u8>, src: &[u8])
    ensures
        final(buf)@ == old(buf)@ + src@,
{
    buf.extend_from_slice(src);
    assert(buf@ =~= old(buf)@ + src@);
}

} // verus!
