//! Big-endian integer layout on byte sequences, and the byte-order calls
//! that write and read it.
use vstd::prelude::*;
use byteorder::{BigEndian, ByteOrder, WriteBytesExt};

verus! {

/// The two bytes of `n` in network (big-endian) order.
pub open spec fn be_i16(n: i16) -> Seq<u8> {
    seq![((n as u16) >> 8u16) as u8, ((n as u16) & 0xffu16) as u8]
}

/// The four bytes of `n` in network (big-endian) order.
pub open spec fn be_i32(n: i32) -> Seq<u8> {
    seq![
        ((n as u32) >> 24u32) as u8,
        (((n as u32) >> 16u32) & 0xffu32) as u8,
        (((n as u32) >> 8u32) & 0xffu32) as u8,
        ((n as u32) & 0xffu32) as u8,
    ]
}

/// The 16-bit signed integer stored big-endian at `pos`.
pub open spec fn read_be_i16(b: Seq<u8>, pos: int) -> i16 {
    ((((b[pos] as u16) << 8u16) | (b[pos + 1] as u16)) as i16)
}

/// The 32-bit signed integer stored big-endian at `pos`.
pub open spec fn read_be_i32(b: Seq<u8>, pos: int) -> i32 {
    u32_of_be(b[pos], b[pos + 1], b[pos + 2], b[pos + 3]) as i32
}

pub open spec fn u32_of_be(b0: u8, b1: u8, b2: u8, b3: u8) -> u32 {
    ((b0 as u32) << 24u32) | ((b1 as u32) << 16u32) | ((b2 as u32) << 8u32) | (b3 as u32)
}

/// The 64-bit signed integer stored big-endian at `pos`.
pub open spec fn read_be_i64(b: Seq<u8>, pos: int) -> i64 {
    (((u32_of_be(b[pos], b[pos + 1], b[pos + 2], b[pos + 3]) as u64) << 32u64)
        | (u32_of_be(b[pos + 4], b[pos + 5], b[pos + 6], b[pos + 7]) as u64)) as i64
}

proof fn lemma_i16_bits(n: i16)
    ensures
        ((((((n as u16) >> 8u16) as u8) as u16) << 8u16) | ((((n as u16) & 0xffu16) as u8)
            as u16)) as i16 == n,
{
    assert(((((((n as u16) >> 8u16) as u8) as u16) << 8u16) | ((((n as u16) & 0xffu16) as u8)
        as u16)) as i16 == n) by (bit_vector);
}

proof fn lemma_i32_bits(n: i32)
    ensures
        (((((((n as u32) >> 24u32) as u8) as u32) << 24u32) | (((((n as u32) >> 16u32)
            & 0xffu32) as u8) as u32) << 16u32 | (((((n as u32) >> 8u32) & 0xffu32) as u8)
            as u32) << 8u32 | ((((n as u32) & 0xffu32) as u8) as u32)) as i32) == n,
{
    assert((((((((n as u32) >> 24u32) as u8) as u32) << 24u32) | (((((n as u32) >> 16u32)
        & 0xffu32) as u8) as u32) << 16u32 | (((((n as u32) >> 8u32) & 0xffu32) as u8) as u32)
        << 8u32 | ((((n as u32) & 0xffu32) as u8) as u32)) as i32) == n) by (bit_vector);
}

/// Reading back what was written: a big-endian `i16` laid at `pos` reads as itself.
pub proof fn lemma_read_be_i16(b: Seq<u8>, pos: int, n: i16)
    requires
        0 <= pos,
        pos + 2 <= b.len(),
        b.subrange(pos, pos + 2) == be_i16(n),
    ensures
        read_be_i16(b, pos) == n,
{
    assert(b[pos] == b.subrange(pos, pos + 2)[0]);
    assert(b[pos + 1] == b.subrange(pos, pos + 2)[1]);
    lemma_i16_bits(n);
}

/// Reading back what was written: a big-endian `i32` laid at `pos` reads as itself.
pub proof fn lemma_read_be_i32(b: Seq<u8>, pos: int, n: i32)
    requires
        0 <= pos,
        pos + 4 <= b.len(),
        b.subrange(pos, pos + 4) == be_i32(n),
    ensures
        read_be_i32(b, pos) == n,
{
    assert(b[pos] == b.subrange(pos, pos + 4)[0]);
    assert(b[pos + 1] == b.subrange(pos, pos + 4)[1]);
    assert(b[pos + 2] == b.subrange(pos, pos + 4)[2]);
    assert(b[pos + 3] == b.subrange(pos, pos + 4)[3]);
    lemma_i32_bits(n);
}

/// Appends the big-endian bytes of `n` (as `i16::to_be_bytes` lays them).
pub fn push_be_i16(buf: &mut Vec<u8>, n: i16)
    ensures
        final(buf)@ == old(buf)@ + be_i16(n),
{
    let u = n as u16;
    buf.push((u >> 8u16) as u8);
    buf.push((u & 0xffu16) as u8);
    assert(buf@ =~= old(buf)@ + be_i16(n));
}

/// Appends the big-endian bytes of `n` (as `i32::to_be_bytes` lays them).
pub fn push_be_i32(buf: &mut Vec<u8>, n: i32)
    ensures
        final(buf)@ == old(buf)@ + be_i32(n),
{
    let u = n as u32;
    buf.push((u >> 24u32) as u8);
    buf.push(((u >> 16u32) & 0xffu32) as u8);
    buf.push(((u >> 8u32) & 0xffu32) as u8);
    buf.push((u & 0xffu32) as u8);
    assert(buf@ =~= old(buf)@ + be_i32(n));
}

/// Appends `n` to `buf` in big-endian order.
///
/// Calls `byteorder::WriteBytesExt::write_i16::<BigEndian>` on the vector;
/// claims that exactly the two big-endian bytes of `n` are appended (writing
/// into a `Vec<u8>` cannot fail).
#[verifier::external_body]
pub(crate) fn put_i16(buf: &mut Vec<u8>, n: i16)
    ensures
        final(buf)@ == old(buf)@ + be_i16(n),
{
    buf.write_i16::<BigEndian>(n).unwrap();
}

/// Appends `n` to `buf` in big-endian order.
///
/// Calls `byteorder::WriteBytesExt::write_i32::<BigEndian>` on the vector;
/// claims that exactly the four big-endian bytes of `n` are appended.
#[verifier::external_body]
pub(crate) fn put_i32(buf: &mut Vec<u8>, n: i32)
    ensures
        final(buf)@ == old(buf)@ + be_i32(n),
{
    buf.write_i32::<BigEndian>(n).unwrap();
}

/// Reads the big-endian `i16` at `pos`.
///
/// Calls `byteorder::BigEndian::read_i16` on the two bytes from `pos`; claims
/// the result is their big-endian value. It panics on fewer than two bytes,
/// which `requires` rules out.
#[verifier::external_body]
pub(crate) fn get_i16(b: &[u8], pos: usize) -> (r: i16)
    requires
        pos + 2 <= b@.len(),
    ensures
        r == read_be_i16(b@, pos as int),
{
    BigEndian::read_i16(&b[pos..pos + 2])
}

/// Reads the big-endian `i32` at `pos`.
///
/// Calls `byteorder::BigEndian::read_i32` on the four bytes from `pos`;
/// claims the result is their big-endian value. It panics on fewer than four
/// bytes, which `requires` rules out.
#[verifier::external_body]
pub(crate) fn get_i32(b: &[u8], pos: usize) -> (r: i32)
    requires
        pos + 4 <= b@.len(),
    ensures
        r == read_be_i32(b@, pos as int),
{
    BigEndian::read_i32(&b[pos..pos + 4])
}

/// The big-endian `i16` at `pos`, as `i16::from_be_bytes` reads it.
pub fn be_i16_at(b: &[u8], pos: usize) -> (v: i16)
    requires
        pos + 2 <= b@.len(),
    ensures
        v == read_be_i16(b@, pos as int),
{
    (((b[pos] as u16) << 8u16) | (b[pos + 1] as u16)) as i16
}

/// The big-endian `i32` at `pos`, as `i32::from_be_bytes` reads it.
pub fn be_i32_at(b: &[u8], pos: usize) -> (v: i32)
    requires
        pos + 4 <= b@.len(),
    ensures
        v == read_be_i32(b@, pos as int),
{
    let u: u32 = ((b[pos] as u32) << 24u32) | ((b[pos + 1] as u32) << 16u32) | ((b[pos + 2] as u32) << 8u32) | (b[pos + 3] as u32);
    u as i32
}

/// The big-endian `i64` at `pos`, as `i64::from_be_bytes` reads it.
pub fn be_i64_at(b: &[u8], pos: usize) -> (v: i64)
    requires
        pos + 8 <= b@.len(),
    ensures
        v == read_be_i64(b@, pos as int),
{
    let hi: u32 = ((b[pos] as u32) << 24u32) | ((b[pos + 1] as u32) << 16u32) | ((b[pos + 2] as u32) << 8u32) | (b[pos + 3] as u32);
    let lo: u32 = ((b[pos + 4] as u32) << 24u32) | ((b[pos + 5] as u32) << 16u32) | ((b[pos + 6] as u32) << 8u32) | (b[pos + 7] as u32);
    (((hi as u64) << 32u64) | (lo as u64)) as i64
}

/// The big-endian `u16` at `pos`.
pub open spec fn read_be_u16(b: Seq<u8>, pos: int) -> u16 {
    ((b[pos] as u16) << 8u16) | (b[pos + 1] as u16)
}

/// The four bytes of `n` in network (big-endian) order.
pub open spec fn be_u32(n: u32) -> Seq<u8> {
    seq![(n >> 24u32) as u8, ((n >> 16u32) & 0xffu32) as u8, ((n >> 8u32) & 0xffu32) as u8, (n & 0xffu32) as u8]
}

} // verus!
