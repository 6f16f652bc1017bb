//! Walking a run of concatenated record batches. Each batch starts with its
//! base offset (i64, big-endian, at 0) and its length (i32 at 8, counting
//! the bytes after those first 12); a batch shorter than 9 bytes or running
//! past the end stops the walk.
use vstd::prelude::*;
use crate::wire::{be_i32_at, be_i64_at, be_u32, read_be_i32, read_be_i64, read_be_u16};

verus! {

/// A batch length as the walk uses it: the `i32` converted to `usize`.
pub open spec fn batch_len_at(b: Seq<u8>, pos: int) -> int {
    (read_be_i32(b, pos + 8) as usize) as int
}

/// Where the walk of `keep_len_below_offset` stops from `pos`: at the
/// first whole batch whose base offset is `offset` or more, at a malformed
/// or partial batch (length below 9, or running past the end), else at the
/// end of the bytes. `None` when the walk overflows a position.
pub open spec fn cut_below(b: Seq<u8>, pos: int, offset: i64) -> Option<int>
    decreases b.len() - pos,
{
    if pos < 0 || pos + 12 > b.len() {
        Some(b.len() as int)
    } else {
        let lu = batch_len_at(b, pos);
        if pos + 12 + lu > usize::MAX {
            None
        } else if lu < 9 || pos + 12 + lu > b.len() {
            Some(pos)
        } else if read_be_i64(b, pos) >= offset {
            Some(pos)
        } else {
            cut_below(b, pos + 12 + lu, offset)
        }
    }
}

/// The length of the leading whole batches whose base offset is below
/// `offset`: the cut a read-committed fetch makes at the last stable
/// offset. A malformed or partial trailing batch is cut too, keeping only
/// what precedes it; all of `bytes` when every batch is whole and below
/// `offset`.
pub fn keep_len_below_offset(bytes: &[u8], offset: i64) -> (n: usize)
    requires
        cut_below(bytes@, 0, offset) is Some,
    ensures
        n == cut_below(bytes@, 0, offset)->0,
{
    let len = bytes.len();
    let mut pos: usize = 0;
    while pos <= len && len - pos >= 12
        invariant
            len == bytes@.len(),
            cut_below(bytes@, pos as int, offset) == cut_below(bytes@, 0, offset),
            cut_below(bytes@, 0, offset) is Some,
        decreases len - pos,
    {
        let base_offset = be_i64_at(bytes, pos);
        let batch_length = be_i32_at(bytes, pos + 8) as usize;
        let batch_end = match pos.checked_add(12) {
            Some(x) => match x.checked_add(batch_length) {
                Some(e) => e,
                None => {
                    assert(false);
                    return len;
                },
            },
            None => {
                return len;
            },
        };
        if batch_length < 9 || batch_end > len {
            return pos;
        }
        if base_offset >= offset {
            return pos;
        }
        pos = batch_end;
    }
    len
}

/// Whether `keep_len_below_offset` can walk `bytes` for `offset`: no batch
/// position it reaches runs past `usize::MAX`.
pub fn keep_len_walk_fits(bytes: &[u8], offset: i64) -> (b: bool)
    ensures
        b == (cut_below(bytes@, 0, offset) is Some),
{
    let len = bytes.len();
    let mut pos: usize = 0;
    while pos <= len && len - pos >= 12
        invariant
            len == bytes@.len(),
            cut_below(bytes@, pos as int, offset) == cut_below(bytes@, 0, offset),
        decreases len - pos,
    {
        let base_offset = be_i64_at(bytes, pos);
        let batch_length = be_i32_at(bytes, pos + 8) as usize;
        let batch_end = match (pos + 12).checked_add(batch_length) {
            Some(e) => e,
            None => {
                return false;
            },
        };
        if batch_length < 9 || batch_end > len || base_offset >= offset {
            return true;
        }
        pos = batch_end;
    }
    true
}

/// The CRC-32C of `data`.
pub uninterp spec fn crc32c_of(data: Seq<u8>) -> u32;

/// CRC-32C (Castagnoli).
///
/// Calls `crc32c::crc32c`; claims the result is `crc32c_of` of the bytes, a
/// pure function of them.
#[verifier::external_body]
fn crc32c_checksum(data: &[u8]) -> (c: u32)
    ensures
        c == crc32c_of(data@),
{
    crc32c::crc32c(data)
}

/// `b` with the four bytes from `at` replaced by `crc` big-endian.
pub open spec fn with_crc(b: Seq<u8>, at: int, crc: u32) -> Seq<u8> {
    b.subrange(0, at) + be_u32(crc) + b.subrange(at + 4, b.len() as int)
}

/// Whether the batch at `pos` is a control batch of format 2: magic byte 2
/// and attribute bit 0x20 set.
pub open spec fn is_v2_control(b: Seq<u8>, pos: int) -> bool {
    b[pos + 16] == 2 && (read_be_u16(b, pos + 21) & 0x20u16) != 0
}

/// The bytes after `sanitize_batch_crcs` walks them from `pos`: every
/// whole v2 control batch gets the CRC-32C of its attributes-to-end range
/// in its CRC field (bytes 17..21, big-endian). `None` when the walk reads
/// past the end or overflows a position.
pub open spec fn sanitized(b: Seq<u8>, pos: int) -> Option<Seq<u8>>
    decreases b.len() - pos,
{
    if pos < 0 || pos + 21 > b.len() {
        Some(b)
    } else {
        let lu = batch_len_at(b, pos);
        let end = pos + 12 + lu;
        if end > usize::MAX {
            None
        } else if lu < 9 || end > b.len() {
            Some(b)
        } else if pos + 22 >= b.len() {
            None
        } else if is_v2_control(b, pos) {
            sanitized(with_crc(b, pos + 17, crc32c_of(b.subrange(pos + 21, end))), end)
        } else {
            sanitized(b, end)
        }
    }
}

/// Writes `crc` big-endian into the four bytes from `at`.
pub fn write_crc(bytes: &mut Vec<u8>, at: usize, crc: u32)
    requires
        at + 4 <= old(bytes)@.len(),
    ensures
        final(bytes)@ == with_crc(old(bytes)@, at as int, crc),
{
    let n = bytes.len();
    assert(at + 4 <= n);
    bytes.set(at, (crc >> 24u32) as u8);
    bytes.set(at + 1, ((crc >> 16u32) & 0xffu32) as u8);
    bytes.set(at + 2, ((crc >> 8u32) & 0xffu32) as u8);
    bytes.set(at + 3, (crc & 0xffu32) as u8);
    assert(bytes@ =~= with_crc(old(bytes)@, at as int, crc));
}

/// Recomputes the CRC of every v2 control batch in a run of batches, over
/// its attributes-to-end range, leaving every other byte as it is.
pub fn sanitize_batch_crcs(bytes: &mut Vec<u8>)
    requires
        sanitized(old(bytes)@, 0) is Some,
    ensures
        final(bytes)@ == sanitized(old(bytes)@, 0)->0,
{
    let len = bytes.len();
    let mut pos: usize = 0;
    while pos <= len && len - pos >= 21
        invariant
            len == bytes@.len(),
            sanitized(bytes@, pos as int) == sanitized(old(bytes)@, 0),
            sanitized(old(bytes)@, 0) is Some,
        decreases len - pos,
    {
        let batch_length = be_i32_at(bytes.as_slice(), pos + 8) as usize;
        let batch_end = match (pos + 12).checked_add(batch_length) {
            Some(e) => e,
            None => {
                assert(false);
                return;
            },
        };
        if batch_length < 9 || batch_end > len {
            return;
        }
        if pos + 22 >= len {
            assert(false);
            return;
        }
        let magic = bytes[pos + 16];
        let attributes: u16 = ((bytes[pos + 21] as u16) << 8u16) | (bytes[pos + 22] as u16);
        if magic == 2 && (attributes & 0x20u16) != 0 {
            let crc = batch_crc(bytes, pos + 21, batch_end);
            write_crc(bytes, pos + 17, crc);
        }
        pos = batch_end;
    }
}

/// The CRC-32C of the bytes from `from` to `to`.
fn batch_crc(bytes: &Vec<u8>, from: usize, to: usize) -> (c: u32)
    requires
        from <= to <= bytes@.len(),
    ensures
        c == crc32c_of(bytes@.subrange(from as int, to as int)),
{
    let mut part: Vec<u8> = Vec::new();
    let mut i: usize = from;
    while i < to
        invariant
            from <= i <= to,
            to <= bytes@.len(),
            part@ == bytes@.subrange(from as int, i as int),
        decreases to - i,
    {
        part.push(bytes[i]);
        i += 1;
        assert(part@ =~= bytes@.subrange(from as int, i as int));
    }
    crc32c_checksum(part.as_slice())
}

} // verus!
