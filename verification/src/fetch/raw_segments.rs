//! Serving raw record batches (their CRCs intact) from a segment's stored
//! batch bytes: the batches are walked by their headers (base offset at 0,
//! batch length at 8, last offset delta at 23; each batch is 12 bytes plus
//! its length), and those overlapping the requested range are copied whole
//! within the byte budget.
use vstd::prelude::*;
use crate::wire::{be_i32_at, be_i64_at, read_be_i32, read_be_i64};

verus! {

/// What walking a segment's batches gives.
pub enum RawScan {
    /// The bytes served so far, this segment's included.
    Bytes(Seq<u8>),
    /// A header whose arithmetic overflows, or a batch running past the
    /// end: the walk panics.
    Panic,
}

/// Walks the batches of `b` from `pos`, `taken` being what was served
/// before: a batch overlapping `[fetch_offset, high_watermark)` is copied
/// unless it would take the total past `cap` while something is already
/// taken (the walk of this segment then ends); other batches are stepped
/// over. The walk ends when fewer than 61 bytes remain.
pub open spec fn raw_segment_scan(b: Seq<u8>, pos: int, taken: Seq<u8>, fetch_offset: i64, high_watermark: i64, cap: int) -> RawScan
    decreases b.len() - pos,
{
    if pos < 0 || pos >= b.len() || b.len() - pos < 61 {
        RawScan::Bytes(taken)
    } else {
        let base = read_be_i64(b, pos);
        let last = base + read_be_i32(b, pos + 8 + 15) as int;
        let total = 12 + (read_be_i32(b, pos + 8) as usize) as int;
        if last < i64::MIN || last > i64::MAX || total > usize::MAX {
            RawScan::Panic
        } else if last >= fetch_offset && base < high_watermark {
            if taken.len() + total > usize::MAX {
                RawScan::Panic
            } else if taken.len() + total > cap && taken.len() > 0 {
                RawScan::Bytes(taken)
            } else if pos + total > b.len() {
                RawScan::Panic
            } else {
                raw_segment_scan(b, pos + total, taken + b.subrange(pos, pos + total), fetch_offset, high_watermark, cap)
            }
        } else if pos + total > usize::MAX {
            RawScan::Panic
        } else if pos + total >= b.len() {
            RawScan::Bytes(taken)
        } else {
            raw_segment_scan(b, pos + total, taken, fetch_offset, high_watermark, cap)
        }
    }
}

/// Appends to `combined` the batches of one segment's stored bytes that
/// overlap `[fetch_offset, high_watermark)`, within `max_bytes` in all (see
/// `raw_segment_scan`).
pub fn append_raw_segment_batches(combined: &mut Vec<u8>, raw: &[u8], fetch_offset: i64, high_watermark: i64, max_bytes: i32)
    requires
        raw_segment_scan(raw@, 0, old(combined)@, fetch_offset, high_watermark, max_bytes as usize as int) is Bytes,
    ensures
        final(combined)@ == raw_segment_scan(raw@, 0, old(combined)@, fetch_offset, high_watermark, max_bytes as usize as int)->Bytes_0,
{
    let cap = max_bytes as usize;
    let ghost goal = raw_segment_scan(raw@, 0, combined@, fetch_offset, high_watermark, cap as int);
    let len = raw.len();
    let mut pos: usize = 0;
    let mut stop = false;
    while pos < len && !stop
        invariant
            len == raw@.len(),
            goal is Bytes,
            !stop ==> raw_segment_scan(raw@, pos as int, combined@, fetch_offset, high_watermark, cap as int) == goal,
            stop ==> combined@ == goal->Bytes_0,
        decreases (if pos <= len { len - pos } else { 0int }) * 2 + if stop { 0int } else { 1int },
    {
        if len - pos < 61 {
            stop = true;
        } else {
            let base = be_i64_at(raw, pos);
            let batch_length = be_i32_at(raw, pos + 8);
            let last_offset_delta = be_i32_at(raw, pos + 23);
            assert(pos + 8 + 15 == pos + 23);
            let total = 12 + batch_length as usize;
            let last = base + last_offset_delta as i64;
            if last >= fetch_offset && base < high_watermark {
                if combined.len() + total > cap && combined.len() > 0 {
                    stop = true;
                } else {
                    let end = pos + total;
                    let ghost before = combined@;
                    combined.extend_from_slice(&raw[pos..end]);
                    assert(combined@ =~= before + raw@.subrange(pos as int, end as int));
                    pos = end;
                }
            } else {
                pos = pos + total;
            }
        }
    }
    proof {
        if !stop {
            assert(raw_segment_scan(raw@, pos as int, combined@, fetch_offset, high_watermark, cap as int) == RawScan::Bytes(combined@));
        }
    }
}

/// Whether `append_raw_segment_batches` can walk `raw` after `combined`:
/// no header's arithmetic overflows and no copied batch runs past the end.
pub fn raw_segment_walk_fits(combined: &Vec<u8>, raw: &[u8], fetch_offset: i64, high_watermark: i64, max_bytes: i32) -> (b: bool)
    ensures
        b == (raw_segment_scan(raw@, 0, combined@, fetch_offset, high_watermark, max_bytes as usize as int) is Bytes),
{
    let cap = max_bytes as usize;
    let ghost goal = raw_segment_scan(raw@, 0, combined@, fetch_offset, high_watermark, cap as int);
    let ghost mut taken: Seq<u8> = combined@;
    let mut taken_len: usize = combined.len();
    let len = raw.len();
    let mut pos: usize = 0;
    while pos < len
        invariant
            len == raw@.len(),
            taken_len == taken.len(),
            goal == raw_segment_scan(raw@, 0, combined@, fetch_offset, high_watermark, max_bytes as usize as int),
            raw_segment_scan(raw@, pos as int, taken, fetch_offset, high_watermark, cap as int) == goal,
            cap == max_bytes as usize,
        decreases len - pos,
    {
        if len - pos < 61 {
            return true;
        }
        let base = be_i64_at(raw, pos);
        let batch_length = be_i32_at(raw, pos + 8);
        let last_offset_delta = be_i32_at(raw, pos + 23);
        assert(pos + 8 + 15 == pos + 23);
        let total = match (batch_length as usize).checked_add(12) {
            Some(t) => t,
            None => {
                return false;
            },
        };
        let last = match base.checked_add(last_offset_delta as i64) {
            Some(l) => l,
            None => {
                return false;
            },
        };
        if last >= fetch_offset && base < high_watermark {
            let grown = match taken_len.checked_add(total) {
                Some(g) => g,
                None => {
                    return false;
                },
            };
            if grown > cap && taken_len > 0 {
                return true;
            }
            if total > len - pos {
                return false;
            }
            proof {
                taken = taken + raw@.subrange(pos as int, pos + total);
            }
            taken_len = grown;
            pos = pos + total;
        } else {
            let next = match pos.checked_add(total) {
                Some(n) => n,
                None => {
                    return false;
                },
            };
            if next >= len {
                return true;
            }
            pos = next;
        }
    }
    true
}

} // verus!
