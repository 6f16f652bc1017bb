//! Indexed segment records: the framing of format v3 (each batch behind a
//! big-endian u32 length) and the shift of relative offsets to absolute.
use vstd::prelude::*;
use crate::wire::u32_of_be;
use crate::fetch::record::{Record, record_view};

verus! {

/// The big-endian `u32` at `pos`.
pub open spec fn read_be_u32(b: Seq<u8>, pos: int) -> u32 {
    u32_of_be(b[pos], b[pos + 1], b[pos + 2], b[pos + 3])
}

/// The `[start, end)` ranges of the length-prefixed batches from `cursor`,
/// in order, up to the first prefix that does not fit or batch that runs
/// past the end.
pub open spec fn v3_frames_from(b: Seq<u8>, cursor: int) -> Seq<(int, int)>
    decreases b.len() - cursor,
{
    if cursor < 0 || cursor >= b.len() || cursor + 4 > b.len() {
        Seq::empty()
    } else {
        let start = cursor + 4;
        let end = start + read_be_u32(b, cursor) as int;
        if end > b.len() {
            Seq::empty()
        } else {
            seq![(start, end)] + v3_frames_from(b, end)
        }
    }
}

/// Whether relative offsets get shifted: a positive base offset and a first
/// record below it.
pub open spec fn needs_adjustment(offsets: Seq<i64>, base_offset: i64) -> bool {
    base_offset > 0 && offsets.len() > 0 && offsets[0] < base_offset
}

/// Decodes the indexed records of segments.
pub struct IndexedRecordDecoder;

impl IndexedRecordDecoder {
    /// The batch ranges of a v3 segment's indexed records, in order; the
    /// caller decodes them in turn and stops at the first that fails.
    pub fn v3_batch_frames(data: &[u8]) -> (frames: Vec<(usize, usize)>)
        ensures
            frames@.len() == v3_frames_from(data@, 0).len(),
            forall|i: int| 0 <= i < frames@.len() ==>
                (#[trigger] frames@[i]).0 == v3_frames_from(data@, 0)[i].0 && frames@[i].1 == v3_frames_from(data@, 0)[i].1,
    {
        let total = data.len();
        let mut frames: Vec<(usize, usize)> = Vec::new();
        let mut cursor: usize = 0;
        let ghost mut done: Seq<(int, int)> = Seq::empty();
        let mut stop = false;
        while cursor < total && !stop
            invariant
                stop ==> v3_frames_from(data@, cursor as int) == Seq::<(int, int)>::empty(),
                total == data@.len(),
                cursor <= total,
                done + v3_frames_from(data@, cursor as int) == v3_frames_from(data@, 0),
                frames@.len() == done.len(),
                forall|i: int| 0 <= i < frames@.len() ==> (#[trigger] frames@[i]).0 == done[i].0 && frames@[i].1 == done[i].1,
            decreases (total - cursor) * 2 + if stop { 0int } else { 1int },
        {
            if total - cursor < 4 {
                stop = true;
            } else {
                let len = u32_of_be_exec(data, cursor) as usize;
                let start = cursor + 4;
                if len > total - start {
                    stop = true;
                } else {
                    let end = start + len;
                    proof {
                        assert(v3_frames_from(data@, cursor as int) == seq![(start as int, end as int)] + v3_frames_from(data@, end as int));
                        assert(done + v3_frames_from(data@, cursor as int) =~= done.push((start as int, end as int)) + v3_frames_from(data@, end as int));
                        done = done.push((start as int, end as int));
                    }
                    frames.push((start, end));
                    cursor = end;
                }
            }
        }
        proof {
            assert(v3_frames_from(data@, cursor as int) =~= Seq::<(int, int)>::empty());
            assert(done + Seq::<(int, int)>::empty() =~= done);
        }
        frames
    }

    /// Shifts every offset by `base_offset` when the records look relative:
    /// the base offset is positive and the first record lies below it.
    /// Otherwise nothing changes.
    pub fn adjust_record_offsets(records: &mut Vec<Record>, base_offset: i64)
        requires
            needs_adjustment(old(records)@.map_values(|r: Record| r.offset), base_offset) ==>
                forall|i: int| 0 <= i < old(records)@.len() ==> (#[trigger] old(records)@[i]).offset + base_offset <= i64::MAX,
        ensures
            final(records)@.len() == old(records)@.len(),
            forall|i: int| 0 <= i < old(records)@.len() ==> {
                let before = record_view(#[trigger] old(records)@[i]);
                let after = record_view(final(records)@[i]);
                &&& after.0 == if needs_adjustment(old(records)@.map_values(|r: Record| r.offset), base_offset) {
                    (before.0 + base_offset) as i64
                } else {
                    before.0
                }
                &&& (after.1, after.2, after.3, after.4) == (before.1, before.2, before.3, before.4)
            },
    {
        if base_offset > 0 && records.len() > 0 && records[0].offset < base_offset {
            assert(needs_adjustment(old(records)@.map_values(|r: Record| r.offset), base_offset));
            let n = records.len();
            let mut i: usize = 0;
            while i < n
                invariant
                    n == records@.len(),
                    n == old(records)@.len(),
                    i <= n,
                    forall|j: int| 0 <= j < n ==> (#[trigger] old(records)@[j]).offset + base_offset <= i64::MAX,
                    base_offset > 0,
                    forall|j: int| 0 <= j < i ==> (#[trigger] records@[j]).offset == old(records)@[j].offset + base_offset,
                    forall|j: int| i <= j < n ==> (#[trigger] records@[j]).offset == old(records)@[j].offset,
                    forall|j: int| 0 <= j < n ==> {
                        let a = record_view(#[trigger] records@[j]);
                        let b = record_view(old(records)@[j]);
                        (a.1, a.2, a.3, a.4) == (b.1, b.2, b.3, b.4)
                    },
                decreases n - i,
            {
                let o = records[i].offset;
                records[i].offset = o + base_offset;
                i += 1;
            }
        }
    }
}

/// The big-endian `u32` at `pos`.
fn u32_of_be_exec(b: &[u8], pos: usize) -> (v: u32)
    requires
        pos + 4 <= b@.len(),
    ensures
        v == read_be_u32(b@, pos as int),
{
    ((b[pos] as u32) << 24u32) | ((b[pos + 1] as u32) << 16u32) | ((b[pos + 2] as u32) << 8u32) | (b[pos + 3] as u32)
}

} // verus!
