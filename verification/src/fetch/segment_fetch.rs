//! Fetching a range that spans stored segments and the in-memory buffer:
//! the segments first, up to the highest offset they hold, then the buffer
//! for what lies beyond. Reading a segment is the caller's work; each step
//! here says what to read next, or folds in what was read.
use vstd::prelude::*;
use crate::fetch::buffer::{BatchView, PartitionBuffer, batches_of, buffer_wf};
use crate::fetch::buffer_read::{key_len, record_size};
use crate::fetch::raw_batch::{BatchParse, RecordView, decode_records_from_raw_batch, lemma_decoded_records_in_range, raw_batch_records};
use crate::fetch::record::{Record, key_view, record_view, records_view};

verus! {

/// A fetch in progress as plain values: the records taken, the next offset
/// wanted, and the bytes counted so far.
pub type FetchProgress = (Seq<RecordView>, i64, int);

/// The progress after taking record `r`: the next offset wanted is the one
/// after it, and its value, key and 24 bytes of overhead are counted.
pub open spec fn with_record(p: FetchProgress, r: RecordView) -> FetchProgress {
    (p.0.push(r), (r.0 + 1) as i64, p.2 + record_size(r))
}

/// Taking `r` neither runs the offset past `i64::MAX` nor the byte count
/// past `usize::MAX`.
pub open spec fn record_fits(p: FetchProgress, r: RecordView) -> bool {
    r.0 < i64::MAX && p.2 + record_size(r) <= usize::MAX
}

/// Taking the records a segment gave, from `j` on: each is taken, and the
/// segment stops after the one that brings the count to `cap`. `None` where
/// a count or offset would overflow.
pub open spec fn take_segment(rs: Seq<RecordView>, j: int, p: FetchProgress, cap: int) -> Option<FetchProgress>
    decreases rs.len() - j,
{
    if j < 0 || j >= rs.len() {
        Some(p)
    } else if !record_fits(p, rs[j]) {
        None
    } else {
        let q = with_record(p, rs[j]);
        if q.2 >= cap { Some(q) } else { take_segment(rs, j + 1, q, cap) }
    }
}

/// Taking every record of a decoded buffer batch, from `j` on.
pub open spec fn take_all(rs: Seq<RecordView>, j: int, p: FetchProgress) -> Option<FetchProgress>
    decreases rs.len() - j,
{
    if j < 0 || j >= rs.len() {
        Some(p)
    } else if !record_fits(p, rs[j]) {
        None
    } else {
        take_all(rs, j + 1, with_record(p, rs[j]))
    }
}

/// Whether a buffered batch is read: it reaches the next offset wanted,
/// starts below the high watermark, and lies past what segments hold.
pub open spec fn batch_selected(b: BatchView, p: FetchProgress, max_segment_offset: i64, high_watermark: i64) -> bool {
    b.1.1 >= p.1 && b.1.0 < high_watermark && b.1.0 > max_segment_offset
}

/// The buffer phase from batch `i` on: each selected batch is decoded from
/// the next offset wanted up to the high watermark and all its records
/// taken, until one whose size would take the count past `cap` while
/// something is taken; a batch that fails to decode is passed over. `None`
/// where the original arithmetic overflows or decoding panics.
pub open spec fn buffer_phase(
    batches: Seq<BatchView>,
    i: int,
    p: FetchProgress,
    max_segment_offset: i64,
    high_watermark: i64,
    cap: int,
) -> Option<FetchProgress>
    decreases batches.len() - i,
{
    if i < 0 || i >= batches.len() {
        Some(p)
    } else if !batch_selected(batches[i], p, max_segment_offset, high_watermark) {
        buffer_phase(batches, i + 1, p, max_segment_offset, high_watermark, cap)
    } else if p.2 + batches[i].1.3 > usize::MAX {
        None
    } else if p.2 + batches[i].1.3 > cap && p.0.len() > 0 {
        Some(p)
    } else {
        match raw_batch_records(batches[i].0, p.1, high_watermark) {
            BatchParse::Records(rs) => match take_all(rs, 0, p) {
                Some(q) => buffer_phase(batches, i + 1, q, max_segment_offset, high_watermark, cap),
                None => None,
            },
            BatchParse::Fail(_) => buffer_phase(batches, i + 1, p, max_segment_offset, high_watermark, cap),
            BatchParse::Panic => None,
        }
    }
}

/// The buffer phase, run only while the next offset wanted is below the
/// high watermark and the count below `cap`.
pub open spec fn after_buffer(
    batches: Seq<BatchView>,
    p: FetchProgress,
    max_segment_offset: i64,
    high_watermark: i64,
    cap: int,
) -> Option<FetchProgress> {
    if p.1 < high_watermark && p.2 < cap {
        buffer_phase(batches, 0, p, max_segment_offset, high_watermark, cap)
    } else {
        Some(p)
    }
}

/// What to do with the next segment.
#[derive(Clone, Copy, Debug, PartialEq, Eq, Structural)]
pub enum SegmentStep {
    /// The byte budget is spent: no more segments.
    Stop,
    /// The segment ends before the next offset wanted.
    Skip,
    /// Read the segment's records in `[from_offset, to_offset)`, within
    /// `max_bytes`.
    Read { from_offset: i64, to_offset: i64, max_bytes: i32 },
}

/// Whether the next segment, ending at `segment_last_offset`, is read.
pub open spec fn reads_segment(p: FetchProgress, segment_last_offset: i64, max_bytes: i32) -> bool {
    !(p.2 >= max_bytes as usize as int && p.0.len() > 0) && segment_last_offset >= p.1
}

/// The step for the next segment: stop once the budget is spent and
/// something is taken, skip a segment that ends before the next offset
/// wanted, else read from that offset up to the high watermark or past the
/// segments' highest offset, whichever is lower, within what is left of the
/// budget.
pub open spec fn segment_step(
    p: FetchProgress,
    segment_last_offset: i64,
    max_segment_offset: i64,
    high_watermark: i64,
    max_bytes: i32,
) -> SegmentStep {
    if p.2 >= max_bytes as usize as int && p.0.len() > 0 {
        SegmentStep::Stop
    } else if segment_last_offset < p.1 {
        SegmentStep::Skip
    } else {
        SegmentStep::Read {
            from_offset: p.1,
            to_offset: if high_watermark < max_segment_offset + 1 { high_watermark } else { (max_segment_offset + 1) as i64 },
            max_bytes: (max_bytes - (p.2 as usize as i32)) as i32,
        }
    }
}

/// A fetch across segments and the buffer.
#[derive(Debug)]
pub struct SegmentFetch {
    pub records: Vec<Record>,
    pub current_offset: i64,
    pub bytes_fetched: usize,
}

/// The highest of the segments' last offsets, -1 when there is none.
pub open spec fn is_max_offset(last_offsets: Seq<i64>, m: i64) -> bool {
    if last_offsets.len() == 0 {
        m == -1
    } else {
        &&& exists|i: int| 0 <= i < last_offsets.len() && last_offsets[i] == m
        &&& forall|i: int| 0 <= i < last_offsets.len() ==> last_offsets[i] <= m
    }
}

/// The highest offset the segments hold: the largest of their last
/// offsets, -1 when there are none.
pub fn max_segment_offset(last_offsets: &Vec<i64>) -> (m: i64)
    ensures
        is_max_offset(last_offsets@, m),
{
    if last_offsets.len() == 0 {
        return -1;
    }
    let mut m = last_offsets[0];
    let mut i: usize = 1;
    while i < last_offsets.len()
        invariant
            1 <= i <= last_offsets@.len(),
            exists|k: int| 0 <= k < i && last_offsets@[k] == m,
            forall|k: int| 0 <= k < i ==> last_offsets@[k] <= m,
        decreases last_offsets.len() - i,
    {
        if last_offsets[i] > m {
            m = last_offsets[i];
        }
        i += 1;
    }
    m
}

impl SegmentFetch {
    /// The fetch as plain values.
    pub open spec fn progress(&self) -> FetchProgress {
        (records_view(self.records@), self.current_offset, self.bytes_fetched as int)
    }

    /// Nothing taken yet; the next offset wanted is `fetch_offset`.
    pub fn new(fetch_offset: i64) -> (f: Self)
        ensures
            f.progress() == (Seq::<RecordView>::empty(), fetch_offset, 0int),
    {
        let f = SegmentFetch { records: Vec::new(), current_offset: fetch_offset, bytes_fetched: 0 };
        assert(records_view(f.records@) =~= Seq::<RecordView>::empty());
        f
    }

    /// What to do with the next segment, which ends at
    /// `segment_last_offset` (see `segment_step`).
    pub fn next_segment(&self, segment_last_offset: i64, max_segment_offset: i64, high_watermark: i64, max_bytes: i32) -> (s: SegmentStep)
        requires
            reads_segment(self.progress(), segment_last_offset, max_bytes) ==> {
                &&& max_segment_offset < i64::MAX
                &&& i32::MIN <= max_bytes - (self.bytes_fetched as i32) <= i32::MAX
            },
        ensures
            s == segment_step(self.progress(), segment_last_offset, max_segment_offset, high_watermark, max_bytes),
    {
        if self.bytes_fetched >= max_bytes as usize && self.records.len() > 0 {
            return SegmentStep::Stop;
        }
        if segment_last_offset < self.current_offset {
            return SegmentStep::Skip;
        }
        let end = max_segment_offset + 1;
        let to_offset = if high_watermark < end { high_watermark } else { end };
        SegmentStep::Read { from_offset: self.current_offset, to_offset, max_bytes: max_bytes - (self.bytes_fetched as i32) }
    }

    fn add_record(&mut self, r: Record)
        requires
            record_fits(old(self).progress(), record_view(r)),
        ensures
            final(self).progress() == with_record(old(self).progress(), record_view(r)),
    {
        let key_bytes: usize = match &r.key {
            Some(k) => k.len(),
            None => 0,
        };
        assert(key_bytes == key_len(key_view(r.key)));
        let size = r.value.len() + key_bytes + 24;
        self.current_offset = r.offset + 1;
        self.bytes_fetched = self.bytes_fetched + size;
        let ghost before = self.records@;
        self.records.push(r);
        assert(records_view(self.records@) =~= records_view(before).push(record_view(r)));
    }

    /// Takes the records a segment gave, in order, stopping after the one
    /// that brings the byte count to `max_bytes` (see `take_segment`).
    pub fn take_segment_records(&mut self, segment_records: Vec<Record>, max_bytes: i32)
        requires
            take_segment(records_view(segment_records@), 0, old(self).progress(), max_bytes as usize as int) is Some,
        ensures
            final(self).progress() == take_segment(records_view(segment_records@), 0, old(self).progress(), max_bytes as usize as int)->0,
    {
        let ghost rs = records_view(segment_records@);
        let ghost cap = max_bytes as usize as int;
        let ghost goal = take_segment(rs, 0, self.progress(), cap);
        let mut rest = segment_records;
        let ghost mut j: int = 0;
        while rest.len() > 0
            invariant_except_break
                goal is Some,
                0 <= j,
                j + rest@.len() == rs.len(),
                records_view(rest@) == rs.subrange(j, rs.len() as int),
                take_segment(rs, j, self.progress(), cap) == goal,
                cap == max_bytes as usize as int,
            ensures
                goal == Some(self.progress()),
            decreases rest@.len(),
        {
            let ghost before = rest@;
            proof {
                assert(records_view(before)[0] == record_view(before[0]));
                assert(rs.subrange(j, rs.len() as int)[0] == rs[j]);
                assert(records_view(before)[0] == rs[j]);
            }
            let r = rest.remove(0);
            assert(records_view(rest@) =~= rs.subrange(j + 1, rs.len() as int)) by {
                assert forall|t: int| 0 <= t < rest@.len() implies records_view(rest@)[t] == rs[j + 1 + t] by {
                    assert(rest@[t] == before[t + 1]);
                    assert(rs.subrange(j, rs.len() as int)[t + 1] == rs[j + 1 + t]);
                    assert(records_view(before)[t + 1] == rs[j + 1 + t]);
                }
            }
            self.add_record(r);
            proof {
                j = j + 1;
            }
            if self.bytes_fetched >= max_bytes as usize {
                break;
            }
        }
    }

    /// Ends the segment phase: the next offset wanted moves past what the
    /// segments hold.
    pub fn end_segment_phase(&mut self, max_segment_offset: i64)
        requires
            max_segment_offset < i64::MAX,
        ensures
            final(self).records@ == old(self).records@,
            final(self).bytes_fetched == old(self).bytes_fetched,
            final(self).current_offset == (if old(self).current_offset > max_segment_offset + 1 {
                old(self).current_offset
            } else {
                (max_segment_offset + 1) as i64
            }),
    {
        let end = max_segment_offset + 1;
        if self.current_offset < end {
            self.current_offset = end;
        }
    }

    fn take_all_records(&mut self, batch_records: Vec<Record>)
        requires
            take_all(records_view(batch_records@), 0, old(self).progress()) is Some,
        ensures
            final(self).progress() == take_all(records_view(batch_records@), 0, old(self).progress())->0,
    {
        let ghost rs = records_view(batch_records@);
        let ghost goal = take_all(rs, 0, self.progress());
        let mut rest = batch_records;
        let ghost mut j: int = 0;
        while rest.len() > 0
            invariant
                goal is Some,
                0 <= j,
                j + rest@.len() == rs.len(),
                records_view(rest@) == rs.subrange(j, rs.len() as int),
                take_all(rs, j, self.progress()) == goal,
            decreases rest@.len(),
        {
            let ghost before = rest@;
            proof {
                assert(records_view(before)[0] == record_view(before[0]));
                assert(rs.subrange(j, rs.len() as int)[0] == rs[j]);
                assert(records_view(before)[0] == rs[j]);
            }
            let r = rest.remove(0);
            assert(records_view(rest@) =~= rs.subrange(j + 1, rs.len() as int)) by {
                assert forall|t: int| 0 <= t < rest@.len() implies records_view(rest@)[t] == rs[j + 1 + t] by {
                    assert(rest@[t] == before[t + 1]);
                    assert(rs.subrange(j, rs.len() as int)[t + 1] == rs[j + 1 + t]);
                    assert(records_view(before)[t + 1] == rs[j + 1 + t]);
                }
            }
            self.add_record(r);
            proof {
                j = j + 1;
            }
        }
    }

    /// The buffer phase over a partition's buffer (see `after_buffer`).
    pub fn take_from_buffer(&mut self, buffer: &PartitionBuffer, max_segment_offset: i64, high_watermark: i64, max_bytes: i32)
        requires
            buffer_wf(*buffer),
            after_buffer(batches_of(*buffer), old(self).progress(), max_segment_offset, high_watermark, max_bytes as usize as int) is Some,
        ensures
            final(self).progress() == after_buffer(batches_of(*buffer), old(self).progress(), max_segment_offset, high_watermark, max_bytes as usize as int)->0,
    {
        let cap = max_bytes as usize;
        if !(self.current_offset < high_watermark && self.bytes_fetched < cap) {
            return;
        }
        let ghost bs = batches_of(*buffer);
        let ghost goal = buffer_phase(bs, 0, self.progress(), max_segment_offset, high_watermark, cap as int);
        let n = buffer.batch_metadata.len();
        let mut i: usize = 0;
        while i < n
            invariant_except_break
                buffer_phase(bs, i as int, self.progress(), max_segment_offset, high_watermark, cap as int) == goal,
            invariant
                n == bs.len(),
                n == buffer.batch_metadata@.len(),
                buffer_wf(*buffer),
                bs == batches_of(*buffer),
                i <= n,
                goal is Some,
                cap == max_bytes as usize,
            ensures
                goal == Some(self.progress()),
            decreases n - i,
        {
            let meta = buffer.batch_metadata[i];
            assert(bs[i as int].1 == (meta.base_offset, meta.last_offset, meta.record_count, meta.size_bytes));
            if meta.last_offset >= self.current_offset && meta.base_offset < high_watermark && meta.base_offset > max_segment_offset {
                if self.bytes_fetched + meta.size_bytes > cap && self.records.len() > 0 {
                    break;
                }
                let raw = &buffer.raw_batches[i];
                assert(bs[i as int].0 == raw@);
                proof {
                    lemma_decoded_records_in_range(raw@, self.current_offset, high_watermark);
                }
                match decode_records_from_raw_batch(raw.as_slice(), self.current_offset, high_watermark) {
                    Ok(batch_records) => {
                        self.take_all_records(batch_records);
                    },
                    Err(_) => {},
                }
            }
            i += 1;
        }
    }
}

} // verus!
