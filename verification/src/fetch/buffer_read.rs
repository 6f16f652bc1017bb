//! Serving a fetch from a partition's buffer: the batches that overlap the
//! requested range `[fetch_offset, high_watermark)`, in order, up to the
//! byte budget. A batch or record that would go past the budget is left out
//! unless nothing has been taken yet, so a fetch always makes progress.
use vstd::prelude::*;
use crate::consumer_group::group::key_lookup;
use crate::fetch::buffer::{BatchView, PartitionBuffer, PartitionBuffers, batches_of, buffer_wf};
use crate::fetch::raw_batch::{BatchParse, RecordView, all_in_range, decode_records_from_raw_batch, lemma_decoded_records_in_range, raw_batch_records};
use crate::fetch::record::{Record, record_view, records_view};

verus! {

/// Whether a buffered batch holds offsets of `[fetch_offset, high_watermark)`.
pub open spec fn overlaps(b: BatchView, fetch_offset: i64, high_watermark: i64) -> bool {
    b.1.1 >= fetch_offset && b.1.0 < high_watermark
}

/// The raw bytes served from batch `i` on, `taken` being what earlier
/// batches gave: each overlapping batch is appended whole, until one would
/// take the total past `cap` while something is already taken.
pub open spec fn raw_from(
    batches: Seq<BatchView>,
    i: int,
    taken: Seq<u8>,
    fetch_offset: i64,
    high_watermark: i64,
    cap: int,
) -> Seq<u8>
    decreases batches.len() - i,
{
    if i < 0 || i >= batches.len() {
        taken
    } else if !overlaps(batches[i], fetch_offset, high_watermark) {
        raw_from(batches, i + 1, taken, fetch_offset, high_watermark, cap)
    } else if taken.len() + batches[i].0.len() > cap && taken.len() > 0 {
        taken
    } else {
        raw_from(batches, i + 1, taken + batches[i].0, fetch_offset, high_watermark, cap)
    }
}

/// The length of an optional key, 0 when absent.
pub open spec fn key_len(k: Option<Seq<u8>>) -> int {
    match k {
        Some(b) => b.len() as int,
        None => 0,
    }
}

/// The bytes a record is counted as: value, key and 24 bytes of overhead.
pub open spec fn record_size(r: RecordView) -> int {
    r.3.len() + key_len(r.2) + 24
}

/// What a buffer fetch has gathered: records, bytes counted, highest offset.
pub type Gathered = (Seq<RecordView>, int, i64);

/// Whether a partition's buffer, if it has one, decodes for the range as
/// `decodable` says.
pub open spec fn buffer_decodable(
    entries: Seq<((Seq<char>, i32), (Seq<BatchView>, i64, i64, i64, i64))>,
    topic: Seq<char>,
    partition: i32,
    fetch_offset: i64,
    high_watermark: i64,
) -> bool {
    match key_lookup(entries, (topic, partition)) {
        Some(v) => decodable(v.0, fetch_offset, high_watermark),
        None => true,
    }
}

impl PartitionBuffers {
    /// The raw bytes a partition's buffer serves for the range (see
    /// `PartitionBuffer::raw_in_range`); `None` without a buffer.
    pub fn try_fetch_raw_from_buffer(&self, topic: &str, partition: i32, fetch_offset: i64, high_watermark: i64, max_bytes: i32) -> (r: Option<Vec<u8>>)
        requires
            self.wf(),
        ensures
            match key_lookup(self.entries(), (topic@, partition)) {
                Some(v) => {
                    let all = raw_from(v.0, 0, Seq::empty(), fetch_offset, high_watermark, max_bytes as usize as int);
                    if all.len() > 0 { r matches Some(bytes) && bytes@ == all } else { r is None }
                },
                None => r is None,
            },
    {
        match self.get(topic, partition) {
            Some(b) => b.raw_in_range(fetch_offset, high_watermark, max_bytes),
            None => None,
        }
    }

    /// The records a partition's buffer serves for the range, the bytes
    /// counted, the highest offset taken and the buffer's lowest offset (see
    /// `PartitionBuffer::records_in_range`); nothing, 0, -1 and -1 without a
    /// buffer.
    pub fn fetch_from_buffer(&self, topic: &str, partition: i32, fetch_offset: i64, high_watermark: i64, max_bytes: i32) -> (r: (Vec<Record>, usize, i64, i64))
        requires
            self.wf(),
            buffer_decodable(self.entries(), topic@, partition, fetch_offset, high_watermark),
        ensures
            match key_lookup(self.entries(), (topic@, partition)) {
                Some(v) => {
                    let g = records_from(v.0, 0, (Seq::empty(), 0, -1i64), fetch_offset, high_watermark, max_bytes as usize as int);
                    &&& records_view(r.0@) == g.0
                    &&& r.1 == g.1
                    &&& r.2 == g.2
                    &&& r.3 == v.4
                },
                None => r.0@.len() == 0 && r.1 == 0 && r.2 == -1 && r.3 == -1,
            },
    {
        match self.get(topic, partition) {
            Some(b) => b.records_in_range(fetch_offset, high_watermark, max_bytes),
            None => (Vec::new(), 0, -1, -1),
        }
    }
}

/// Takes the records of one decoded batch from `j` on into `g`: each is
/// added, until one would take the byte count past `cap` while some record
/// is already taken; the rest of that batch is then left.
pub open spec fn take_from(rs: Seq<RecordView>, j: int, g: Gathered, cap: int) -> Gathered
    decreases rs.len() - j,
{
    if j < 0 || j >= rs.len() {
        g
    } else if g.1 + record_size(rs[j]) > cap && g.0.len() > 0 {
        g
    } else {
        let r = rs[j];
        take_from(rs, j + 1, (g.0.push(r), g.1 + record_size(r), if r.0 > g.2 { r.0 } else { g.2 }), cap)
    }
}

/// The records served from batch `i` on: each overlapping batch is decoded
/// for the range and its records taken; a batch that fails to decode is
/// passed over.
pub open spec fn records_from(
    batches: Seq<BatchView>,
    i: int,
    g: Gathered,
    fetch_offset: i64,
    high_watermark: i64,
    cap: int,
) -> Gathered
    decreases batches.len() - i,
{
    if i < 0 || i >= batches.len() {
        g
    } else if overlaps(batches[i], fetch_offset, high_watermark) {
        match raw_batch_records(batches[i].0, fetch_offset, high_watermark) {
            BatchParse::Records(rs) => records_from(batches, i + 1, take_from(rs, 0, g, cap), fetch_offset, high_watermark, cap),
            _ => records_from(batches, i + 1, g, fetch_offset, high_watermark, cap),
        }
    } else {
        records_from(batches, i + 1, g, fetch_offset, high_watermark, cap)
    }
}

/// Whether every overlapping batch decodes without a panic, into records
/// whose counted size fits in a `usize`.
pub open spec fn decodable(batches: Seq<BatchView>, fetch_offset: i64, high_watermark: i64) -> bool {
    forall|i: int| 0 <= i < batches.len() && overlaps(#[trigger] batches[i], fetch_offset, high_watermark) ==>
        match raw_batch_records(batches[i].0, fetch_offset, high_watermark) {
            BatchParse::Records(rs) => forall|j: int| 0 <= j < rs.len() ==> record_size(#[trigger] rs[j]) <= usize::MAX,
            BatchParse::Fail(_) => true,
            BatchParse::Panic => false,
        }
}

impl PartitionBuffer {
    /// The raw bytes of the buffered batches that overlap the range, in
    /// order and within `max_bytes` (see `raw_from`); `None` when that is
    /// nothing.
    pub fn raw_in_range(&self, fetch_offset: i64, high_watermark: i64, max_bytes: i32) -> (r: Option<Vec<u8>>)
        requires
            buffer_wf(*self),
        ensures
            ({
                let all = raw_from(batches_of(*self), 0, Seq::empty(), fetch_offset, high_watermark, max_bytes as usize as int);
                if all.len() > 0 { r matches Some(v) && v@ == all } else { r is None }
            }),
    {
        let ghost bs = batches_of(*self);
        let cap = max_bytes as usize;
        let ghost goal = raw_from(bs, 0, Seq::empty(), fetch_offset, high_watermark, cap as int);
        let mut combined: Vec<u8> = Vec::new();
        let n = self.batch_metadata.len();
        let mut i: usize = 0;
        let mut stop = false;
        assert(combined@ =~= Seq::<u8>::empty());
        while i < n && !stop
            invariant
                buffer_wf(*self),
                bs == batches_of(*self),
                n == bs.len(),
                i <= n,
                !stop ==> raw_from(bs, i as int, combined@, fetch_offset, high_watermark, cap as int) == goal,
                stop ==> combined@ == goal,
            decreases (n - i) * 2 + if stop { 0int } else { 1int },
        {
            let m = self.batch_metadata[i];
            assert(bs[i as int].1 == (m.base_offset, m.last_offset, m.record_count, m.size_bytes));
            if m.last_offset >= fetch_offset && m.base_offset < high_watermark {
                let raw = &self.raw_batches[i];
                assert(bs[i as int].0 == raw@);
                if combined.len() > 0 && (combined.len() > cap || raw.len() > cap - combined.len()) {
                    stop = true;
                } else {
                    let ghost before = combined@;
                    combined.extend_from_slice(raw.as_slice());
                    assert(combined@ =~= before + raw@);
                    i += 1;
                }
            } else {
                i += 1;
            }
        }
        if combined.len() > 0 {
            Some(combined)
        } else {
            None
        }
    }

    /// The records of the buffered batches that overlap the range, within
    /// `max_bytes` (see `records_from`), with the bytes counted, the highest
    /// offset taken (-1 for none) and the lowest offset the buffer holds.
    pub fn records_in_range(&self, fetch_offset: i64, high_watermark: i64, max_bytes: i32) -> (r: (Vec<Record>, usize, i64, i64))
        requires
            buffer_wf(*self),
            decodable(batches_of(*self), fetch_offset, high_watermark),
        ensures
            ({
                let g = records_from(batches_of(*self), 0, (Seq::empty(), 0, -1i64), fetch_offset, high_watermark, max_bytes as usize as int);
                &&& records_view(r.0@) == g.0
                &&& r.1 == g.1
                &&& r.2 == g.2
                &&& r.3 == self.min_offset_in_buffer
            }),
    {
        let ghost bs = batches_of(*self);
        let cap = max_bytes as usize;
        let ghost goal = records_from(bs, 0, (Seq::empty(), 0, -1i64), fetch_offset, high_watermark, cap as int);
        let mut records: Vec<Record> = Vec::new();
        let mut bytes: usize = 0;
        let mut highest: i64 = -1;
        let n = self.batch_metadata.len();
        assert(records_view(records@) =~= Seq::<RecordView>::empty());
        for i in 0..n
            invariant
                buffer_wf(*self),
                bs == batches_of(*self),
                n == bs.len(),
                decodable(bs, fetch_offset, high_watermark),
                records@.len() == 0 ==> bytes == 0,
                records_from(bs, i as int, (records_view(records@), bytes as int, highest), fetch_offset, high_watermark, cap as int) == goal,
        {
            let m = self.batch_metadata[i];
            assert(bs[i as int].1 == (m.base_offset, m.last_offset, m.record_count, m.size_bytes));
            if m.last_offset >= fetch_offset && m.base_offset < high_watermark {
                let raw = &self.raw_batches[i];
                assert(bs[i as int].0 == raw@);
                assert(overlaps(bs[i as int], fetch_offset, high_watermark));
                match decode_records_from_raw_batch(raw.as_slice(), fetch_offset, high_watermark) {
                    Ok(batch_records) => {
                        take_records(&mut records, &mut bytes, &mut highest, batch_records, cap);
                    },
                    Err(_) => {},
                }
            }
        }
        (records, bytes, highest, self.min_offset_in_buffer)
    }
}

/// Takes the records of one decoded batch into what a buffer fetch has
/// gathered, as `take_from` says.
fn take_records(records: &mut Vec<Record>, bytes: &mut usize, highest: &mut i64, batch_records: Vec<Record>, cap: usize)
    requires
        forall|j: int| 0 <= j < batch_records@.len() ==> record_size(#[trigger] records_view(batch_records@)[j]) <= usize::MAX,
        old(records)@.len() == 0 ==> *old(bytes) == 0,
    ensures
        final(records)@.len() == 0 ==> *final(bytes) == 0,
        (records_view(final(records)@), *final(bytes) as int, *final(highest))
            == take_from(records_view(batch_records@), 0, (records_view(old(records)@), *old(bytes) as int, *old(highest)), cap as int),
{
    let ghost rs = records_view(batch_records@);
    let ghost target = take_from(rs, 0, (records_view(records@), *bytes as int, *highest), cap as int);
    let mut stop = false;
    for rec in it: batch_records.into_iter()
        invariant
            it.seq() == batch_records@,
            rs == records_view(batch_records@),
            forall|j: int| 0 <= j < rs.len() ==> record_size(#[trigger] rs[j]) <= usize::MAX,
            records@.len() == 0 ==> *bytes == 0,
            !stop ==> take_from(rs, it.index() as int, (records_view(records@), *bytes as int, *highest), cap as int) == target,
            stop ==> (records_view(records@), *bytes as int, *highest) == target,
    {
        let ghost k = it.index() as int;
        assert(rs[k] == record_view(rec)) by {
            assert(it.seq()[k] == rec);
        }
        if !stop {
            let vlen = rec.value.len();
            let klen: usize = match &rec.key {
                Some(key) => key.len(),
                None => 0,
            };
            assert(record_size(rs[k]) == vlen + klen + 24);
            let size = vlen + klen + 24;
            if records.len() > 0 && (*bytes > cap || size > cap - *bytes) {
                stop = true;
            } else {
                let ghost before = records_view(records@);
                *bytes = *bytes + size;
                if rec.offset > *highest {
                    *highest = rec.offset;
                }
                records.push(rec);
                assert(records_view(records@) =~= before.push(rs[k]));
            }
        }
    }
    assert(take_from(rs, rs.len() as int, (records_view(records@), *bytes as int, *highest), cap as int)
        == (records_view(records@), *bytes as int, *highest));
}

proof fn lemma_take_from_in_range(rs: Seq<RecordView>, j: int, g: Gathered, cap: int, lo: i64, hi: i64)
    requires
        all_in_range(rs, lo, hi),
        all_in_range(g.0, lo, hi),
    ensures
        all_in_range(take_from(rs, j, g, cap).0, lo, hi),
    decreases rs.len() - j,
{
    if 0 <= j < rs.len() && !(g.1 + record_size(rs[j]) > cap && g.0.len() > 0) {
        let r = rs[j];
        let next = g.0.push(r);
        assert forall|i: int| 0 <= i < next.len() implies lo <= (#[trigger] next[i]).0 < hi by {
            if i < g.0.len() {
                assert(next[i] == g.0[i]);
            }
        }
        lemma_take_from_in_range(rs, j + 1, (next, g.1 + record_size(r), if r.0 > g.2 { r.0 } else { g.2 }), cap, lo, hi);
    }
}

proof fn lemma_records_from_in_range(batches: Seq<BatchView>, i: int, g: Gathered, fetch_offset: i64, high_watermark: i64, cap: int)
    requires
        all_in_range(g.0, fetch_offset, high_watermark),
    ensures
        all_in_range(records_from(batches, i, g, fetch_offset, high_watermark, cap).0, fetch_offset, high_watermark),
    decreases batches.len() - i,
{
    if 0 <= i < batches.len() {
        if overlaps(batches[i], fetch_offset, high_watermark) {
            lemma_decoded_records_in_range(batches[i].0, fetch_offset, high_watermark);
            match raw_batch_records(batches[i].0, fetch_offset, high_watermark) {
                BatchParse::Records(rs) => {
                    lemma_take_from_in_range(rs, 0, g, cap, fetch_offset, high_watermark);
                    lemma_records_from_in_range(batches, i + 1, take_from(rs, 0, g, cap), fetch_offset, high_watermark, cap);
                },
                _ => {
                    lemma_records_from_in_range(batches, i + 1, g, fetch_offset, high_watermark, cap);
                },
            }
        } else {
            lemma_records_from_in_range(batches, i + 1, g, fetch_offset, high_watermark, cap);
        }
    }
}

/// A fetch served from the buffer returns only records of the requested
/// range: every record `records_in_range` or `fetch_from_buffer` gives has
/// an offset in `[fetch_offset, high_watermark)`.
pub proof fn lemma_buffer_fetch_in_range(batches: Seq<BatchView>, fetch_offset: i64, high_watermark: i64, max_bytes: i32)
    ensures
        all_in_range(
            records_from(batches, 0, (Seq::empty(), 0, -1i64), fetch_offset, high_watermark, max_bytes as usize as int).0,
            fetch_offset,
            high_watermark,
        ),
{
    lemma_records_from_in_range(batches, 0, (Seq::empty(), 0, -1i64), fetch_offset, high_watermark, max_bytes as usize as int);
}

} // verus!
