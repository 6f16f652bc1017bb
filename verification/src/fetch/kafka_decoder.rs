//! Records of a segment's raw Kafka batches: each decoded batch's records
//! get consecutive absolute offsets from the segment's own base offset (the
//! offset in the client's batch header is not trusted) and absolute
//! timestamps from the batch's base timestamp.
use vstd::prelude::*;
use crate::fetch::record::{Record, record_view};

verus! {

/// A record as a decoded batch holds it: relative timestamp, optional key
/// and value, headers with optional values.
pub struct DecodedKafkaRecord {
    pub timestamp_delta: i64,
    pub key: Option<Vec<u8>>,
    pub value: Option<Vec<u8>>,
    pub headers: Vec<(String, Option<Vec<u8>>)>,
}

/// A decoded batch: its base timestamp and its records in order.
pub struct DecodedKafkaBatch {
    pub base_timestamp: i64,
    pub records: Vec<DecodedKafkaRecord>,
}

/// An optional byte string as plain values.
pub open spec fn opt_bytes(v: Option<Vec<u8>>) -> Option<Seq<u8>> {
    match v {
        Some(b) => Some(b@),
        None => None,
    }
}

/// An optional byte string, empty when absent.
pub open spec fn bytes_or_empty(v: Option<Vec<u8>>) -> Seq<u8> {
    match v {
        Some(b) => b@,
        None => Seq::empty(),
    }
}

/// A decoded header as the fetched record carries it.
pub open spec fn header_out(h: (String, Option<Vec<u8>>)) -> (Seq<char>, Seq<u8>) {
    (h.0@, bytes_or_empty(h.1))
}

/// The fetched record that a decoded record becomes at `offset` in a batch
/// with base timestamp `base_timestamp`.
pub open spec fn fetched_view(r: DecodedKafkaRecord, base_timestamp: i64, offset: int)
    -> (i64, i64, Option<Seq<u8>>, Seq<u8>, Seq<(Seq<char>, Seq<u8>)>)
{
    (
        offset as i64,
        (base_timestamp + r.timestamp_delta) as i64,
        opt_bytes(r.key),
        bytes_or_empty(r.value),
        r.headers@.map_values(|h: (String, Option<Vec<u8>>)| header_out(h)),
    )
}

/// Whether a batch's absolute timestamps fit in an `i64`.
pub open spec fn timestamps_fit(batch: DecodedKafkaBatch) -> bool {
    forall|i: int| 0 <= i < batch.records@.len() ==>
        i64::MIN <= batch.base_timestamp + (#[trigger] batch.records@[i]).timestamp_delta <= i64::MAX
}

/// Turns decoded raw Kafka batches into fetched records.
pub struct RawKafkaBatchDecoder;

impl RawKafkaBatchDecoder {
    /// Appends the records of the next decoded batch at offsets
    /// `next_offset`, `next_offset + 1`, ... and returns the offset after
    /// the last of them.
    pub fn append_batch(all_records: &mut Vec<Record>, next_offset: i64, batch: DecodedKafkaBatch) -> (after: i64)
        requires
            next_offset + batch.records@.len() <= i64::MAX,
            timestamps_fit(batch),
        ensures
            after == next_offset + batch.records@.len(),
            final(all_records)@.len() == old(all_records)@.len() + batch.records@.len(),
            forall|i: int| 0 <= i < old(all_records)@.len() ==>
                #[trigger] final(all_records)@[i] == old(all_records)@[i],
            forall|i: int| 0 <= i < batch.records@.len() ==>
                record_view(#[trigger] final(all_records)@[old(all_records)@.len() + i])
                    == fetched_view(batch.records@[i], batch.base_timestamp, next_offset + i),
    {
        let ghost before = all_records@;
        let ghost recs = batch.records@;
        let base_timestamp = batch.base_timestamp;
        let mut offset = next_offset;
        let ghost mut k: int = 0;
        for kr in it: batch.records.into_iter()
            invariant
                it.seq() == recs,
                k == it.index(),
                offset == next_offset + k,
                next_offset + recs.len() <= i64::MAX,
                base_timestamp == batch.base_timestamp,
                recs == batch.records@,
                forall|i: int| 0 <= i < recs.len() ==>
                    i64::MIN <= base_timestamp + (#[trigger] recs[i]).timestamp_delta <= i64::MAX,
                all_records@.len() == before.len() + k,
                forall|i: int| 0 <= i < before.len() ==> #[trigger] all_records@[i] == before[i],
                forall|i: int| 0 <= i < k ==>
                    record_view(#[trigger] all_records@[before.len() + i])
                        == fetched_view(recs[i], base_timestamp, next_offset + i),
        {
            let ghost src = kr;
            assert(src == recs[k]);
            let value: Vec<u8> = match kr.value {
                Some(v) => v,
                None => Vec::new(),
            };
            let mut headers: Vec<(String, Vec<u8>)> = Vec::new();
            let ghost hs = kr.headers@;
            for h in hit: kr.headers.into_iter()
                invariant
                    hit.seq() == hs,
                    headers@.len() == hit.index(),
                    forall|j: int| 0 <= j < headers@.len() ==>
                        (#[trigger] headers@[j]).0@ == hs[j].0@ && headers@[j].1@ == bytes_or_empty(hs[j].1),
            {
                let hv: Vec<u8> = match h.1 {
                    Some(v) => v,
                    None => Vec::new(),
                };
                headers.push((h.0, hv));
            }
            let rec = Record {
                offset,
                timestamp: base_timestamp + kr.timestamp_delta,
                key: kr.key,
                value,
                headers,
            };
            proof {
                assert(record_view(rec).4 =~= src.headers@.map_values(|h: (String, Option<Vec<u8>>)| header_out(h)));
                assert(record_view(rec) == fetched_view(src, base_timestamp, next_offset + k));
            }
            all_records.push(rec);
            offset = offset + 1;
            proof { k = k + 1; }
        }
        offset
    }
}

} // verus!
