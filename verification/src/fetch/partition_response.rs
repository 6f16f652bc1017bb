//! The per-partition answer of a fetch, and the decisions that pick it:
//! which watermark a reader may go up to, and when a partition is refused.
use vstd::prelude::*;
use crate::fetch::batches::{sanitize_batch_crcs, sanitized};

verus! {

/// OFFSET_OUT_OF_RANGE.
pub const OFFSET_OUT_OF_RANGE: i16 = 1;
/// UNKNOWN_TOPIC_OR_PARTITION.
pub const UNKNOWN_TOPIC_OR_PARTITION: i16 = 3;
/// NOT_LEADER_OR_FOLLOWER.
pub const NOT_LEADER_OR_FOLLOWER: i16 = 6;

/// A partition's part of a fetch response (no aborted transactions are
/// reported on these paths).
#[derive(Debug)]
pub struct FetchPartitionResponse {
    pub partition: i32,
    pub error_code: i16,
    pub high_watermark: i64,
    pub last_stable_offset: i64,
    pub log_start_offset: i64,
    pub preferred_read_replica: i32,
    pub records: Vec<u8>,
}

/// A response as plain values: partition, error code, high watermark, last
/// stable offset, log start offset, preferred read replica, record bytes.
pub open spec fn response_view(r: FetchPartitionResponse) -> (i32, i16, i64, i64, i64, i32, Seq<u8>) {
    (r.partition, r.error_code, r.high_watermark, r.last_stable_offset, r.log_start_offset, r.preferred_read_replica, r.records@)
}

/// An error answer with every offset unknown (-1).
pub open spec fn refusal(partition: i32, error_code: i16) -> (i32, i16, i64, i64, i64, i32, Seq<u8>) {
    (partition, error_code, -1i64, -1i64, -1i64, -1i32, Seq::empty())
}

fn refuse(partition: i32, error_code: i16) -> (r: FetchPartitionResponse)
    ensures
        response_view(r) == refusal(partition, error_code),
{
    FetchPartitionResponse {
        partition,
        error_code,
        high_watermark: -1,
        last_stable_offset: -1,
        log_start_offset: -1,
        preferred_read_replica: -1,
        records: Vec::new(),
    }
}

/// An error answer carrying the high watermark (also as last stable
/// offset), log start offset 0 and no records.
pub fn build_error_response(partition: i32, error_code: i16, high_watermark: i64) -> (r: FetchPartitionResponse)
    ensures
        response_view(r) == (partition, error_code, high_watermark, high_watermark, 0i64, -1i32, Seq::<u8>::empty()),
{
    FetchPartitionResponse {
        partition,
        error_code,
        high_watermark,
        last_stable_offset: high_watermark,
        log_start_offset: 0,
        preferred_read_replica: -1,
        records: Vec::new(),
    }
}

/// A successful answer: the records with every control batch's CRC
/// recomputed (see `sanitize_batch_crcs`), the high watermark also as last
/// stable offset.
pub fn build_success_response(partition: i32, high_watermark: i64, log_start_offset: i64, records: Vec<u8>) -> (r: FetchPartitionResponse)
    requires
        sanitized(records@, 0) is Some,
    ensures
        response_view(r) == (partition, 0i16, high_watermark, high_watermark, log_start_offset, -1i32, sanitized(records@, 0)->0),
{
    let mut records = records;
    sanitize_batch_crcs(&mut records);
    FetchPartitionResponse {
        partition,
        error_code: 0,
        high_watermark,
        last_stable_offset: high_watermark,
        log_start_offset,
        preferred_read_replica: -1,
        records,
    }
}

/// OFFSET_OUT_OF_RANGE when the fetch starts below the log start offset
/// (with the watermarks the reader needs to reset), else nothing.
pub fn check_offset_range(partition: i32, fetch_offset: i64, log_start_offset: i64, high_watermark: i64) -> (r: Option<FetchPartitionResponse>)
    ensures
        fetch_offset < log_start_offset ==> (r matches Some(e) && response_view(e)
            == (partition, OFFSET_OUT_OF_RANGE, high_watermark, high_watermark, log_start_offset, -1i32, Seq::<u8>::empty())),
        fetch_offset >= log_start_offset ==> r is None,
{
    if fetch_offset < log_start_offset {
        Some(FetchPartitionResponse {
            partition,
            error_code: OFFSET_OUT_OF_RANGE,
            high_watermark,
            last_stable_offset: high_watermark,
            log_start_offset,
            preferred_read_replica: -1,
            records: Vec::new(),
        })
    } else {
        None
    }
}

/// Whether this node has a cluster identity (a node id other than 0) and
/// the partition's assignment names another leader.
pub open spec fn led_elsewhere(node_id: i32, assigned_leader: Option<u64>) -> bool {
    node_id != 0 && match assigned_leader {
        Some(l) => l != node_id as u64,
        None => false,
    }
}

/// NOT_LEADER_OR_FOLLOWER when this node has a cluster identity (a node id
/// other than 0) and the partition's assignment names another leader; an
/// unassigned partition is served.
pub fn reject_if_not_leader(node_id: i32, partition: i32, assigned_leader: Option<u64>) -> (r: Option<FetchPartitionResponse>)
    ensures
        led_elsewhere(node_id, assigned_leader) ==> (r matches Some(e)
            && response_view(e) == refusal(partition, NOT_LEADER_OR_FOLLOWER)),
        !led_elsewhere(node_id, assigned_leader) ==> r is None,
{
    if node_id == 0 {
        return None;
    }
    let this_node = node_id as u64;
    match assigned_leader {
        Some(leader) => if leader == this_node { None } else { Some(refuse(partition, NOT_LEADER_OR_FOLLOWER)) },
        None => None,
    }
}

/// UNKNOWN_TOPIC_OR_PARTITION when the topic is unknown (`partition_count`
/// is `None`) or the partition lies outside `[0, partition_count)`.
pub fn validate_topic_and_partition(partition: i32, partition_count: Option<u32>) -> (r: Option<FetchPartitionResponse>)
    ensures
        (match partition_count {
            None => true,
            Some(n) => partition < 0 || partition >= n as i32,
        }) ==> (r matches Some(e) && response_view(e) == refusal(partition, UNKNOWN_TOPIC_OR_PARTITION)),
        (partition_count matches Some(n) && 0 <= partition < n as i32) ==> r is None,
{
    match partition_count {
        None => Some(refuse(partition, UNKNOWN_TOPIC_OR_PARTITION)),
        Some(n) => {
            if partition < 0 || partition >= n as i32 {
                Some(refuse(partition, UNKNOWN_TOPIC_OR_PARTITION))
            } else {
                None
            }
        },
    }
}

/// The high watermark a fetch uses: the one the produce path reports (0
/// when it has none), or, when that is 0, a positive one stored in
/// metadata.
pub fn high_watermark_with_fallback(produced: i64, stored: Option<i64>) -> (hw: i64)
    ensures
        hw == match stored {
            Some(m) => if produced == 0 && m > 0 { m } else { produced },
            None => produced,
        },
{
    if produced == 0 {
        match stored {
            Some(m) => if m > 0 { m } else { produced },
            None => produced,
        }
    } else {
        produced
    }
}

/// How far a follower may read, from the leader's log end and the durable
/// end of its write-ahead log: `None` when the log end is 0 (nothing
/// produced since start: not known, so the watermark path answers), else
/// the log end, lowered to the durable end when one is known.
pub fn follower_readable_end(log_end: i64, durable_end: Option<i64>) -> (r: Option<i64>)
    ensures
        log_end == 0 ==> r is None,
        log_end != 0 ==> r == Some(match durable_end {
            Some(d) => if d < log_end { d } else { log_end },
            None => log_end,
        }),
{
    if log_end == 0 {
        return None;
    }
    match durable_end {
        Some(d) => Some(if d < log_end { d } else { log_end }),
        None => Some(log_end),
    }
}

/// The end of the persisted segments: one past the highest end offset,
/// 0 when there is none.
pub open spec fn segments_end(end_offsets: Seq<i64>) -> int
    decreases end_offsets.len(),
{
    if end_offsets.len() == 0 {
        0
    } else {
        let rest = segments_end(end_offsets.drop_last());
        let last = end_offsets.last() + 1;
        if end_offsets.len() == 1 || last > rest { last } else { rest }
    }
}

/// One past the highest segment end offset, 0 for no segments.
pub fn segments_high_watermark(end_offsets: &[i64]) -> (r: i64)
    requires
        forall|i: int| 0 <= i < end_offsets@.len() ==> #[trigger] end_offsets@[i] < i64::MAX,
    ensures
        r == segments_end(end_offsets@),
{
    let mut best: i64 = 0;
    let mut i: usize = 0;
    while i < end_offsets.len()
        invariant
            i <= end_offsets@.len(),
            forall|j: int| 0 <= j < end_offsets@.len() ==> #[trigger] end_offsets@[j] < i64::MAX,
            best == segments_end(end_offsets@.take(i as int)),
        decreases end_offsets.len() - i,
    {
        let e = end_offsets[i] + 1;
        assert(end_offsets@.take(i as int + 1).drop_last() =~= end_offsets@.take(i as int));
        if i == 0 || e > best {
            best = e;
        }
        i += 1;
    }
    assert(end_offsets@.take(end_offsets@.len() as int) =~= end_offsets@);
    best
}

/// Whether a parked fetch has something to read, as far as it can be told
/// without asking for the consumer-visible watermark.
#[derive(Clone, Copy, Debug, PartialEq, Eq, Structural)]
pub enum DataBeyond {
    Yes,
    No,
    /// Only if the watermark consumers may see at this segment end lies
    /// beyond the fetch offset.
    IfConsumersSeeBeyond(i64),
}

/// Whether there is data beyond `fetch_offset`: yes when the live log's
/// readable end (if known) lies beyond it; otherwise no when the segment
/// list is unknown or ends at or before it; otherwise yes for a follower
/// (`replica_id >= 0`), and for a consumer only if what consumers may see
/// at the segments' end lies beyond it.
pub fn data_beyond(live_end: Option<i64>, segment_end: Option<i64>, fetch_offset: i64, replica_id: i32) -> (r: DataBeyond)
    ensures
        r == if live_end matches Some(e) && e > fetch_offset {
            DataBeyond::Yes
        } else {
            match segment_end {
                None => DataBeyond::No,
                Some(end) => if end <= fetch_offset {
                    DataBeyond::No
                } else if replica_id >= 0 {
                    DataBeyond::Yes
                } else {
                    DataBeyond::IfConsumersSeeBeyond(end)
                },
            }
        },
{
    if let Some(e) = live_end {
        if e > fetch_offset {
            return DataBeyond::Yes;
        }
    }
    match segment_end {
        None => DataBeyond::No,
        Some(end) => {
            if end <= fetch_offset {
                DataBeyond::No
            } else if replica_id >= 0 {
                DataBeyond::Yes
            } else {
                DataBeyond::IfConsumersSeeBeyond(end)
            }
        },
    }
}

} // verus!
