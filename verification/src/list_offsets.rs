//! Answers to ListOffsets: which offset a requested timestamp resolves to,
//! and the fields of a partition's answer for each request version.
use vstd::prelude::*;
use crate::clock::now_millis;

verus! {

/// The timestamp that asks for the latest offset.
pub const LATEST_TIMESTAMP: i64 = -1;
/// The timestamp that asks for the earliest offset.
pub const EARLIEST_TIMESTAMP: i64 = -2;
/// How far back the earliest offset is dated: one day, in milliseconds.
pub const EARLIEST_AGE_MS: i64 = 86_400_000;

/// (offset, timestamp) a ListOffsets timestamp resolves to at `now_ms`:
/// latest gives the higher of the in-memory and segment high watermarks,
/// dated now; earliest gives offset 0 dated a day ago (wrapping as the
/// arithmetic does); a non-negative timestamp gives offset 500 with that
/// timestamp; anything else gives (0, 0).
pub open spec fn resolved_offset(timestamp: i64, in_memory_hw: i64, segment_hw: i64, now_ms: i64) -> (i64, i64) {
    if timestamp == LATEST_TIMESTAMP {
        (if in_memory_hw >= segment_hw { in_memory_hw } else { segment_hw }, now_ms)
    } else if timestamp == EARLIEST_TIMESTAMP {
        (0, now_ms.wrapping_sub(EARLIEST_AGE_MS))
    } else if timestamp >= 0 {
        (500, timestamp)
    } else {
        (0, 0)
    }
}

/// The (offset, timestamp) a partition's timestamp resolves to at `now_ms`
/// (see `resolved_offset`).
pub fn resolve_list_offsets_partition_offset_at(timestamp: i64, in_memory_hw: i64, segment_hw: i64, now_ms: i64) -> (r: (i64, i64))
    ensures
        r == resolved_offset(timestamp, in_memory_hw, segment_hw, now_ms),
{
    if timestamp == LATEST_TIMESTAMP {
        (if in_memory_hw >= segment_hw { in_memory_hw } else { segment_hw }, now_ms)
    } else if timestamp == EARLIEST_TIMESTAMP {
        (0, now_ms.wrapping_sub(EARLIEST_AGE_MS))
    } else if timestamp >= 0 {
        (500, timestamp)
    } else {
        (0, 0)
    }
}

/// The (offset, timestamp) a partition's timestamp resolves to now.
pub fn resolve_list_offsets_partition_offset(timestamp: i64, in_memory_hw: i64, segment_hw: i64) -> (r: (i64, i64))
    ensures
        exists|now_ms: i64| r == #[trigger] resolved_offset(timestamp, in_memory_hw, segment_hw, now_ms),
{
    let now = now_millis() as i64;
    resolve_list_offsets_partition_offset_at(timestamp, in_memory_hw, segment_hw, now)
}

/// A partition's answer to ListOffsets.
#[derive(Clone, Copy, Debug, PartialEq, Eq, Structural)]
pub struct ListOffsetsResponsePartition {
    pub partition_index: i32,
    pub error_code: i16,
    pub timestamp: i64,
    pub offset: i64,
    pub leader_epoch: i32,
}

/// A partition's answer for request version `api_version`: no error; the
/// timestamp from version 1 on (-1 before); leader epoch 0 from version 4
/// on (-1 before).
pub fn list_offsets_partition_response(partition_index: i32, offset: i64, timestamp_found: i64, api_version: i16) -> (r: ListOffsetsResponsePartition)
    ensures
        r == (ListOffsetsResponsePartition {
            partition_index,
            error_code: 0,
            timestamp: if api_version >= 1 { timestamp_found } else { -1i64 },
            offset,
            leader_epoch: if api_version >= 4 { 0i32 } else { -1i32 },
        }),
{
    ListOffsetsResponsePartition {
        partition_index,
        error_code: 0,
        timestamp: if api_version >= 1 { timestamp_found } else { -1 },
        offset,
        leader_epoch: if api_version >= 4 { 0 } else { -1 },
    }
}

} // verus!
