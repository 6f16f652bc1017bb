use chronik_server::fetch::batches::{keep_len_below_offset, keep_len_walk_fits, sanitize_batch_crcs};
use chronik_server::fetch::buffer::{PartitionBuffer, PartitionBuffers};
use chronik_server::fetch::indexed_decoder::IndexedRecordDecoder;
use chronik_server::fetch::partition_response::{
    build_error_response, build_success_response, check_offset_range, data_beyond, follower_readable_end, DataBeyond,
    high_watermark_with_fallback, reject_if_not_leader, segments_high_watermark, validate_topic_and_partition,
};
use chronik_server::fetch::object_segments::{archive_records, matching_segments, serve_segment_records, CanonicalEntry};
use chronik_server::fetch::raw_segments::{append_raw_segment_batches, raw_segment_walk_fits};
use chronik_server::fetch::handler_config::{parse_u64, FetchHandlerConfig};
use chronik_server::fetch::merge::{budget_met, merge_fetched_records, needs_earlier_records, should_read_wal, sort_by_offset};
use chronik_server::fetch::kafka_decoder::{DecodedKafkaBatch, DecodedKafkaRecord, RawKafkaBatchDecoder};
use chronik_server::fetch::raw_batch::{decode_records_from_raw_batch, raw_batch_decodes};
use chronik_server::fetch::record::Record;
use chronik_server::fetch::record_filter::RecordFilter;
use chronik_server::fetch::segment_reader::{segments_for_range, SegmentInfo, SegmentSpan};
use chronik_server::fetch::segment_fetch::{max_segment_offset, SegmentFetch, SegmentStep};
use chronik_server::fetch::varint::{read_varint, read_varlong, FetchError};

fn create_test_record(offset: i64, value_size: usize) -> Record {
    Record { offset, timestamp: 0, key: None, value: vec![0u8; value_size], headers: vec![] }
}

#[test]
fn test_filter_by_offset_range() {
    let records = vec![
        create_test_record(0, 10),
        create_test_record(1, 10),
        create_test_record(2, 10),
        create_test_record(3, 10),
    ];
    let filtered = RecordFilter::filter_by_range(records, 1, 3, 1000);
    assert_eq!(filtered.len(), 2);
    assert_eq!(filtered[0].offset, 1);
    assert_eq!(filtered[1].offset, 2);
}

#[test]
fn test_filter_by_max_bytes() {
    let records = vec![create_test_record(0, 100), create_test_record(1, 100), create_test_record(2, 100)];
    let filtered = RecordFilter::filter_by_range(records, 0, 10, 150);
    assert_eq!(filtered.len(), 1);
    assert_eq!(filtered[0].offset, 0);
}

#[test]
fn test_filter_empty_records() {
    let records = vec![];
    let filtered = RecordFilter::filter_by_range(records, 0, 10, 1000);
    assert_eq!(filtered.len(), 0);
}

#[test]
fn the_first_record_is_served_even_over_budget() {
    let records = vec![create_test_record(5, 500), create_test_record(6, 1)];
    let filtered = RecordFilter::filter_by_range(records, 0, 10, 10);
    assert_eq!(filtered.len(), 1);
    assert_eq!(filtered[0].offset, 5);
}

#[test]
fn keys_count_towards_the_budget() {
    let mut a = create_test_record(0, 10);
    a.key = Some(vec![1u8; 10]);
    let b = create_test_record(1, 10);
    // 44 + 34 = 78 > 70: the second does not fit
    let filtered = RecordFilter::filter_by_range(vec![a, b], 0, 10, 70);
    assert_eq!(filtered.len(), 1);
    let mut c = create_test_record(0, 10);
    c.key = Some(vec![1u8; 10]);
    let d = create_test_record(1, 10);
    assert_eq!(RecordFilter::filter_by_range(vec![c, d], 0, 10, 78).len(), 2);
}

#[test]
fn a_negative_budget_reads_as_unbounded() {
    let records = vec![create_test_record(0, 100), create_test_record(1, 100)];
    assert_eq!(RecordFilter::filter_by_range(records, 0, 10, -1).len(), 2);
}

#[test]
fn test_adjust_record_offsets_when_needed() {
    let mut records = vec![
        Record { offset: 0, timestamp: 0, key: None, value: vec![], headers: vec![] },
        Record { offset: 1, timestamp: 0, key: None, value: vec![], headers: vec![] },
    ];
    IndexedRecordDecoder::adjust_record_offsets(&mut records, 100);
    assert_eq!(records[0].offset, 100);
    assert_eq!(records[1].offset, 101);
}

#[test]
fn test_adjust_record_offsets_when_not_needed() {
    let mut records = vec![Record { offset: 100, timestamp: 0, key: None, value: vec![], headers: vec![] }];
    IndexedRecordDecoder::adjust_record_offsets(&mut records, 100);
    assert_eq!(records[0].offset, 100);
}

#[test]
fn a_zero_base_offset_adjusts_nothing() {
    let mut records = vec![create_test_record(3, 1)];
    IndexedRecordDecoder::adjust_record_offsets(&mut records, 0);
    assert_eq!(records[0].offset, 3);
}

#[test]
fn test_segment_info_creation() {
    let info = SegmentInfo {
        segment_id: "test-segment".to_string(),
        object_key: "segments/topic/partition/test-segment".to_string(),
    };
    assert_eq!(info.segment_id, "test-segment");
    assert!(info.object_key.contains("test-segment"));
    let again = SegmentInfo::new("a".to_string(), "b".to_string());
    assert_eq!((again.segment_id.as_str(), again.object_key.as_str()), ("a", "b"));
}

#[test]
fn v3_frames_follow_the_length_prefixes() {
    let data = vec![0, 0, 0, 2, 9, 9, 0, 0, 0, 1, 7, 0, 0, 0, 5, 1];
    let frames = IndexedRecordDecoder::v3_batch_frames(&data);
    assert_eq!(frames, vec![(4, 6), (10, 11)]);
    assert!(IndexedRecordDecoder::v3_batch_frames(&[0, 0]).is_empty());
}

// ----- varints -----

#[test]
fn varints_decode_zigzag() {
    assert_eq!(read_varint(&[0], 0), Ok((0, 1)));
    assert_eq!(read_varint(&[1], 0), Ok((-1, 1)));
    assert_eq!(read_varint(&[2], 0), Ok((1, 1)));
    assert_eq!(read_varint(&[0xac, 0x02], 0), Ok((150, 2)));
    // the sign of the 32-bit accumulator shifts in arithmetically
    assert_eq!(read_varint(&[9, 0xff, 0xff, 0xff, 0xff, 0x0f], 1), Ok((0, 6)));
    assert_eq!(read_varint(&[0xfe, 0xff, 0xff, 0xff, 0x0f], 0), Ok((-1, 5)));
    assert_eq!(read_varint(&[0x80], 0), Err(FetchError::UnexpectedEndOfVarint));
    assert_eq!(read_varint(&[], 0), Err(FetchError::UnexpectedEndOfVarint));
    assert_eq!(read_varlong(&[0x80, 0x01], 0), Ok((64, 2)));
    assert_eq!(read_varlong(&[0x81], 0), Err(FetchError::UnexpectedEndOfVarlong));
    assert_eq!(
        read_varlong(&[0xff, 0xff, 0xff, 0xff, 0xff, 0xff, 0xff, 0xff, 0xff, 0x01], 0),
        Ok((0, 10))
    );
    assert_eq!(read_varlong(&[0xfe, 0xff, 0xff, 0xff, 0x0f], 0), Ok((2147483647, 5)));
}

// ----- raw record batches -----

fn zigzag(n: i64) -> u64 {
    ((n << 1) ^ (n >> 63)) as u64
}

fn push_varint(out: &mut Vec<u8>, n: i64) {
    let mut v = zigzag(n);
    loop {
        let b = (v & 0x7f) as u8;
        v >>= 7;
        if v == 0 {
            out.push(b);
            break;
        }
        out.push(b | 0x80);
    }
}

fn record_bytes(ts_delta: i64, offset_delta: i64, key: Option<&[u8]>, value: &[u8], headers: &[(&str, &[u8])]) -> Vec<u8> {
    let mut body = vec![0u8];
    push_varint(&mut body, ts_delta);
    push_varint(&mut body, offset_delta);
    match key {
        Some(k) => {
            push_varint(&mut body, k.len() as i64);
            body.extend_from_slice(k);
        }
        None => push_varint(&mut body, -1),
    }
    push_varint(&mut body, value.len() as i64);
    body.extend_from_slice(value);
    push_varint(&mut body, headers.len() as i64);
    for (k, v) in headers {
        push_varint(&mut body, k.len() as i64);
        body.extend_from_slice(k.as_bytes());
        push_varint(&mut body, v.len() as i64);
        body.extend_from_slice(v);
    }
    let mut out = Vec::new();
    push_varint(&mut out, body.len() as i64);
    out.extend(body);
    out
}

fn batch(base_offset: i64, base_ts: i64, records: &[Vec<u8>]) -> Vec<u8> {
    let mut b = Vec::new();
    b.extend_from_slice(&base_offset.to_be_bytes());
    b.extend_from_slice(&0i32.to_be_bytes()); // length
    b.extend_from_slice(&0i32.to_be_bytes()); // leader epoch
    b.push(2); // magic
    b.extend_from_slice(&0u32.to_be_bytes()); // crc
    b.extend_from_slice(&0i16.to_be_bytes()); // attributes
    b.extend_from_slice(&0i32.to_be_bytes()); // last offset delta
    b.extend_from_slice(&base_ts.to_be_bytes());
    b.extend_from_slice(&base_ts.to_be_bytes()); // max timestamp
    b.extend_from_slice(&(-1i64).to_be_bytes()); // producer id
    b.extend_from_slice(&(-1i16).to_be_bytes()); // producer epoch
    b.extend_from_slice(&(-1i32).to_be_bytes()); // base sequence
    b.extend_from_slice(&(records.len() as i32).to_be_bytes());
    assert_eq!(b.len(), 61);
    for r in records {
        b.extend_from_slice(r);
    }
    b
}

#[test]
fn raw_batch_records_carry_absolute_offsets_and_timestamps() {
    let raw = batch(
        100,
        5_000,
        &[
            record_bytes(0, 0, None, b"a", &[]),
            record_bytes(7, 1, Some(b"k"), b"bc", &[("h", b"v"), ("h", b"w"), ("g", b"")]),
        ],
    );
    let records = decode_records_from_raw_batch(&raw, 0, 1_000).unwrap();
    assert_eq!(records.len(), 2);
    assert_eq!((records[0].offset, records[0].timestamp), (100, 5_000));
    assert_eq!(records[0].key, None);
    assert_eq!(records[0].value, b"a".to_vec());
    assert_eq!((records[1].offset, records[1].timestamp), (101, 5_007));
    assert_eq!(records[1].key, Some(b"k".to_vec()));
    assert_eq!(records[1].value, b"bc".to_vec());
    // a repeated header name keeps the later value, in the place of the first
    assert_eq!(records[1].headers, vec![("h".to_string(), b"w".to_vec()), ("g".to_string(), vec![])]);
}

#[test]
fn raw_batch_records_outside_the_range_are_skipped() {
    let raw = batch(
        10,
        0,
        &[
            record_bytes(0, 0, None, b"x", &[("a", b"1")]),
            record_bytes(0, 1, Some(b"kk"), b"y", &[]),
            record_bytes(0, 2, None, b"z", &[]),
        ],
    );
    let records = decode_records_from_raw_batch(&raw, 11, 12).unwrap();
    assert_eq!(records.len(), 1);
    assert_eq!(records[0].offset, 11);
    assert_eq!(records[0].value, b"y".to_vec());
}

#[test]
fn a_short_batch_is_refused() {
    assert_eq!(decode_records_from_raw_batch(&[0u8; 60], 0, 10).unwrap_err(), FetchError::RecordBatchTooSmall);
}

#[test]
fn decoding_stops_where_the_bytes_stop() {
    // the header promises three records; one is present
    let mut raw = batch(0, 0, &[record_bytes(0, 0, None, b"q", &[])]);
    raw[60] = 3;
    let records = decode_records_from_raw_batch(&raw, 0, 100).unwrap();
    assert_eq!(records.len(), 1);
    // a record longer than what remains ends decoding too
    let mut cut = batch(0, 0, &[record_bytes(0, 0, None, b"qqqq", &[])]);
    cut.truncate(cut.len() - 2);
    assert!(decode_records_from_raw_batch(&cut, 0, 100).unwrap().is_empty());
}

#[test]
fn a_varint_cut_short_is_an_error() {
    let mut raw = batch(0, 0, &[]);
    raw[60] = 1;
    raw.push(0x80);
    assert_eq!(decode_records_from_raw_batch(&raw, 0, 100).unwrap_err(), FetchError::UnexpectedEndOfVarint);
}

// ----- batch walks -----

fn framed(base_offset: i64, body_len: usize) -> Vec<u8> {
    let mut b = Vec::new();
    b.extend_from_slice(&base_offset.to_be_bytes());
    b.extend_from_slice(&(body_len as i32).to_be_bytes());
    b.extend(std::iter::repeat(0u8).take(body_len));
    b
}

#[test]
fn keep_len_cuts_at_the_first_batch_reaching_the_offset() {
    let mut bytes = framed(0, 20);
    bytes.extend(framed(5, 20));
    bytes.extend(framed(9, 20));
    assert_eq!(keep_len_below_offset(&bytes, 5), 32);
    assert_eq!(keep_len_below_offset(&bytes, 9), 64);
    assert_eq!(keep_len_below_offset(&bytes, 100), bytes.len());
    assert_eq!(keep_len_below_offset(&bytes, 0), 0);
    // a malformed length stops the walk and keeps only what precedes it
    let mut bad = framed(0, 20);
    bad.extend(framed(5, 3));
    assert_eq!(keep_len_below_offset(&bad, 5), 32);
}

#[test]
fn keep_len_cuts_a_partial_trailing_batch() {
    // a whole batch at 5, then the header of a batch at 200 whose 50 bytes are missing
    let mut bytes = framed(5, 9);
    bytes.extend_from_slice(&200i64.to_be_bytes());
    bytes.extend_from_slice(&50i32.to_be_bytes());
    assert_eq!(bytes.len(), 33);
    assert_eq!(keep_len_below_offset(&bytes, 100), 21);
    assert_eq!(keep_len_below_offset(&bytes, 5), 0);
}

fn control_batch() -> Vec<u8> {
    let mut b = framed(0, 30);
    b[16] = 2; // magic
    b[21] = 0;
    b[22] = 0x20; // control bit
    b[30] = 0x42;
    b
}

#[test]
fn control_batches_get_their_crc_recomputed() {
    let mut bytes = control_batch();
    let expected = crc32c::crc32c(&bytes[21..42]);
    let mut data = framed(0, 30);
    data[16] = 2;
    bytes.extend(data.clone());
    sanitize_batch_crcs(&mut bytes);
    assert_eq!(&bytes[17..21], &expected.to_be_bytes());
    // the data batch after it is untouched
    assert_eq!(&bytes[42..], &data[..]);
}

#[test]
fn non_control_batches_are_left_alone() {
    let mut data = framed(0, 30);
    data[16] = 2;
    let before = data.clone();
    sanitize_batch_crcs(&mut data);
    assert_eq!(data, before);
}

// ----- partition buffers -----

#[test]
fn buffers_store_each_base_offset_once() {
    let mut bufs = PartitionBuffers::new();
    bufs.update_buffer_with_raw_batch("t", 0, &[1, 2, 3], 10, 12, 3, 13);
    bufs.update_buffer_with_raw_batch("t", 0, &[9, 9], 10, 12, 3, 14);
    bufs.update_buffer_with_raw_batch("t", 0, &[4], 13, 13, 1, 14);
    bufs.update_buffer_with_raw_batch("t", 0, &[], 20, 20, 1, 99);
    let b = bufs.get("t", 0).unwrap();
    assert_eq!(b.raw_batches, vec![vec![1, 2, 3], vec![4]]);
    assert_eq!(b.high_watermark, 14);
    assert_eq!(b.base_offset, 10);
    assert_eq!(b.flushed_offset, -1);
    assert!(bufs.get("t", 1).is_none());
}

#[test]
fn buffers_keep_the_last_hundred_batches() {
    let mut bufs = PartitionBuffers::new();
    for i in 0..105i64 {
        bufs.update_buffer_with_raw_batch("t", 0, &[i as u8], i, i, 1, i + 1);
    }
    let b = bufs.get("t", 0).unwrap();
    assert_eq!(b.raw_batches.len(), 100);
    assert_eq!(b.batch_metadata[0].base_offset, 5);
    assert_eq!(b.base_offset, 5);
    assert_eq!(b.min_offset_in_buffer, 5);
    assert_eq!(b.high_watermark, 105);
}

#[test]
fn flushing_drops_what_the_segment_holds() {
    let mut bufs = PartitionBuffers::new();
    bufs.update_buffer_with_raw_batch("t", 0, &[1], 0, 4, 5, 5);
    bufs.update_buffer_with_raw_batch("t", 0, &[2], 5, 9, 5, 10);
    bufs.mark_flushed("t", 0, 4);
    let b = bufs.get("t", 0).unwrap();
    assert_eq!(b.raw_batches, vec![vec![2]]);
    assert_eq!(b.base_offset, 5);
    assert_eq!(b.flushed_offset, 4);
    bufs.mark_flushed("t", 0, 9);
    let b = bufs.get("t", 0).unwrap();
    assert!(b.raw_batches.is_empty());
    assert_eq!(b.base_offset, 10);
    // a partition without a buffer is left alone
    bufs.mark_flushed("u", 0, 9);
    assert!(bufs.get("u", 0).is_none());
}

#[test]
fn clearing_a_topic_keeps_the_others() {
    let mut bufs = PartitionBuffers::new();
    bufs.update_buffer_with_raw_batch("topic1", 0, &[1], 0, 0, 1, 1);
    bufs.update_buffer_with_raw_batch("topic1", 1, &[1], 0, 0, 1, 1);
    bufs.update_buffer_with_raw_batch("topic2", 0, &[1], 0, 0, 1, 1);
    assert_eq!(bufs.len(), 3);
    bufs.clear_topic_buffers("topic1");
    assert_eq!(bufs.len(), 1);
    assert!(bufs.get("topic2", 0).is_some());
}

#[test]
fn a_fresh_partition_buffer_starts_at_its_base() {
    let b = PartitionBuffer::new(7, 9);
    assert_eq!((b.base_offset, b.high_watermark, b.flushed_offset, b.min_offset_in_buffer), (7, 9, -1, 7));
}

// ----- serving from the buffer -----

#[test]
fn raw_buffer_reads_take_overlapping_batches_in_order() {
    let mut bufs = PartitionBuffers::new();
    bufs.update_buffer_with_raw_batch("t", 0, &[1, 1], 0, 4, 5, 5);
    bufs.update_buffer_with_raw_batch("t", 0, &[2, 2, 2], 5, 9, 5, 10);
    bufs.update_buffer_with_raw_batch("t", 0, &[3], 10, 14, 5, 15);
    // [5, 15): the first batch ends below the fetch offset.
    assert_eq!(bufs.try_fetch_raw_from_buffer("t", 0, 5, 15, 1000), Some(vec![2, 2, 2, 3]));
    // The high watermark excludes batches starting at or after it.
    assert_eq!(bufs.try_fetch_raw_from_buffer("t", 0, 0, 10, 1000), Some(vec![1, 1, 2, 2, 2]));
    // Nothing overlaps.
    assert_eq!(bufs.try_fetch_raw_from_buffer("t", 0, 20, 30, 1000), None);
    assert_eq!(bufs.try_fetch_raw_from_buffer("u", 0, 0, 30, 1000), None);
}

#[test]
fn raw_buffer_reads_stop_at_the_budget_but_always_serve_one_batch() {
    let mut bufs = PartitionBuffers::new();
    bufs.update_buffer_with_raw_batch("t", 0, &[1, 1], 0, 4, 5, 5);
    bufs.update_buffer_with_raw_batch("t", 0, &[2, 2, 2], 5, 9, 5, 10);
    bufs.update_buffer_with_raw_batch("t", 0, &[3], 10, 14, 5, 15);
    assert_eq!(bufs.try_fetch_raw_from_buffer("t", 0, 0, 15, 1), Some(vec![1, 1]));
    assert_eq!(bufs.try_fetch_raw_from_buffer("t", 0, 0, 15, 4), Some(vec![1, 1]));
    assert_eq!(bufs.try_fetch_raw_from_buffer("t", 0, 0, 15, 5), Some(vec![1, 1, 2, 2, 2]));
    assert_eq!(bufs.try_fetch_raw_from_buffer("t", 0, 0, 15, 6), Some(vec![1, 1, 2, 2, 2, 3]));
}

#[test]
fn buffered_records_are_decoded_for_the_range() {
    let b0 = batch(0, 1_000, &[record_bytes(0, 0, None, b"a", &[]), record_bytes(1, 1, Some(b"k"), b"b", &[])]);
    let b1 = batch(2, 2_000, &[record_bytes(0, 0, None, b"c", &[])]);
    let mut bufs = PartitionBuffers::new();
    bufs.update_buffer_with_raw_batch("t", 0, &b0, 0, 1, 2, 2);
    bufs.update_buffer_with_raw_batch("t", 0, &b1, 2, 2, 1, 3);
    let (records, bytes, highest, lowest) = bufs.fetch_from_buffer("t", 0, 1, 3, 1000);
    let offsets: Vec<i64> = records.iter().map(|r| r.offset).collect();
    assert_eq!(offsets, vec![1, 2]);
    assert_eq!(records[0].timestamp, 1_001);
    assert_eq!(records[1].value, b"c".to_vec());
    // (1 + 1 + 24) for the keyed record, (1 + 24) for the other.
    assert_eq!(bytes, 51);
    assert_eq!(highest, 2);
    assert_eq!(lowest, 0);
}

#[test]
fn buffered_records_stop_at_the_budget_within_a_batch() {
    let b0 = batch(0, 0, &[record_bytes(0, 0, None, b"a", &[]), record_bytes(0, 1, None, b"b", &[])]);
    let b1 = batch(2, 0, &[record_bytes(0, 0, None, b"", &[])]);
    let mut bufs = PartitionBuffers::new();
    bufs.update_buffer_with_raw_batch("t", 0, &b0, 0, 1, 2, 2);
    bufs.update_buffer_with_raw_batch("t", 0, &b1, 2, 2, 1, 3);
    // 25 bytes each for the first two; the budget of 49 cuts the first
    // batch after one record, and the next batch's 24-byte record fits.
    let (records, bytes, highest, _) = bufs.fetch_from_buffer("t", 0, 0, 3, 49);
    let offsets: Vec<i64> = records.iter().map(|r| r.offset).collect();
    assert_eq!(offsets, vec![0, 2]);
    assert_eq!(bytes, 49);
    assert_eq!(highest, 2);
}

#[test]
fn buffered_batches_that_fail_to_decode_are_passed_over() {
    let good = batch(5, 0, &[record_bytes(0, 0, None, b"x", &[])]);
    let mut bufs = PartitionBuffers::new();
    bufs.update_buffer_with_raw_batch("t", 0, &[1, 2, 3], 0, 4, 5, 5);
    bufs.update_buffer_with_raw_batch("t", 0, &good, 5, 5, 1, 6);
    let (records, bytes, highest, lowest) = bufs.fetch_from_buffer("t", 0, 0, 6, 1000);
    assert_eq!(records.len(), 1);
    assert_eq!(records[0].offset, 5);
    assert_eq!((bytes, highest, lowest), (25, 5, 0));
}

#[test]
fn a_partition_without_a_buffer_serves_nothing() {
    let bufs = PartitionBuffers::new();
    let (records, bytes, highest, lowest) = bufs.fetch_from_buffer("t", 0, 0, 6, 1000);
    assert!(records.is_empty());
    assert_eq!((bytes, highest, lowest), (0, -1, -1));
}

// ----- raw Kafka batches of a segment -----

#[test]
fn decoded_batches_get_the_segments_offsets() {
    let mut all = Vec::new();
    let first = DecodedKafkaBatch {
        base_timestamp: 1_000,
        records: vec![
            DecodedKafkaRecord { timestamp_delta: 0, key: None, value: Some(b"a".to_vec()), headers: vec![] },
            DecodedKafkaRecord {
                timestamp_delta: 5,
                key: Some(b"k".to_vec()),
                value: None,
                headers: vec![("h".to_string(), None), ("g".to_string(), Some(b"v".to_vec()))],
            },
        ],
    };
    let next = RawKafkaBatchDecoder::append_batch(&mut all, 40, first);
    assert_eq!(next, 42);
    let second = DecodedKafkaBatch {
        base_timestamp: 2_000,
        records: vec![DecodedKafkaRecord { timestamp_delta: -1, key: None, value: Some(b"c".to_vec()), headers: vec![] }],
    };
    let next = RawKafkaBatchDecoder::append_batch(&mut all, next, second);
    assert_eq!(next, 43);
    let offsets: Vec<i64> = all.iter().map(|r| r.offset).collect();
    assert_eq!(offsets, vec![40, 41, 42]);
    let timestamps: Vec<i64> = all.iter().map(|r| r.timestamp).collect();
    assert_eq!(timestamps, vec![1_000, 1_005, 1_999]);
    assert_eq!(all[1].key, Some(b"k".to_vec()));
    assert_eq!(all[1].value, Vec::<u8>::new());
    assert_eq!(all[1].headers, vec![("h".to_string(), vec![]), ("g".to_string(), b"v".to_vec())]);
}

#[test]
fn an_empty_decoded_batch_adds_nothing() {
    let mut all = Vec::new();
    let empty = DecodedKafkaBatch { base_timestamp: 0, records: vec![] };
    assert_eq!(RawKafkaBatchDecoder::append_batch(&mut all, 7, empty), 7);
    assert!(all.is_empty());
}

// ----- a partition's answer -----

#[test]
fn fetching_below_the_log_start_is_out_of_range() {
    let e = check_offset_range(2, 5, 10, 30).unwrap();
    assert_eq!((e.partition, e.error_code, e.high_watermark, e.last_stable_offset, e.log_start_offset), (2, 1, 30, 30, 10));
    assert_eq!(e.preferred_read_replica, -1);
    assert!(e.records.is_empty());
    assert!(check_offset_range(2, 10, 10, 30).is_none());
}

#[test]
fn a_partition_led_elsewhere_is_refused() {
    let e = reject_if_not_leader(1, 4, Some(2)).unwrap();
    assert_eq!((e.partition, e.error_code, e.high_watermark, e.last_stable_offset, e.log_start_offset), (4, 6, -1, -1, -1));
    assert!(reject_if_not_leader(1, 4, Some(1)).is_none());
    assert!(reject_if_not_leader(1, 4, None).is_none());
    assert!(reject_if_not_leader(0, 4, Some(2)).is_none());
}

#[test]
fn unknown_topics_and_partitions_are_refused() {
    assert_eq!(validate_topic_and_partition(0, None).unwrap().error_code, 3);
    assert_eq!(validate_topic_and_partition(3, Some(3)).unwrap().error_code, 3);
    assert_eq!(validate_topic_and_partition(-1, Some(3)).unwrap().error_code, 3);
    assert!(validate_topic_and_partition(2, Some(3)).is_none());
}

#[test]
fn error_and_success_answers() {
    let e = build_error_response(1, 3, 9);
    assert_eq!((e.error_code, e.high_watermark, e.last_stable_offset, e.log_start_offset), (3, 9, 9, 0));
    let mut ctrl = control_batch();
    let ok = build_success_response(1, 9, 2, ctrl.clone());
    sanitize_batch_crcs(&mut ctrl);
    assert_eq!(ok.records, ctrl);
    assert_eq!((ok.error_code, ok.high_watermark, ok.last_stable_offset, ok.log_start_offset), (0, 9, 9, 2));
}

#[test]
fn the_stored_watermark_stands_in_for_a_missing_one() {
    assert_eq!(high_watermark_with_fallback(12, Some(40)), 12);
    assert_eq!(high_watermark_with_fallback(0, Some(40)), 40);
    assert_eq!(high_watermark_with_fallback(0, Some(0)), 0);
    assert_eq!(high_watermark_with_fallback(0, None), 0);
}

#[test]
fn followers_read_to_the_durable_log_end() {
    assert_eq!(follower_readable_end(0, Some(5)), None);
    assert_eq!(follower_readable_end(10, None), Some(10));
    assert_eq!(follower_readable_end(10, Some(7)), Some(7));
    assert_eq!(follower_readable_end(10, Some(12)), Some(10));
}

#[test]
fn the_segments_end_after_their_highest_offset() {
    assert_eq!(segments_high_watermark(&[]), 0);
    assert_eq!(segments_high_watermark(&[9, 29, 19]), 30);
    assert_eq!(segments_high_watermark(&[-5]), -4);
}

// ----- gathering from the tiers -----

fn rec(offset: i64, value: &[u8]) -> Record {
    Record { offset, timestamp: 0, key: None, value: value.to_vec(), headers: vec![] }
}

fn offsets_and_values(rs: &[Record]) -> Vec<(i64, Vec<u8>)> {
    rs.iter().map(|r| (r.offset, r.value.clone())).collect()
}

#[test]
fn merged_records_come_in_offset_order_without_repeats() {
    let gathered = vec![rec(5, b"b5"), rec(6, b"b6")];
    let more = vec![rec(3, b"w3"), rec(5, b"w5"), rec(4, b"w4"), rec(3, b"w3bis"), rec(7, b"w7")];
    let merged = merge_fetched_records(gathered, more);
    assert_eq!(
        offsets_and_values(&merged),
        vec![
            (3, b"w3".to_vec()),
            (4, b"w4".to_vec()),
            (5, b"b5".to_vec()),
            (6, b"b6".to_vec()),
            (7, b"w7".to_vec()),
        ]
    );
}

#[test]
fn equal_offsets_already_gathered_keep_their_order() {
    let gathered = vec![rec(2, b"x"), rec(1, b"a"), rec(2, b"y")];
    let merged = merge_fetched_records(gathered, vec![rec(0, b"z")]);
    assert_eq!(
        offsets_and_values(&merged),
        vec![(0, b"z".to_vec()), (1, b"a".to_vec()), (2, b"x".to_vec()), (2, b"y".to_vec())]
    );
    assert!(merge_fetched_records(vec![], vec![]).is_empty());
}

#[test]
fn tiers_are_read_when_the_buffer_falls_short() {
    assert!(budget_met(2, 100, 100));
    assert!(!budget_met(2, 99, 100));
    assert!(!budget_met(0, 0, 0));
    assert!(needs_earlier_records(0, -1, 5));
    assert!(needs_earlier_records(3, 10, 5));
    assert!(!needs_earlier_records(3, 10, 10));
    assert!(!needs_earlier_records(3, -1, 5));
    // Fetching below what the buffer still holds reads the log.
    assert!(should_read_wal(3, 10, 8, 5));
    assert!(should_read_wal(3, 10, 8, 9));
    assert!(!should_read_wal(3, 10, 8, 10));
    assert!(should_read_wal(0, -1, -1, 0));
}

#[test]
fn a_fetch_reads_the_segments_overlapping_its_range() {
    let span = |id: &str, base: i64, last: i64| SegmentSpan {
        segment_id: id.to_string(),
        base_offset: base,
        last_offset: last,
        object_key: format!("segments/t/0/{}", id),
    };
    let segs = vec![span("a", 0, 9), span("b", 10, 19), span("c", 20, 29)];
    let ids = |v: Vec<SegmentSpan>| v.into_iter().map(|s| s.segment_id).collect::<Vec<_>>();
    assert_eq!(ids(segments_for_range(segs.clone(), 9, 20)), vec!["a", "b"]);
    assert_eq!(ids(segments_for_range(segs.clone(), 10, 21)), vec!["b", "c"]);
    assert_eq!(ids(segments_for_range(segs.clone(), 30, 40)), Vec::<String>::new());
    let kept = segments_for_range(segs, 25, 26);
    assert_eq!(kept[0].object_key, "segments/t/0/c");
}

// ----- uploaded segments -----

fn entry(offset: i64, key: Option<&[u8]>, value: Option<&[u8]>) -> CanonicalEntry {
    CanonicalEntry {
        offset,
        timestamp: 100 + offset,
        key: key.map(|k| k.to_vec()),
        value: value.map(|v| v.to_vec()),
        headers: vec![],
    }
}

#[test]
fn overlapping_segments_are_read_in_offset_order() {
    let segs = vec![
        ("s/20".to_string(), 20, 29),
        ("s/0".to_string(), 0, 9),
        ("s/10".to_string(), 10, 19),
        ("s/10b".to_string(), 10, 12),
        ("s/40".to_string(), 40, 49),
    ];
    let r = matching_segments(segs, 5, 25);
    let keys: Vec<&str> = r.iter().map(|s| s.0.as_str()).collect();
    assert_eq!(keys, vec!["s/0", "s/10", "s/10b", "s/20"]);
    assert!(matching_segments(vec![("s/0".to_string(), 0, 9)], 10, 20).is_empty());
}

#[test]
fn stored_records_in_range_are_served_within_the_budget() {
    let mut records = Vec::new();
    let mut bytes = 0usize;
    let batches = vec![
        vec![entry(3, None, Some(b"x")), entry(5, Some(b"k"), Some(b"vv")), entry(6, None, None)],
        vec![entry(7, None, Some(b"y")), entry(9, None, Some(b"z"))],
    ];
    serve_segment_records(&mut records, &mut bytes, batches, 5, 9, 1000);
    let offsets: Vec<i64> = records.iter().map(|r| r.offset).collect();
    assert_eq!(offsets, vec![5, 6, 7]);
    assert_eq!(records[0].timestamp, 105);
    assert_eq!(records[0].key, Some(b"k".to_vec()));
    assert_eq!(records[1].value, Vec::<u8>::new());
    // (2 + 1 + 24) + (0 + 24) + (1 + 24)
    assert_eq!(bytes, 76);
}

#[test]
fn the_budget_cuts_a_batch_but_the_next_batch_is_still_read() {
    let mut records = Vec::new();
    let mut bytes = 0usize;
    let batches = vec![
        vec![entry(0, None, Some(b"a")), entry(1, None, Some(b"bb")), entry(2, None, Some(b""))],
        vec![entry(3, None, Some(b""))],
    ];
    // 25 for the first; the second (26) would pass 50; the rest of that
    // batch is left, and the next batch's 24-byte record fits.
    serve_segment_records(&mut records, &mut bytes, batches, 0, 10, 50);
    let offsets: Vec<i64> = records.iter().map(|r| r.offset).collect();
    assert_eq!(offsets, vec![0, 3]);
    assert_eq!(bytes, 49);
}

#[test]
fn stored_headers_without_a_value_are_dropped() {
    let mut records = Vec::new();
    let mut bytes = 0usize;
    let mut e = entry(0, None, Some(b"a"));
    e.headers = vec![("h".to_string(), None), ("g".to_string(), Some(b"v".to_vec()))];
    serve_segment_records(&mut records, &mut bytes, vec![vec![e]], 0, 1, 100);
    assert_eq!(records[0].headers, vec![("g".to_string(), b"v".to_vec())]);
}

// ----- raw batches of stored segments -----

fn stored_batch(base_offset: i64, last_delta: i32, body_len: usize, fill: u8) -> Vec<u8> {
    let mut b = framed(base_offset, body_len);
    b[23..27].copy_from_slice(&last_delta.to_be_bytes());
    for x in b[27..].iter_mut() {
        *x = fill;
    }
    b
}

#[test]
fn stored_batches_overlapping_the_range_are_copied_whole() {
    let a = stored_batch(0, 4, 60, 1);
    let b = stored_batch(5, 4, 60, 2);
    let c = stored_batch(10, 4, 60, 3);
    let raw = [a.clone(), b.clone(), c.clone()].concat();
    let mut combined = Vec::new();
    append_raw_segment_batches(&mut combined, &raw, 5, 10, 10_000);
    assert_eq!(combined, b);
    let mut combined = Vec::new();
    append_raw_segment_batches(&mut combined, &raw, 4, 11, 10_000);
    assert_eq!(combined, raw);
}

#[test]
fn stored_batches_stop_at_the_budget_and_trailing_bytes_are_ignored() {
    let a = stored_batch(0, 4, 60, 1);
    let b = stored_batch(5, 4, 60, 2);
    let mut raw = [a.clone(), b.clone()].concat();
    raw.extend_from_slice(&[9u8; 30]);
    // Each batch is 72 bytes: the budget of 100 takes one.
    let mut combined = Vec::new();
    append_raw_segment_batches(&mut combined, &raw, 0, 100, 100);
    assert_eq!(combined, a);
    // Something already served from an earlier segment counts too.
    let mut combined = vec![7u8; 50];
    append_raw_segment_batches(&mut combined, &raw, 0, 100, 100);
    assert_eq!(combined, vec![7u8; 50]);
    // A batch is always served when nothing is yet.
    let mut combined = Vec::new();
    append_raw_segment_batches(&mut combined, &raw, 0, 100, 1);
    assert_eq!(combined, a);
}

// ----- fetch settings -----

#[test]
fn fetch_settings_default_when_unset_or_unreadable() {
    let c = FetchHandlerConfig::from_settings(None, None);
    assert!(c.allow_follower_reads);
    assert_eq!(c.follower_read_max_wait_ms, 1000);
    assert_eq!(c.node_id, 0);
    let c = FetchHandlerConfig::from_settings(Some("yes"), Some("soon"));
    assert!(c.allow_follower_reads);
    assert_eq!(c.follower_read_max_wait_ms, 1000);
}

#[test]
fn fetch_settings_are_read_as_rust_parses_them() {
    let c = FetchHandlerConfig::from_settings(Some("false"), Some("250"));
    assert!(!c.allow_follower_reads);
    assert_eq!(c.follower_read_max_wait_ms, 250);
    assert!(FetchHandlerConfig::from_settings(Some("true"), None).allow_follower_reads);
    assert!(FetchHandlerConfig::from_settings(Some("FALSE"), None).allow_follower_reads);
    assert_eq!(FetchHandlerConfig::from_settings(None, Some("+7")).follower_read_max_wait_ms, 7);
    assert_eq!(FetchHandlerConfig::from_settings(None, Some("-7")).follower_read_max_wait_ms, 1000);
    assert_eq!(FetchHandlerConfig::from_settings(None, Some("+")).follower_read_max_wait_ms, 1000);
    assert_eq!(FetchHandlerConfig::from_settings(None, Some("")).follower_read_max_wait_ms, 1000);
    assert_eq!(
        FetchHandlerConfig::from_settings(None, Some("18446744073709551615")).follower_read_max_wait_ms,
        u64::MAX
    );
    assert_eq!(FetchHandlerConfig::from_settings(None, Some("18446744073709551616")).follower_read_max_wait_ms, 1000);
}

#[test]
fn u64_parsing_matches_the_standard_library() {
    for s in ["0", "42", "+42", "007", "-0", "4 2", " 42", "", "+", "99999999999999999999", "18446744073709551615"] {
        assert_eq!(parse_u64(s), s.parse::<u64>().ok(), "{:?}", s);
    }
}

#[test]
fn archived_entries_come_back_sorted_by_offset() {
    let mut a = entry(7, Some(b"k"), Some(b"late"));
    a.headers = vec![("h".to_string(), None), ("g".to_string(), Some(b"v".to_vec()))];
    let entries = vec![a, entry(3, None, None), entry(5, None, Some(b"first5")), entry(5, None, Some(b"second5"))];
    let records = archive_records(entries);
    assert_eq!(
        offsets_and_values(&records),
        vec![(3, vec![]), (5, b"first5".to_vec()), (5, b"second5".to_vec()), (7, b"late".to_vec())]
    );
    assert_eq!(records[3].headers, vec![("g".to_string(), b"v".to_vec())]);
    assert_eq!(records[3].key, Some(b"k".to_vec()));
    assert!(archive_records(vec![]).is_empty());
}

#[test]
fn records_sort_stably_by_offset() {
    let sorted = sort_by_offset(vec![rec(2, b"a"), rec(1, b"b"), rec(2, b"c"), rec(0, b"d")]);
    assert_eq!(
        offsets_and_values(&sorted),
        vec![(0, b"d".to_vec()), (1, b"b".to_vec()), (2, b"a".to_vec()), (2, b"c".to_vec())]
    );
}

#[test]
fn a_parked_fetch_wakes_for_data_beyond_its_offset() {
    assert_eq!(data_beyond(Some(11), None, 10, -1), DataBeyond::Yes);
    assert_eq!(data_beyond(Some(10), None, 10, -1), DataBeyond::No);
    assert_eq!(data_beyond(None, Some(10), 10, 1), DataBeyond::No);
    assert_eq!(data_beyond(Some(5), Some(20), 10, 1), DataBeyond::Yes);
    assert_eq!(data_beyond(None, Some(20), 10, -1), DataBeyond::IfConsumersSeeBeyond(20));
}

// ----- fetching across segments and the buffer -----

#[test]
fn the_highest_segment_offset_is_the_largest_last_offset() {
    assert_eq!(max_segment_offset(&vec![]), -1);
    assert_eq!(max_segment_offset(&vec![9, 29, 19]), 29);
    assert_eq!(max_segment_offset(&vec![-5, -7]), -5);
}

#[test]
fn segment_steps_read_skip_and_stop() {
    let mut f = SegmentFetch::new(10);
    // a segment ending before offset 10 is skipped
    assert_eq!(f.next_segment(9, 29, 100, 1000), SegmentStep::Skip);
    // the read stops at the segments' end or the high watermark, whichever is lower
    assert_eq!(f.next_segment(19, 29, 100, 1000), SegmentStep::Read { from_offset: 10, to_offset: 30, max_bytes: 1000 });
    assert_eq!(f.next_segment(19, 29, 25, 1000), SegmentStep::Read { from_offset: 10, to_offset: 25, max_bytes: 1000 });
    f.take_segment_records(vec![create_test_record(10, 76), create_test_record(11, 76)], 1000);
    assert_eq!((f.records.len(), f.current_offset, f.bytes_fetched), (2, 12, 200));
    assert_eq!(f.next_segment(19, 29, 100, 1000), SegmentStep::Read { from_offset: 12, to_offset: 30, max_bytes: 800 });
    // budget spent with something taken: stop
    assert_eq!(f.next_segment(19, 29, 100, 200), SegmentStep::Stop);
}

#[test]
fn a_segment_stops_after_the_record_that_spends_the_budget() {
    let mut f = SegmentFetch::new(0);
    let rs = vec![create_test_record(0, 76), create_test_record(1, 76), create_test_record(2, 76)];
    f.take_segment_records(rs, 150);
    assert_eq!(f.records.iter().map(|r| r.offset).collect::<Vec<_>>(), vec![0, 1]);
    assert_eq!((f.current_offset, f.bytes_fetched), (2, 200));
}

#[test]
fn the_segment_phase_ends_past_the_segments() {
    let mut f = SegmentFetch::new(3);
    f.end_segment_phase(29);
    assert_eq!(f.current_offset, 30);
    let mut g = SegmentFetch::new(40);
    g.end_segment_phase(29);
    assert_eq!(g.current_offset, 40);
}

#[test]
fn the_buffer_phase_takes_batches_past_the_segments() {
    let mut buffer = PartitionBuffer::new(0, 20);
    let first = batch(5, 1000, &[record_bytes(0, 0, None, b"a", &[]), record_bytes(0, 1, None, b"b", &[])]);
    let second = batch(7, 1000, &[record_bytes(0, 0, None, b"c", &[])]);
    buffer.store(&first, 5, 6, 2, 7);
    buffer.store(&second, 7, 7, 1, 8);
    // segments hold up to 5: the first batch starts inside them and is passed over
    let mut f = SegmentFetch::new(6);
    f.take_from_buffer(&buffer, 5, 8, 1000);
    assert_eq!(f.records.iter().map(|r| r.offset).collect::<Vec<_>>(), vec![7]);
    assert_eq!((f.current_offset, f.bytes_fetched), (8, 25));
    // nothing held back by segments: both batches, from offset 6
    let mut g = SegmentFetch::new(6);
    g.take_from_buffer(&buffer, 4, 8, 1000);
    assert_eq!(g.records.iter().map(|r| r.offset).collect::<Vec<_>>(), vec![6, 7]);
    // the high watermark already reached: nothing
    let mut h = SegmentFetch::new(8);
    h.take_from_buffer(&buffer, 4, 8, 1000);
    assert!(h.records.is_empty());
}

#[test]
fn flushing_a_partition_without_a_buffer_to_the_end_changes_nothing() {
    let mut bufs = PartitionBuffers::new();
    bufs.update_buffer_with_raw_batch("t", 0, &[1], 0, 0, 1, 1);
    bufs.mark_flushed("u", 0, i64::MAX);
    assert_eq!(bufs.len(), 1);
    assert!(bufs.get("u", 0).is_none());
    assert_eq!(bufs.get("t", 0).unwrap().raw_batches.len(), 1);
}

#[test]
fn batch_walks_can_be_checked_before_they_run() {
    let mut bytes = framed(0, 20);
    bytes.extend(framed(5, 20));
    assert!(keep_len_walk_fits(&bytes, 5));
    assert!(keep_len_walk_fits(&[], 5));
    let a = stored_batch(0, 4, 60, 1);
    let b = stored_batch(5, 4, 60, 2);
    let raw = [a.clone(), b.clone()].concat();
    assert!(raw_segment_walk_fits(&Vec::new(), &raw, 5, 10, 10_000));
    // a copied batch claiming more bytes than there are
    let mut short = stored_batch(5, 4, 60, 2);
    short[8..12].copy_from_slice(&1000i32.to_be_bytes());
    assert!(!raw_segment_walk_fits(&Vec::new(), &short, 5, 10, 10_000));
    // a last offset past i64::MAX
    let mut over = stored_batch(i64::MAX, 4, 60, 2);
    over[23..27].copy_from_slice(&4i32.to_be_bytes());
    assert!(!raw_segment_walk_fits(&Vec::new(), &over, 5, 10, 10_000));
}

#[test]
fn a_batch_that_would_panic_is_told_apart() {
    let good = batch(5, 1000, &[record_bytes(0, 0, None, b"a", &[])]);
    assert!(raw_batch_decodes(&good, 0, 100));
    assert!(raw_batch_decodes(&[0u8; 10], 0, 100));
    // a length varint of six groups runs past the five an i32 has room for
    let bad = batch(5, 1000, &[vec![0xff, 0xff, 0xff, 0xff, 0xff, 0x01]]);
    assert!(!raw_batch_decodes(&bad, 0, 100));
}
