use chronik_server::kafka_request::{
    parse_first_created_topic, parse_list_offsets_request, parse_metadata_topics, read_compact_string, read_string, read_unsigned_varint,
    skip_tagged_fields, ListOffsetsRequestPartition, ProtocolError,
};

fn string(s: &str) -> Vec<u8> {
    let mut v = (s.len() as i16).to_be_bytes().to_vec();
    v.extend_from_slice(s.as_bytes());
    v
}

fn compact(s: &str) -> Vec<u8> {
    let mut v = vec![(s.len() + 1) as u8];
    v.extend_from_slice(s.as_bytes());
    v
}

#[test]
fn unsigned_varints_have_at_most_five_groups() {
    assert_eq!(read_unsigned_varint(&[0x05], 0), Ok((5, 1)));
    assert_eq!(read_unsigned_varint(&[0xac, 0x02], 0), Ok((300, 2)));
    assert_eq!(read_unsigned_varint(&[0xff, 0xff, 0xff, 0xff, 0x0f], 0), Ok((u32::MAX, 5)));
    assert_eq!(read_unsigned_varint(&[0x80, 0x80, 0x80, 0x80, 0x80, 0x01], 0), Err(ProtocolError::VarintTooLong));
    assert_eq!(read_unsigned_varint(&[0x80], 0), Err(ProtocolError::Truncated));
}

#[test]
fn strings_and_compact_strings() {
    assert_eq!(read_string(&string("abc"), 0), Ok((Some("abc".to_string()), 5)));
    assert_eq!(read_string(&[0xff, 0xff], 0), Ok((None, 2)));
    assert_eq!(read_string(&[0, 4, b'a'], 0), Err(ProtocolError::Truncated));
    assert_eq!(read_string(&[0, 1, 0xff], 0), Err(ProtocolError::InvalidUtf8));
    assert_eq!(read_compact_string(&compact("xy"), 0), Ok((Some("xy".to_string()), 3)));
    assert_eq!(read_compact_string(&[0], 0), Ok((None, 1)));
}

#[test]
fn tagged_fields_are_stepped_over() {
    // Two fields: tag 1 with 2 bytes, tag 5 with 0 bytes; then a trailing byte.
    assert_eq!(skip_tagged_fields(&[2, 1, 2, 0xaa, 0xbb, 5, 0, 0x77], 0), Ok(7));
    assert_eq!(skip_tagged_fields(&[0], 0), Ok(1));
    assert_eq!(skip_tagged_fields(&[1, 1, 3, 0], 0), Err(ProtocolError::Truncated));
}

fn list_offsets_v1() -> Vec<u8> {
    let mut b = (-1i32).to_be_bytes().to_vec(); // replica id
    b.extend_from_slice(&1i32.to_be_bytes()); // one topic
    b.extend(string("orders"));
    b.extend_from_slice(&2i32.to_be_bytes()); // two partitions
    b.extend_from_slice(&0i32.to_be_bytes());
    b.extend_from_slice(&(-1i64).to_be_bytes());
    b.extend_from_slice(&3i32.to_be_bytes());
    b.extend_from_slice(&(-2i64).to_be_bytes());
    b
}

#[test]
fn list_offsets_v1_reads_partitions_and_timestamps() {
    let r = parse_list_offsets_request(&list_offsets_v1(), 1).unwrap();
    assert_eq!((r.replica_id, r.isolation_level), (-1, 0));
    assert_eq!(r.topics.len(), 1);
    assert_eq!(r.topics[0].name, "orders");
    assert_eq!(
        r.topics[0].partitions,
        vec![
            ListOffsetsRequestPartition { partition_index: 0, current_leader_epoch: -1, timestamp: -1 },
            ListOffsetsRequestPartition { partition_index: 3, current_leader_epoch: -1, timestamp: -2 },
        ]
    );
}

#[test]
fn list_offsets_v0_has_a_max_offsets_field() {
    let mut b = 5i32.to_be_bytes().to_vec();
    b.extend_from_slice(&1i32.to_be_bytes());
    b.extend(string("t"));
    b.extend_from_slice(&1i32.to_be_bytes());
    b.extend_from_slice(&7i32.to_be_bytes());
    b.extend_from_slice(&1234i64.to_be_bytes());
    b.extend_from_slice(&100i32.to_be_bytes()); // max number of offsets
    let r = parse_list_offsets_request(&b, 0).unwrap();
    assert_eq!(r.replica_id, 5);
    assert_eq!(r.topics[0].partitions, vec![ListOffsetsRequestPartition { partition_index: 7, current_leader_epoch: -1, timestamp: 1234 }]);
}

#[test]
fn list_offsets_v4_reads_isolation_and_leader_epoch() {
    let mut b = (-1i32).to_be_bytes().to_vec();
    b.push(1); // isolation level
    b.extend_from_slice(&1i32.to_be_bytes());
    b.extend(string("t"));
    b.extend_from_slice(&1i32.to_be_bytes());
    b.extend_from_slice(&2i32.to_be_bytes());
    b.extend_from_slice(&9i32.to_be_bytes()); // current leader epoch
    b.extend_from_slice(&(-1i64).to_be_bytes());
    let r = parse_list_offsets_request(&b, 4).unwrap();
    assert_eq!(r.isolation_level, 1);
    assert_eq!(r.topics[0].partitions, vec![ListOffsetsRequestPartition { partition_index: 2, current_leader_epoch: 9, timestamp: -1 }]);
}

#[test]
fn list_offsets_v6_is_flexible() {
    let mut b = (-1i32).to_be_bytes().to_vec();
    b.push(0); // isolation level
    b.push(2); // one topic (compact: count + 1)
    b.extend(compact("t"));
    b.push(2); // one partition
    b.extend_from_slice(&4i32.to_be_bytes());
    b.extend_from_slice(&0i32.to_be_bytes());
    b.extend_from_slice(&(-2i64).to_be_bytes());
    b.push(0); // partition tagged fields
    b.push(0); // topic tagged fields
    b.push(0); // request tagged fields
    let r = parse_list_offsets_request(&b, 6).unwrap();
    assert_eq!(r.topics[0].name, "t");
    assert_eq!(r.topics[0].partitions, vec![ListOffsetsRequestPartition { partition_index: 4, current_leader_epoch: 0, timestamp: -2 }]);
}

#[test]
fn list_offsets_refusals() {
    let b = list_offsets_v1();
    assert_eq!(parse_list_offsets_request(&b[..b.len() - 1], 1).unwrap_err(), ProtocolError::Truncated);
    let mut null_name = (-1i32).to_be_bytes().to_vec();
    null_name.extend_from_slice(&1i32.to_be_bytes());
    null_name.extend_from_slice(&(-1i16).to_be_bytes());
    assert_eq!(parse_list_offsets_request(&null_name, 1).unwrap_err(), ProtocolError::NullTopicName);
    let mut too_many = (-1i32).to_be_bytes().to_vec();
    too_many.extend_from_slice(&10_001i32.to_be_bytes());
    assert_eq!(parse_list_offsets_request(&too_many, 1).unwrap_err(), ProtocolError::InvalidCount(10_001));
    let mut negative = (-1i32).to_be_bytes().to_vec();
    negative.extend_from_slice(&(-1i32).to_be_bytes());
    assert_eq!(parse_list_offsets_request(&negative, 1).unwrap_err(), ProtocolError::InvalidCount(-1));
}

#[test]
fn metadata_v0_asks_for_every_topic() {
    assert_eq!(parse_metadata_topics(&[], 0), Ok((None, true)));
}

#[test]
fn metadata_v1_lists_the_named_topics() {
    let mut b = 2i32.to_be_bytes().to_vec();
    b.extend(string("a"));
    b.extend_from_slice(&(-1i16).to_be_bytes()); // a null name is left out
    assert_eq!(parse_metadata_topics(&b, 1), Ok((Some(vec!["a".to_string()]), true)));
    assert_eq!(parse_metadata_topics(&(-1i32).to_be_bytes(), 1), Ok((None, true)));
}

#[test]
fn metadata_v4_reads_the_auto_creation_flag() {
    let mut b = 0i32.to_be_bytes().to_vec();
    b.push(0);
    assert_eq!(parse_metadata_topics(&b, 4), Ok((Some(vec![]), false)));
    let mut b = 0i32.to_be_bytes().to_vec();
    b.push(1);
    assert_eq!(parse_metadata_topics(&b, 4), Ok((Some(vec![]), true)));
    assert_eq!(parse_metadata_topics(&0i32.to_be_bytes(), 4), Err(ProtocolError::Truncated));
}

#[test]
fn metadata_v10_is_flexible_with_topic_ids() {
    let mut b = vec![2u8]; // one topic
    b.extend_from_slice(&[7u8; 16]); // topic id
    b.extend(compact("orders"));
    b.push(0); // tagged fields
    b.push(1); // allow auto-creation
    assert_eq!(parse_metadata_topics(&b, 10), Ok((Some(vec!["orders".to_string()]), true)));
    // A null array (compact 0) asks for every topic.
    assert_eq!(parse_metadata_topics(&[0, 1], 9), Ok((None, true)));
}

#[test]
fn create_topics_first_topic_is_read() {
    let mut b = 2i32.to_be_bytes().to_vec();
    b.extend(string("orders"));
    b.extend_from_slice(&6i32.to_be_bytes());
    b.extend(string("ignored"));
    assert_eq!(parse_first_created_topic(&b, 0), Ok(Some(("orders".to_string(), 6))));
    assert_eq!(parse_first_created_topic(&0i32.to_be_bytes(), 0), Ok(None));
    assert_eq!(parse_first_created_topic(&(-3i32).to_be_bytes(), 0), Ok(None));
    let mut null_name = 1i32.to_be_bytes().to_vec();
    null_name.extend_from_slice(&(-1i16).to_be_bytes());
    null_name.extend_from_slice(&3i32.to_be_bytes());
    assert_eq!(parse_first_created_topic(&null_name, 0), Ok(Some((String::new(), 3))));
}

#[test]
fn create_topics_v5_uses_compact_encodings() {
    let mut b = vec![2u8];
    b.extend(compact("t"));
    b.extend_from_slice(&1i32.to_be_bytes());
    assert_eq!(parse_first_created_topic(&b, 5), Ok(Some(("t".to_string(), 1))));
    assert_eq!(parse_first_created_topic(&[1u8], 5), Ok(None));
    assert_eq!(parse_first_created_topic(&[2u8], 5), Err(ProtocolError::Truncated));
}
