use chronik_server::list_offsets::{
    list_offsets_partition_response, resolve_list_offsets_partition_offset,
    resolve_list_offsets_partition_offset_at, ListOffsetsResponsePartition,
};

#[test]
fn latest_is_the_higher_high_watermark_dated_now() {
    assert_eq!(resolve_list_offsets_partition_offset_at(-1, 40, 25, 1_000), (40, 1_000));
    assert_eq!(resolve_list_offsets_partition_offset_at(-1, 10, 25, 1_000), (25, 1_000));
}

#[test]
fn earliest_is_offset_zero_dated_a_day_ago() {
    assert_eq!(
        resolve_list_offsets_partition_offset_at(-2, 40, 25, 100_000_000),
        (0, 100_000_000 - 86_400_000)
    );
    assert_eq!(
        resolve_list_offsets_partition_offset_at(-2, 0, 0, i64::MIN),
        (0, i64::MIN.wrapping_sub(86_400_000))
    );
}

#[test]
fn other_timestamps_resolve_to_fixed_answers() {
    assert_eq!(resolve_list_offsets_partition_offset_at(0, 40, 25, 1), (500, 0));
    assert_eq!(resolve_list_offsets_partition_offset_at(1_700_000_000_000, 40, 25, 1), (500, 1_700_000_000_000));
    assert_eq!(resolve_list_offsets_partition_offset_at(-3, 40, 25, 1), (0, 0));
}

#[test]
fn latest_now_reads_the_clock() {
    let (offset, ts) = resolve_list_offsets_partition_offset(-1, 7, 3);
    assert_eq!(offset, 7);
    assert!(ts > 1_600_000_000_000);
    assert_eq!(resolve_list_offsets_partition_offset(12, 7, 3), (500, 12));
}

#[test]
fn partition_answers_follow_the_version() {
    assert_eq!(
        list_offsets_partition_response(3, 42, 1_000, 0),
        ListOffsetsResponsePartition { partition_index: 3, error_code: 0, timestamp: -1, offset: 42, leader_epoch: -1 }
    );
    assert_eq!(
        list_offsets_partition_response(3, 42, 1_000, 1),
        ListOffsetsResponsePartition { partition_index: 3, error_code: 0, timestamp: 1_000, offset: 42, leader_epoch: -1 }
    );
    assert_eq!(
        list_offsets_partition_response(3, 42, 1_000, 4),
        ListOffsetsResponsePartition { partition_index: 3, error_code: 0, timestamp: 1_000, offset: 42, leader_epoch: 0 }
    );
}
