use chronik_server::watermark_recovery::{
    find_max_offset_in_records, recovered_high_watermark, segment_high_watermarks,
    should_restore_watermark,
};

#[test]
fn the_highest_replayed_offset_is_found() {
    assert_eq!(find_max_offset_in_records(&[]), -1);
    assert_eq!(find_max_offset_in_records(&[3, 9, -1, 4]), 9);
    assert_eq!(find_max_offset_in_records(&[-1, -1]), -1);
}

#[test]
fn a_replayed_partition_resumes_after_its_last_offset() {
    assert_eq!(recovered_high_watermark(9), Some(10));
    assert_eq!(recovered_high_watermark(0), Some(1));
    assert_eq!(recovered_high_watermark(-1), None);
}

fn seg(topic: &str, partition: u32, end: i64) -> (String, u32, i64) {
    (topic.to_string(), partition, end)
}

#[test]
fn each_partition_gets_one_past_its_highest_segment_end() {
    let r = segment_high_watermarks(&[seg("a", 0, 9), seg("b", 0, 4), seg("a", 0, 19), seg("a", 1, 2), seg("a", 0, 14)]);
    assert_eq!(
        r,
        vec![(("a".to_string(), 0), 20), (("b".to_string(), 0), 5), (("a".to_string(), 1), 3)]
    );
}

#[test]
fn a_watermark_of_minus_one_or_less_is_left_out() {
    let r = segment_high_watermarks(&[seg("a", 0, -2), seg("b", 0, -1)]);
    assert_eq!(r, vec![(("b".to_string(), 0), 0)]);
    assert!(segment_high_watermarks(&[]).is_empty());
}

#[test]
fn a_higher_stored_watermark_is_kept() {
    assert!(should_restore_watermark(None, 5));
    assert!(should_restore_watermark(Some(4), 5));
    assert!(!should_restore_watermark(Some(5), 5));
    assert!(!should_restore_watermark(Some(9), 5));
}
