use chronik_server::consumer_group::sync_leader::client_assignments_decode_stop;
use chronik_server::consumer_group::assignment::{assignment_decode_stops, decode_assignment, encode_assignment, DecodeError};
use chronik_server::consumer_group::group::{
    Assignment, AssignmentStrategy, ConsumerGroup, GroupMember, GroupState, MemberAssignment,
};
use chronik_server::consumer_group::sync_follower::FollowerSync;
use chronik_server::consumer_group::sync_leader::LeaderAssignment;
use chronik_server::consumer_group::sync_response::SyncResponseBuilder;
use chronik_server::consumer_group::sync_validation::SyncValidator;

fn member(id: &str, epoch: i32) -> GroupMember {
    GroupMember {
        member_id: id.to_string(),
        member_epoch: epoch,
        ..Default::default()
    }
}

#[test]
fn test_should_wait_for_leader_true() {
    let group = ConsumerGroup {
        group_id: "test-group".to_string(),
        state: GroupState::CompletingRebalance,
        ..Default::default()
    };
    assert!(FollowerSync::should_wait_for_leader(&group, false));
}

#[test]
fn test_should_wait_for_leader_false_when_leader() {
    let group = ConsumerGroup {
        group_id: "test-group".to_string(),
        state: GroupState::CompletingRebalance,
        ..Default::default()
    };
    assert!(!FollowerSync::should_wait_for_leader(&group, true));
}

#[test]
fn test_should_wait_for_leader_false_when_stable() {
    let group = ConsumerGroup {
        group_id: "test-group".to_string(),
        state: GroupState::Stable,
        ..Default::default()
    };
    assert!(!FollowerSync::should_wait_for_leader(&group, false));
}

#[test]
fn test_apply_assignments_transitions_to_stable() {
    let mut group = ConsumerGroup {
        group_id: "test-group".to_string(),
        generation_id: 5,
        state: GroupState::CompletingRebalance,
        members: vec![member("member-1", 0)],
        rebalance_start_time: Some(1234),
        ..Default::default()
    };
    let assignments = vec![MemberAssignment {
        member_id: "member-1".to_string(),
        assignment: Assignment::new(),
    }];
    LeaderAssignment::apply_assignments(&mut group, &assignments);
    assert_eq!(group.state, GroupState::Stable);
    assert!(group.rebalance_start_time.is_none());
}

#[test]
fn test_build_fallback_response_member_exists() {
    let group = ConsumerGroup {
        group_id: "test-group".to_string(),
        members: vec![member("member-1", 3)],
        ..Default::default()
    };
    let response = SyncResponseBuilder::build_fallback_response(&group, "member-1");
    assert_eq!(response.error_code, 0);
    assert_eq!(response.member_epoch, 3);
}

#[test]
fn test_build_fallback_response_member_not_found() {
    let group = ConsumerGroup {
        group_id: "test-group".to_string(),
        ..Default::default()
    };
    let response = SyncResponseBuilder::build_fallback_response(&group, "member-1");
    assert_eq!(response.error_code, 0);
    assert_eq!(response.member_epoch, 0);
    assert!(response.assignment.is_empty());
}

fn recorded_t_2_3() -> Vec<MemberAssignment> {
    let mut a = Assignment::new();
    a.insert("t".to_string(), vec![2, 3]);
    vec![MemberAssignment {
        member_id: "member-2".to_string(),
        assignment: a,
    }]
}

#[test]
fn test_fallback_serves_recorded_assignment_when_member_state_was_cleared() {
    let group = ConsumerGroup {
        group_id: "g".to_string(),
        generation_id: 3,
        members: vec![member("member-2", 1)],
        assignment_strategy: AssignmentStrategy::Range,
        completed_assignments: recorded_t_2_3(),
        completed_generation: 3,
        ..Default::default()
    };
    let response = SyncResponseBuilder::build_fallback_response(&group, "member-2");
    assert_eq!(response.error_code, 0);
    assert!(
        !response.assignment.is_empty(),
        "member was told it owns nothing despite an assignment recorded for generation 3"
    );
}

#[test]
fn test_fallback_ignores_stale_generation_record() {
    let group = ConsumerGroup {
        group_id: "g".to_string(),
        generation_id: 4,
        members: vec![member("member-2", 0)],
        assignment_strategy: AssignmentStrategy::Range,
        completed_assignments: recorded_t_2_3(),
        completed_generation: 3,
        ..Default::default()
    };
    let response = SyncResponseBuilder::build_fallback_response(&group, "member-2");
    assert_eq!(
        response.assignment,
        encode_assignment(&Assignment::new()),
        "a stale generation's assignment must not be served"
    );
}

#[test]
fn test_build_error_response() {
    let response = SyncResponseBuilder::build_error_response(27, 5);
    assert_eq!(response.error_code, 27);
    assert_eq!(response.member_epoch, 5);
    assert!(response.assignment.is_empty());
}

#[test]
fn test_validate_generation_success() {
    let group = ConsumerGroup {
        group_id: "test-group".to_string(),
        generation_id: 5,
        ..Default::default()
    };
    let result = SyncValidator::validate_generation(&group, 5);
    assert!(result.is_none());
}

#[test]
fn test_validate_generation_failure() {
    let group = ConsumerGroup {
        group_id: "test-group".to_string(),
        generation_id: 5,
        ..Default::default()
    };
    let result = SyncValidator::validate_generation(&group, 3);
    assert!(result.is_some());
    assert_eq!(result.unwrap().error_code, 27);
}

#[test]
fn test_is_leader() {
    let group = ConsumerGroup {
        group_id: "test-group".to_string(),
        leader_id: Some("member-1".to_string()),
        ..Default::default()
    };
    assert!(SyncValidator::is_leader(&group, "member-1"));
    assert!(!SyncValidator::is_leader(&group, "member-2"));
}

#[test]
fn test_encode_decode_roundtrip() {
    let mut assignment = Assignment::new();
    assignment.insert("topic1".to_string(), vec![0, 1, 2]);
    assignment.insert("topic2".to_string(), vec![3, 4]);
    let encoded = encode_assignment(&assignment);
    let decoded = decode_assignment(&encoded).unwrap();
    assert_eq!(decoded.len(), 2);
    assert_eq!(decoded.get("topic1"), Some(&vec![0, 1, 2]));
    assert_eq!(decoded.get("topic2"), Some(&vec![3, 4]));
}

#[test]
fn test_decode_empty_assignment() {
    let assignment = Assignment::new();
    let encoded = encode_assignment(&assignment);
    let decoded = decode_assignment(&encoded).unwrap();
    assert_eq!(decoded.len(), 0);
}

// ----- further cases -----

#[test]
fn encoded_assignment_layout_is_exact() {
    let mut a = Assignment::new();
    a.insert("ab".to_string(), vec![7]);
    let bytes = encode_assignment(&a);
    // version 0, one topic "ab", one partition 7, empty user data
    assert_eq!(
        bytes,
        vec![0, 0, 0, 0, 0, 1, 0, 2, b'a', b'b', 0, 0, 0, 1, 0, 0, 0, 7, 0, 0, 0, 0]
    );
}

#[test]
fn decoding_sorts_each_topics_partitions() {
    let mut a = Assignment::new();
    a.insert("t".to_string(), vec![5, 1, 3]);
    let decoded = decode_assignment(&encode_assignment(&a)).unwrap();
    assert_eq!(decoded.get("t"), Some(&vec![1, 3, 5]));
}

#[test]
fn decoding_too_few_bytes_is_an_error() {
    let r = decode_assignment(&[0u8, 0, 0]);
    assert!(matches!(r, Err(DecodeError::Truncated(_))));
}

#[test]
fn a_known_member_with_the_wrong_epoch_is_fenced() {
    let group = ConsumerGroup {
        group_id: "g".to_string(),
        members: vec![member("m", 4)],
        ..Default::default()
    };
    let r = SyncValidator::validate_member_epoch(&group, "m", 3).unwrap();
    assert_eq!(r.error_code, 78);
    assert_eq!(r.member_epoch, 4);
    assert!(SyncValidator::validate_member_epoch(&group, "m", 4).is_none());
    assert!(SyncValidator::validate_member_epoch(&group, "other", 9).is_none());
}

#[test]
fn a_synced_member_leaves_the_pending_list() {
    let mut group = ConsumerGroup {
        group_id: "g".to_string(),
        pending_members: vec!["a".to_string(), "b".to_string()],
        ..Default::default()
    };
    SyncValidator::remove_from_pending(&mut group, "a");
    assert_eq!(group.pending_members, vec!["b".to_string()]);
}

#[test]
fn the_fallback_timer_is_armed_once_every_follower_waits() {
    assert!(FollowerSync::should_arm_fallback(2, 2));
    assert!(!FollowerSync::should_arm_fallback(2, 1));
    assert!(!FollowerSync::should_arm_fallback(0, 0));
}

#[test]
fn a_negative_topic_name_length_is_detected_before_decoding() {
    // version 0, one topic, name length -1
    let mut bad = Vec::new();
    bad.extend_from_slice(&0i16.to_be_bytes());
    bad.extend_from_slice(&1i32.to_be_bytes());
    bad.extend_from_slice(&(-1i16).to_be_bytes());
    assert!(assignment_decode_stops(&bad));
    // cut short before the name length: an ordinary error, not a stop
    assert!(!assignment_decode_stops(&bad[..6]));
    let mut good = Vec::new();
    good.extend_from_slice(&0i16.to_be_bytes());
    good.extend_from_slice(&0i32.to_be_bytes());
    good.extend_from_slice(&0i32.to_be_bytes());
    assert!(!assignment_decode_stops(&good));
    assert!(decode_assignment(&good).unwrap().is_empty());
    assert!(client_assignments_decode_stop(&vec![("m1".to_string(), good.clone()), ("m2".to_string(), bad.clone())]));
    // an earlier error comes first
    assert!(!client_assignments_decode_stop(&vec![("m1".to_string(), vec![0u8]), ("m2".to_string(), bad)]));
    assert!(!client_assignments_decode_stop(&vec![("m1".to_string(), good)]));
}
