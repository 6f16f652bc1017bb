use chronik_server::isr_ack_tracker::IsrAckTracker;
use chronik_server::isr_tracker::{IsrTracker, SyncState};
use chronik_server::replication::record_fetch_progress_at;

#[test]
fn quorum_releases_the_producer() {
    let mut tracker = IsrAckTracker::new();
    assert!(!tracker.register_wait("test".to_string(), 0, 100, 2, 1, 0));
    assert!(tracker.record_ack("test", 0, 100, 1).is_empty());
    assert_eq!(tracker.pending_count(), 1, "one replica is not quorum");
    assert_eq!(tracker.record_ack("test", 0, 100, 2), vec![1]);
    assert_eq!(tracker.pending_count(), 0);
}

#[test]
fn a_higher_report_satisfies_a_lower_wait() {
    let mut tracker = IsrAckTracker::new();
    tracker.register_wait("test".to_string(), 0, 437, 2, 7, 0);
    assert!(tracker.record_ack("test", 0, 500, 1).is_empty());
    assert_eq!(tracker.record_ack("test", 0, 512, 2), vec![7]);
    assert_eq!(tracker.pending_count(), 0);
}

#[test]
fn one_report_releases_every_wait_below_it() {
    let mut tracker = IsrAckTracker::new();
    for offset in [10i64, 20, 30, 40] {
        tracker.register_wait("test".to_string(), 0, offset, 2, offset as u64, 0);
    }
    assert_eq!(tracker.pending_count(), 4);
    assert!(tracker.record_ack("test", 0, 35, 1).is_empty());
    let released = tracker.record_ack("test", 0, 35, 2);
    assert_eq!(tracker.pending_count(), 1, "only the wait at 40 remains");
    assert_eq!(released, vec![10, 20, 30]);
}

#[test]
fn a_replica_position_never_goes_backwards() {
    let mut tracker = IsrAckTracker::new();
    tracker.record_ack("test", 0, 500, 1);
    tracker.record_ack("test", 0, 100, 1);
    assert_eq!(tracker.replica_offset("test", 0, 1), Some(500));
    assert!(
        tracker.register_wait("test".to_string(), 0, 400, 1, 9, 0),
        "the stale report must not have lowered node 1"
    );
}

#[test]
fn a_wait_already_satisfied_returns_immediately() {
    let mut tracker = IsrAckTracker::new();
    tracker.record_ack("test", 0, 900, 1);
    tracker.record_ack("test", 0, 900, 2);
    assert!(tracker.register_wait("test".to_string(), 0, 100, 2, 3, 0));
    assert_eq!(tracker.pending_count(), 0);
}

#[test]
fn one_replica_cannot_form_a_quorum_by_itself() {
    let mut tracker = IsrAckTracker::new();
    tracker.register_wait("test".to_string(), 0, 100, 2, 1, 0);
    tracker.record_ack("test", 0, 100, 1);
    tracker.record_ack("test", 0, 200, 1);
    tracker.record_ack("test", 0, 300, 1);
    assert_eq!(tracker.pending_count(), 1, "node 1 alone is not a quorum of 2");
}

#[test]
fn partitions_do_not_release_each_other() {
    let mut tracker = IsrAckTracker::new();
    tracker.register_wait("test".to_string(), 0, 100, 2, 0, 0);
    tracker.register_wait("test".to_string(), 1, 100, 2, 1, 0);
    tracker.record_ack("test", 1, 100, 1);
    assert_eq!(tracker.record_ack("test", 1, 100, 2), vec![1]);
    assert_eq!(tracker.pending_count(), 1, "partition 0 must still be waiting");
}

#[test]
fn an_unreached_quorum_times_out_with_an_error() {
    let mut tracker = IsrAckTracker::new();
    tracker.register_wait("test".to_string(), 0, 100, 2, 5, 1_000);
    tracker.record_ack("test", 0, 100, 1);
    let expired = tracker.cleanup_expired(1, 1_010);
    assert_eq!(tracker.pending_count(), 0);
    assert_eq!(expired.len(), 1);
    assert_eq!(expired[0].topic, "test");
    assert_eq!(expired[0].partition, 0);
    assert_eq!(expired[0].waits.len(), 1);
    assert_eq!(expired[0].waits[0].ticket, 5);
}

#[test]
fn waits_that_never_reach_quorum_do_not_accumulate() {
    let mut tracker = IsrAckTracker::new();
    for offset in 0..500i64 {
        tracker.register_wait("test".to_string(), 0, offset, 3, offset as u64, 0);
    }
    assert_eq!(tracker.pending_count(), 500);
    let expired = tracker.cleanup_expired(1, 10);
    assert_eq!(tracker.pending_count(), 0, "expired waits must be reclaimed");
    let tickets: Vec<u64> = expired.iter().flat_map(|g| g.waits.iter().map(|w| w.ticket)).collect();
    assert_eq!(tickets.len(), 500, "each caller must be told it failed");
}

#[test]
fn stats_report_outstanding_waits_and_tracked_replicas() {
    let mut tracker = IsrAckTracker::new();
    tracker.register_wait("test".to_string(), 0, 100, 2, 1, 0);
    tracker.register_wait("test".to_string(), 1, 200, 2, 2, 0);
    tracker.record_ack("test", 0, 100, 1);
    tracker.record_ack("test", 1, 200, 1);
    tracker.record_ack("test", 1, 200, 2);
    let stats = tracker.stats(0);
    assert_eq!(stats.pending_requests, 1, "partition 1 reached quorum");
    assert_eq!(stats.tracked_replicas, 3, "1 replica on p0, 2 on p1");
}

#[test]
fn cleanup_keeps_waits_within_the_timeout() {
    let mut tracker = IsrAckTracker::new();
    tracker.register_wait("t".to_string(), 0, 5, 2, 1, 100);
    tracker.register_wait("t".to_string(), 0, 6, 2, 2, 190);
    let expired = tracker.cleanup_expired(50, 200);
    assert_eq!(tracker.pending_count(), 1);
    assert_eq!(expired[0].waits.len(), 1);
    assert_eq!(expired[0].waits[0].ticket, 1);
}

#[test]
fn stats_report_the_oldest_wait() {
    let mut tracker = IsrAckTracker::new();
    tracker.register_wait("t".to_string(), 0, 5, 2, 1, 100);
    tracker.register_wait("u".to_string(), 3, 6, 2, 2, 40);
    let stats = tracker.stats(1_000);
    assert_eq!(stats.oldest_request_age_ms, 960);
    assert_eq!(stats.waiting_for_quorum, 2);
    assert_eq!(IsrAckTracker::default().stats(5).oldest_request_age_ms, 0);
}

#[test]
fn waits_at_one_offset_are_judged_each_on_its_quorum() {
    let mut tracker = IsrAckTracker::new();
    tracker.register_wait("t".to_string(), 0, 50, 1, 1, 0);
    tracker.register_wait("t".to_string(), 0, 50, 3, 2, 0);
    tracker.register_wait("t".to_string(), 0, 50, 2, 3, 0);
    tracker.record_ack("t", 0, 60, 1);
    assert_eq!(tracker.record_ack("t", 0, 60, 2), vec![3]);
    assert_eq!(tracker.pending_count(), 1);
}

#[test]
fn an_unknown_replica_has_no_offset() {
    let mut tracker = IsrAckTracker::new();
    assert_eq!(tracker.replica_offset("t", 0, 1), None);
    tracker.record_ack("t", 0, 7, 1);
    assert_eq!(tracker.replica_offset("t", 0, 2), None);
    assert_eq!(tracker.replica_offset("t", 0, 1), Some(7));
}

#[test]
fn a_follower_fetch_records_progress_and_releases_waits() {
    let mut isr = IsrTracker::new(1000, 10_000);
    let mut acks = IsrAckTracker::new();
    assert!(!acks.register_wait("orders".to_string(), 0, 500, 1, 7, 1_000));
    // A consumer fetch changes nothing.
    assert!(record_fetch_progress_at(&mut isr, &mut acks, -1, "orders", 0, 600, 2_000).is_empty());
    assert_eq!(isr.sync_state_at(2, "orders", 0, 600, 2_000), SyncState::Unknown);
    assert_eq!(acks.pending_count(), 1);
    // A follower fetch at 600 shows node 2 holds everything below it.
    assert_eq!(record_fetch_progress_at(&mut isr, &mut acks, 2, "orders", 0, 600, 2_000), vec![7]);
    assert_eq!(isr.sync_state_at(2, "orders", 0, 600, 2_000), SyncState::InSync);
    assert!(isr.is_node_alive_at(2, 2_000));
    assert_eq!(acks.replica_offset("orders", 0, 2), Some(600));
    assert_eq!(acks.pending_count(), 0);
}

#[test]
fn no_wait_is_held_once_its_quorum_is_there() {
    let mut tracker = IsrAckTracker::new();
    tracker.record_ack("t", 0, 50, 1);
    tracker.record_ack("t", 0, 60, 2);
    // two replicas already past 40: released at once, nothing held
    assert!(tracker.register_wait("t".to_string(), 0, 40, 2, 1, 0));
    assert_eq!(tracker.pending_count(), 0);
    // one replica past 55: held until a second gets there
    assert!(!tracker.register_wait("t".to_string(), 0, 55, 2, 2, 0));
    assert_eq!(tracker.record_ack("t", 0, 55, 1), vec![2]);
    assert_eq!(tracker.pending_count(), 0);
}
