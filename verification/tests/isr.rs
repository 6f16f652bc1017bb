use chronik_server::isr_publisher::{in_sync_replicas, in_sync_replicas_at, is_internal_topic, PublishedIsrSets};
use chronik_server::isr_tracker::{IsrTracker, SyncState};

const T: u64 = 10_000_000;

#[test]
fn test_isr_tracker_basic() {
    let mut tracker = IsrTracker::new(1000, 5000);
    assert!(!tracker.is_in_sync_at(2, "orders", 0, 1000, T));
    tracker.update_follower_offset_at(2, "orders", 0, 950, T);
    assert!(tracker.is_in_sync_at(2, "orders", 0, 1000, T));
    assert!(!tracker.is_in_sync_at(2, "orders", 0, 2000, T));
}

#[test]
fn test_get_isr() {
    let mut tracker = IsrTracker::new(100, 5000);
    let all_replicas = vec![1, 2, 3];
    tracker.update_follower_offset_at(2, "test", 0, 990, T);
    tracker.update_follower_offset_at(3, "test", 0, 800, T);
    let isr = tracker.get_isr_at("test", 0, 1000, &all_replicas, T);
    assert_eq!(isr, vec![2]);
}

#[test]
fn caught_up_follower_does_not_age_out_of_isr() {
    let mut tracker = IsrTracker::new(1000, 10_000);
    tracker.update_follower_offset_at(2, "idle", 0, 500, T - 60_000);
    assert_eq!(tracker.sync_state_at(2, "idle", 0, 500, T), SyncState::InSync);
    assert!(tracker.is_in_sync_at(2, "idle", 0, 500, T));
    assert_eq!(tracker.sync_state_at(2, "idle", 0, 501, T), SyncState::Lagging);
}

#[test]
fn unknown_is_distinct_from_lagging() {
    let mut tracker = IsrTracker::new(10, 60_000);
    let replicas = vec![1, 2, 3];
    assert_eq!(tracker.sync_state_at(2, "t", 0, 100, T), SyncState::Unknown);
    assert!(tracker.is_unknown_for_all("t", 0, &replicas, 1));
    tracker.update_follower_offset_at(2, "t", 0, 1, T);
    assert_eq!(tracker.sync_state_at(2, "t", 0, 100, T), SyncState::Lagging);
    assert!(!tracker.is_unknown_for_all("t", 0, &replicas, 1));
    assert!(tracker.get_isr_at("t", 0, 100, &replicas, T).is_empty());
}

#[test]
fn dead_but_caught_up_follower_leaves_isr_when_it_stops_answering() {
    let mut tracker = IsrTracker::new(1000, 10_000);
    let replicas = vec![1, 2, 3];
    tracker.update_follower_offset_at(2, "t", 0, 100, T);
    tracker.update_follower_offset_at(3, "t", 0, 100, T);
    tracker.record_node_alive_at(2, T);
    tracker.record_node_alive_at(3, T);
    assert_eq!(tracker.get_isr_at("t", 0, 100, &replicas, T), vec![2, 3]);
    tracker.record_node_alive_at(3, T - (10_000 * 3 + 1_000));
    assert_eq!(tracker.sync_state_at(3, "t", 0, 100, T), SyncState::Lagging);
    assert_eq!(tracker.get_isr_at("t", 0, 100, &replicas, T), vec![2]);
}

#[test]
fn liveness_window_tolerates_a_missed_heartbeat() {
    let mut tracker = IsrTracker::new(1000, 10_000);
    tracker.update_follower_offset_at(2, "t", 0, 100, T);
    tracker.record_node_alive_at(2, T - 15_000);
    assert_eq!(
        tracker.sync_state_at(2, "t", 0, 100, T),
        SyncState::InSync,
        "a single missed heartbeat must not eject a healthy replica"
    );
}

#[test]
fn dead_but_caught_up_follower_is_evicted_on_connection_loss() {
    let mut tracker = IsrTracker::new(1000, 10_000);
    let replicas = vec![1, 2, 3];
    tracker.update_follower_offset_at(2, "t", 0, 100, T);
    tracker.update_follower_offset_at(3, "t", 0, 100, T);
    assert_eq!(tracker.get_isr_at("t", 0, 100, &replicas, T), vec![2, 3]);
    tracker.remove_node(3);
    assert_eq!(tracker.get_isr_at("t", 0, 100, &replicas, T), vec![2]);
    assert_eq!(tracker.sync_state_at(3, "t", 0, 100, T), SyncState::Unknown);
}

#[test]
fn remove_node_clears_all_partitions() {
    let mut tracker = IsrTracker::new(1000, 10_000);
    tracker.update_follower_offset_at(3, "a", 0, 10, T);
    tracker.update_follower_offset_at(3, "b", 7, 20, T);
    tracker.update_follower_offset_at(2, "a", 0, 10, T);
    tracker.remove_node(3);
    assert_eq!(tracker.sync_state_at(3, "a", 0, 10, T), SyncState::Unknown);
    assert_eq!(tracker.sync_state_at(3, "b", 7, 20, T), SyncState::Unknown);
    assert_eq!(tracker.sync_state_at(2, "a", 0, 10, T), SyncState::InSync, "other nodes untouched");
}

#[test]
fn backwards_clock_does_not_eject_replica() {
    let mut tracker = IsrTracker::new(1000, 10_000);
    tracker.update_follower_offset_at(2, "t", 0, 10, T + 60_000);
    assert_eq!(tracker.sync_state_at(2, "t", 0, 15, T), SyncState::InSync);
}

#[test]
fn a_dead_replica_reports_no_lag_rather_than_zero_lag() {
    let mut tracker = IsrTracker::new(1000, 10_000);
    tracker.update_follower_offset_at(2, "t", 0, 100, T);
    tracker.record_node_alive_at(2, T);
    assert_eq!(tracker.get_follower_lag_at(2, "t", 0, 100, T), Some(0));
    tracker.record_node_alive_at(2, T - 10_000 * 3 - 5_000);
    assert_eq!(
        tracker.get_follower_lag_at(2, "t", 0, 100, T),
        None,
        "a replica that stopped reporting has unknown distance, not zero"
    );
    assert_eq!(tracker.sync_state_at(2, "t", 0, 100, T), SyncState::Lagging);
}

#[test]
fn watermark_is_bounded_by_the_slowest_in_sync_follower() {
    let mut tracker = IsrTracker::new(1000, 10_000);
    tracker.update_follower_offset_at(2, "t", 0, 90, T);
    tracker.record_node_alive_at(2, T);
    tracker.update_follower_offset_at(3, "t", 0, 75, T);
    tracker.record_node_alive_at(3, T);
    assert_eq!(
        tracker.replicated_watermark_at("t", 0, 100, &[1, 2, 3], 1, T),
        75,
        "the watermark follows the furthest-behind in-sync replica"
    );
}

#[test]
fn a_replica_outside_isr_does_not_hold_the_watermark_back() {
    let mut tracker = IsrTracker::new(1000, 10_000);
    tracker.update_follower_offset_at(2, "t", 0, 100, T);
    tracker.record_node_alive_at(2, T);
    tracker.update_follower_offset_at(3, "t", 0, 10, T);
    tracker.record_node_alive_at(3, T - 10_000 * 3 - 5_000);
    assert_eq!(tracker.sync_state_at(3, "t", 0, 100, T), SyncState::Lagging);
    assert_eq!(
        tracker.replicated_watermark_at("t", 0, 100, &[1, 2, 3], 1, T),
        100,
        "a dead replica must not stall consumers"
    );
}

#[test]
fn an_unreported_partition_is_not_bounded_to_zero() {
    let tracker = IsrTracker::new(1000, 10_000);
    assert_eq!(tracker.replicated_watermark_at("t", 0, 500, &[1, 2, 3], 1, T), 500);
}

#[test]
fn a_lone_leader_is_its_own_watermark() {
    let tracker = IsrTracker::new(1000, 10_000);
    assert_eq!(tracker.replicated_watermark_at("t", 0, 42, &[1], 1, T), 42);
}

#[test]
fn the_watermark_never_exceeds_the_leader() {
    let mut tracker = IsrTracker::new(1000, 10_000);
    tracker.update_follower_offset_at(2, "t", 0, 150, T);
    tracker.record_node_alive_at(2, T);
    assert_eq!(tracker.replicated_watermark_at("t", 0, 100, &[1, 2], 1, T), 100);
}

#[test]
fn unmeasured_partition_reports_unknown() {
    let tracker = IsrTracker::new(1000, 10_000);
    assert_eq!(in_sync_replicas_at(&tracker, "orders", 0, 100, &[1, 2, 3], 1, T), None);
}

#[test]
fn leader_is_always_in_its_own_set() {
    let mut tracker = IsrTracker::new(1000, 10_000);
    tracker.update_follower_offset_at(2, "orders", 0, 100, T);
    tracker.update_follower_offset_at(3, "orders", 0, 100, T);
    assert_eq!(
        in_sync_replicas_at(&tracker, "orders", 0, 100, &[1, 2, 3], 1, T),
        Some(vec![1, 2, 3])
    );
}

#[test]
fn a_replica_that_is_behind_is_not_in_sync() {
    let mut tracker = IsrTracker::new(100, 10_000);
    tracker.update_follower_offset_at(2, "orders", 0, 1_000, T);
    tracker.update_follower_offset_at(3, "orders", 0, 10, T);
    assert_eq!(
        in_sync_replicas_at(&tracker, "orders", 0, 1_000, &[1, 2, 3], 1, T),
        Some(vec![1, 2])
    );
}

#[test]
fn the_set_is_ordered_by_replica_list() {
    let mut tracker = IsrTracker::new(1000, 10_000);
    tracker.update_follower_offset_at(3, "orders", 0, 100, T);
    tracker.update_follower_offset_at(1, "orders", 0, 100, T);
    assert_eq!(
        in_sync_replicas_at(&tracker, "orders", 0, 100, &[3, 1, 2], 2, T),
        Some(vec![3, 1, 2])
    );
}

#[test]
fn wall_clock_entry_points_agree_on_fresh_reports() {
    let mut tracker = IsrTracker::new(1000, 10_000);
    tracker.update_follower_offset(2, "w", 0, 100);
    tracker.record_node_alive(2);
    assert!(tracker.is_node_alive(2));
    assert!(tracker.is_in_sync(2, "w", 0, 100));
    assert_eq!(tracker.sync_state(2, "w", 0, 100), SyncState::InSync);
    assert_eq!(tracker.get_isr("w", 0, 100, &[1, 2]), vec![2]);
    assert_eq!(tracker.replicated_watermark("w", 0, 120, &[1, 2], 1), 100);
    assert_eq!(in_sync_replicas(&tracker, "w", 0, 100, &[1, 2], 1), Some(vec![1, 2]));
    assert_eq!(tracker.min_acked_offset_of_live_followers("w", 0), Some(100));
    tracker.remove_follower(2, "w", 0);
    assert_eq!(tracker.sync_state(2, "w", 0, 100), SyncState::Unknown);
}

// ----- what the publisher writes -----

#[test]
fn internal_topics_are_recognised() {
    assert!(is_internal_topic("__consumer_offsets"));
    assert!(is_internal_topic("__"));
    assert!(!is_internal_topic("_x"));
    assert!(!is_internal_topic("orders"));
    assert!(!is_internal_topic(""));
}

#[test]
fn only_the_leader_publishes_what_it_measured() {
    let sets = PublishedIsrSets::new();
    assert_eq!(sets.plan(1, "orders", 0, 2, Some(vec![2, 1]), &[2, 1, 3]), None);
    assert_eq!(sets.plan(1, "orders", 0, 1, None, &[1, 2, 3]), None);
    assert_eq!(sets.plan(1, "orders", 0, 1, Some(vec![1, 2]), &[1, 2, 3]), Some(vec![1, 2]));
}

#[test]
fn an_unchanged_set_is_not_published_twice() {
    let mut sets = PublishedIsrSets::new();
    assert_eq!(sets.plan(1, "orders", 0, 1, Some(vec![1, 2]), &[1, 2, 3]), Some(vec![1, 2]));
    sets.record("orders", 0, vec![1, 2]);
    assert_eq!(sets.last("orders", 0), Some(&vec![1, 2]));
    assert_eq!(sets.last("orders", 1), None);
    // Metadata now holds it too: nothing to do.
    assert_eq!(sets.plan(1, "orders", 0, 1, Some(vec![1, 2]), &[1, 2]), None);
    // Metadata was overwritten elsewhere: publish again.
    assert_eq!(sets.plan(1, "orders", 0, 1, Some(vec![1, 2]), &[1, 2, 3]), Some(vec![1, 2]));
    // The set changed.
    assert_eq!(sets.plan(1, "orders", 0, 1, Some(vec![1]), &[1, 2]), Some(vec![1]));
    sets.record("orders", 0, vec![1]);
    assert_eq!(sets.last("orders", 0), Some(&vec![1]));
}

#[test]
fn follower_fetch_records_progress_consumer_fetch_does_not() {
    let mut tracker = IsrTracker::new(1000, 10_000);

    // Consumer fetch: replica_id < 0, nothing recorded.
    let consumer_replica_id: i32 = -1;
    if consumer_replica_id >= 0 {
        tracker.update_follower_offset(consumer_replica_id as u64, "orders", 0, 500);
    }
    assert_eq!(tracker.sync_state(2, "orders", 0, 500), SyncState::Unknown);

    // Follower fetch from node 2 at offset 500.
    let follower_replica_id: i32 = 2;
    if follower_replica_id >= 0 {
        tracker.update_follower_offset(follower_replica_id as u64, "orders", 0, 500);
        tracker.record_node_alive(follower_replica_id as u64);
    }

    assert_eq!(tracker.sync_state(2, "orders", 0, 500), SyncState::InSync);
    assert_eq!(tracker.get_isr("orders", 0, 500, &[1, 2]), vec![2]);
}

#[test]
fn fetching_is_its_own_liveness_proof() {
    let mut tracker = IsrTracker::new(1000, 10_000);

    tracker.update_follower_offset(2, "orders", 0, 100);
    tracker.record_node_alive(2);
    assert_eq!(tracker.sync_state(2, "orders", 0, 100), SyncState::InSync);

    // Next fetch arrives at a higher offset: progress and liveness together.
    tracker.update_follower_offset(2, "orders", 0, 250);
    tracker.record_node_alive(2);
    assert_eq!(tracker.sync_state(2, "orders", 0, 250), SyncState::InSync);
}
