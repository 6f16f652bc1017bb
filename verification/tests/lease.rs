use chronik_server::leader_heartbeat::{HeartbeatReceiver, HeartbeatSender, LeaderHeartbeat};
use chronik_server::leader_lease::{LeaderLease, LeaseManager, LeaseStatus};

#[test]
fn test_heartbeat_creation() {
    let hb = LeaderHeartbeat::new(1, 10);
    assert_eq!(hb.leader_id, 1);
    assert_eq!(hb.term, 10);
    assert!(hb.timestamp > 0);
}

#[test]
fn test_heartbeat_receiver() {
    let lease_manager = LeaseManager::new(5_000);
    let mut receiver = HeartbeatReceiver::new(2, lease_manager);
    assert!(!receiver.lease_manager.has_valid_lease());
    let hb = LeaderHeartbeat::new(1, 10);
    receiver.handle_heartbeat(hb);
    assert!(receiver.lease_manager.has_valid_lease());
    assert_eq!(receiver.lease_manager.get_leader_id(), Some(1));
}

#[test]
fn test_lease_creation() {
    let mut manager = LeaseManager::new(5_000);
    assert!(!manager.has_valid_lease());
    assert_eq!(manager.get_leader_id(), None);
    manager.update_lease(1, 10);
    assert!(manager.has_valid_lease());
    assert_eq!(manager.get_leader_id(), Some(1));
}

#[test]
fn test_lease_expiry() {
    let mut manager = LeaseManager::new(100);
    manager.update_lease_at(1, 10, 1_000);
    assert!(manager.has_valid_lease_at(1_000));
    assert!(!manager.has_valid_lease_at(1_150));
    assert_eq!(manager.get_leader_id_at(1_150), None);
}

#[test]
fn test_lease_renewal() {
    let mut manager = LeaseManager::new(100);
    manager.update_lease_at(1, 10, 1_000);
    assert!(manager.has_valid_lease_at(1_050));
    manager.update_lease_at(1, 10, 1_050);
    assert!(manager.has_valid_lease_at(1_125));
}

#[test]
fn test_lease_invalidation() {
    let mut manager = LeaseManager::new(5_000);
    manager.update_lease(1, 10);
    assert!(manager.has_valid_lease());
    manager.invalidate();
    assert!(!manager.has_valid_lease());
}

#[test]
fn test_lease_status() {
    let mut manager = LeaseManager::new(100);
    match manager.get_status_at(1_000) {
        LeaseStatus::NoLease => {}
        other => panic!("Expected NoLease, got {:?}", other),
    }
    manager.update_lease_at(1, 10, 1_000);
    match manager.get_status_at(1_000) {
        LeaseStatus::Valid { leader_id, term, .. } => {
            assert_eq!(leader_id, 1);
            assert_eq!(term, 10);
        }
        other => panic!("Expected Valid, got {:?}", other),
    }
    match manager.get_status_at(1_150) {
        LeaseStatus::Expired { leader_id, term, .. } => {
            assert_eq!(leader_id, 1);
            assert_eq!(term, 10);
        }
        other => panic!("Expected Expired, got {:?}", other),
    }
}

#[test]
fn lease_time_left_and_expiry_age_are_exact() {
    let mut manager = LeaseManager::new(100);
    manager.update_lease_at(4, 2, 1_000);
    assert_eq!(
        manager.get_status_at(1_030),
        LeaseStatus::Valid { leader_id: 4, term: 2, time_remaining: 70 }
    );
    assert_eq!(
        manager.get_status_at(1_100),
        LeaseStatus::Expired { leader_id: 4, term: 2, expired_ago: 0 }
    );
    assert_eq!(
        manager.get_status_at(1_160),
        LeaseStatus::Expired { leader_id: 4, term: 2, expired_ago: 60 }
    );
}

#[test]
fn a_lease_ends_exactly_at_its_expiry() {
    let lease = LeaderLease::new_at(1, 1, 50, 200);
    assert_eq!(lease.lease_expires_at, 250);
    assert!(lease.is_valid_at(249));
    assert!(!lease.is_valid_at(250));
    assert_eq!(lease.time_remaining_at(230), 20);
    assert_eq!(lease.time_remaining_at(300), 0);
}

#[test]
fn a_lease_near_the_end_of_time_saturates() {
    let lease = LeaderLease::new_at(1, 1, 100, u64::MAX - 10);
    assert_eq!(lease.lease_expires_at, u64::MAX);
}

#[test]
fn a_newer_heartbeat_moves_the_lease_to_its_leader() {
    let mut manager = LeaseManager::new(100);
    manager.update_lease_at(1, 1, 0);
    manager.update_lease_at(2, 2, 10);
    assert_eq!(manager.get_leader_id_at(50), Some(2));
    let mut lease = LeaderLease::new_at(1, 1, 100, 0);
    lease.update_at(3, 4, 100, 500);
    assert_eq!((lease.leader_id, lease.term, lease.last_heartbeat, lease.lease_expires_at), (3, 4, 500, 600));
}

#[test]
fn heartbeat_sender_and_receiver_keep_their_settings() {
    let s = HeartbeatSender::new(3, 1_000);
    assert_eq!((s.node_id, s.interval_ms), (3, 1_000));
    let mut r = HeartbeatReceiver::new(2, LeaseManager::new(300));
    r.handle_heartbeat_at(LeaderHeartbeat { leader_id: 9, term: 4, timestamp: 0 }, 1_000);
    assert_eq!(r.lease_manager.get_leader_id_at(1_299), Some(9));
    assert_eq!(r.lease_manager.get_leader_id_at(1_300), None);
    assert_eq!(r.node_id, 2);
}

#[test]
fn a_heartbeat_carries_the_time_it_is_given() {
    let hb = LeaderHeartbeat::new_at(1, 10, 1_700_000_000);
    assert_eq!((hb.leader_id, hb.term, hb.timestamp), (1, 10, 1_700_000_000));
}

#[test]
fn a_clock_stepping_back_does_not_move_the_heartbeat_back() {
    let mut lease = LeaderLease::new_at(1, 1, 100, 500);
    lease.update_at(2, 3, 100, 400);
    assert_eq!((lease.leader_id, lease.term, lease.last_heartbeat, lease.lease_expires_at), (2, 3, 500, 600));
    let mut manager = LeaseManager::new(100);
    manager.update_lease_at(1, 1, 1_000);
    manager.update_lease_at(1, 1, 900);
    assert_eq!(manager.current_lease.unwrap().last_heartbeat, 1_000);
    assert!(manager.has_valid_lease_at(1_099));
    assert!(!manager.has_valid_lease_at(1_100));
}
