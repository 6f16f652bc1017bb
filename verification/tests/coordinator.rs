use chronik_server::coordinator::{
    hash_key, vnode_key, BrokerMetadata, ConsistentHashRing, CoordinatorConfig, CoordinatorError,
    CoordinatorManager, CoordinatorType,
};
use std::collections::HashMap;

fn broker(id: i32, host: &str) -> BrokerMetadata {
    BrokerMetadata { broker_id: id, host: host.to_string(), port: 9092, rack: None }
}

#[test]
fn test_murmur2_hash() {
    let hash = hash_key("test-group");
    assert_ne!(hash, 0);
    let hash2 = hash_key("test-group");
    assert_eq!(hash, hash2);
}

#[test]
fn test_coordinator_type_conversion() {
    assert_eq!(CoordinatorType::try_from(0).unwrap(), CoordinatorType::Group);
    assert_eq!(CoordinatorType::try_from(1).unwrap(), CoordinatorType::Transaction);
    assert!(CoordinatorType::try_from(2).is_err());
}

#[test]
fn test_consistent_hash_ring() {
    let mut ring = ConsistentHashRing::new(3);
    ring.add_broker(broker(1, "broker1"));
    ring.add_broker(broker(2, "broker2"));

    let broker1 = ring.get_broker_for_key("test-key-1");
    assert!(broker1.is_some());
    let broker2 = ring.get_broker_for_key("test-key-1");
    assert_eq!(broker1.unwrap().broker_id, broker2.unwrap().broker_id);

    let mut assignments = HashMap::new();
    for i in 0..100 {
        let key = format!("test-key-{}", i);
        if let Some(b) = ring.get_broker_for_key(&key) {
            *assignments.entry(b.broker_id).or_insert(0) += 1;
        }
    }
    assert!(assignments.len() > 1);
}

#[test]
fn hash_matches_the_murmur2_crate() {
    assert_eq!(hash_key("group-a"), murmur2::murmur2(b"group-a", 0));
    assert_ne!(hash_key("group-a"), hash_key("group-b"));
}

#[test]
fn vnode_names_are_id_colon_index() {
    assert_eq!(vnode_key(7, 12), b"7:12".to_vec());
    assert_eq!(vnode_key(-3, 0), b"-3:0".to_vec());
    assert_eq!(vnode_key(i32::MIN, 4294967295), b"-2147483648:4294967295".to_vec());
}

#[test]
fn an_empty_ring_places_nothing() {
    let ring = ConsistentHashRing::new(3);
    assert!(ring.get_broker_for_key("k").is_none());
    assert_eq!(ring.broker_count(), 0);
}

#[test]
fn a_key_goes_to_the_first_position_at_or_after_its_hash() {
    let mut ring = ConsistentHashRing::new(0);
    ring.place_broker(broker(1, "a"), &vec![100, 300]);
    ring.place_broker(broker(2, "b"), &vec![200]);
    assert_eq!(ring.broker_for_hash(50).unwrap().broker_id, 1);
    assert_eq!(ring.broker_for_hash(100).unwrap().broker_id, 1);
    assert_eq!(ring.broker_for_hash(101).unwrap().broker_id, 2);
    assert_eq!(ring.broker_for_hash(250).unwrap().broker_id, 1);
    // past the last position the ring wraps round to the first
    assert_eq!(ring.broker_for_hash(301).unwrap().broker_id, 1);
}

#[test]
fn removing_a_broker_moves_only_its_keys() {
    let mut ring = ConsistentHashRing::new(8);
    ring.add_broker(broker(1, "a"));
    ring.add_broker(broker(2, "b"));
    ring.add_broker(broker(3, "c"));
    let before: Vec<i32> = (0..200)
        .map(|i| ring.get_broker_for_key(&format!("k{}", i)).unwrap().broker_id)
        .collect();
    ring.remove_broker(2);
    assert_eq!(ring.broker_count(), 2);
    for (i, owner) in before.iter().enumerate() {
        let now = ring.get_broker_for_key(&format!("k{}", i)).unwrap().broker_id;
        if *owner != 2 {
            assert_eq!(now, *owner);
        } else {
            assert_ne!(now, 2);
        }
    }
}

#[test]
fn update_brokers_keeps_exactly_the_listed_ones() {
    let mut ring = ConsistentHashRing::new(4);
    ring.add_broker(broker(1, "a"));
    ring.add_broker(broker(2, "b"));
    ring.update_brokers(vec![broker(2, "b"), broker(3, "c"), broker(3, "c-dup")]);
    assert_eq!(ring.broker_count(), 2);
    for i in 0..50 {
        let b = ring.get_broker_for_key(&format!("x{}", i)).unwrap();
        assert!(b.broker_id == 2 || b.broker_id == 3);
        if b.broker_id == 3 {
            assert_eq!(b.host, "c");
        }
    }
}

#[test]
fn coordinator_config_defaults() {
    let c = CoordinatorConfig::default();
    assert_eq!(c.virtual_nodes, 100);
    assert_eq!(c.rebalance_delay_ms, 5000);
    assert!(c.enable_cache);
    assert_eq!(c.cache_ttl_seconds, 300);
}

#[test]
fn find_coordinator_without_brokers_fails() {
    let mut m = CoordinatorManager::new(CoordinatorConfig::default(), 1);
    let r = m.find_coordinator("g", CoordinatorType::Group, 0);
    assert!(matches!(r, Err(CoordinatorError::NoBrokersAvailable)));
    assert_eq!(m.get_stats().cached_assignments, 0);
}

#[test]
fn find_coordinator_caches_until_the_ttl_passes() {
    let mut m = CoordinatorManager::new(CoordinatorConfig { virtual_nodes: 4, rebalance_delay_ms: 0, enable_cache: true, cache_ttl_seconds: 10 }, 1);
    m.init(vec![broker(1, "a")]);
    let a = m.find_coordinator("g", CoordinatorType::Group, 1_000).unwrap();
    assert_eq!(a.broker_id, 1);
    assert_eq!(a.broker_host, "a");
    assert_eq!(a.assigned_at_ms, 1_000);
    assert_eq!(m.get_stats().cached_assignments, 1);
    // still fresh 9.999 s later: the cached assignment comes back
    let b = m.find_coordinator("g", CoordinatorType::Group, 10_999).unwrap();
    assert_eq!(b.assigned_at_ms, 1_000);
    // ten whole seconds later it is placed afresh
    let c = m.find_coordinator("g", CoordinatorType::Group, 11_000).unwrap();
    assert_eq!(c.assigned_at_ms, 11_000);
    assert_eq!(m.get_stats().cached_assignments, 1);
    // another type is another key
    m.find_coordinator("g", CoordinatorType::Transaction, 11_000).unwrap();
    assert_eq!(m.get_stats().cached_assignments, 2);
    assert!(m.is_coordinator_for("g", CoordinatorType::Group, 11_001).unwrap());
}

#[test]
fn a_membership_change_clears_the_cache() {
    let mut m = CoordinatorManager::new(CoordinatorConfig::default(), 2);
    m.init(vec![broker(1, "a")]);
    m.find_coordinator("g", CoordinatorType::Group, 0).unwrap();
    assert!(!m.handle_broker_change(vec![broker(1, "a")]));
    assert_eq!(m.get_stats().cached_assignments, 1);
    assert!(m.handle_broker_change(vec![broker(1, "a"), broker(2, "b")]));
    assert_eq!(m.get_stats().cached_assignments, 0);
    assert_eq!(m.get_stats().total_brokers, 2);
    m.shutdown();
    assert!(m.get_coordinated_groups().is_empty());
}
