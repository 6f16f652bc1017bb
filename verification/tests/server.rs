use chronik_server::integrated_server::parse_replication_followers;
use chronik_server::handler::HandlerConfig;
use chronik_server::integrated_server::{initial_leader, round_robin_replicas, ResponseOrder, ServerStats};

#[test]
fn replicas_go_round_robin_from_the_partition() {
    let nodes = vec![1u64, 2, 3];
    assert_eq!(round_robin_replicas(0, &nodes, 3), vec![1, 2, 3]);
    assert_eq!(round_robin_replicas(1, &nodes, 3), vec![2, 3, 1]);
    assert_eq!(round_robin_replicas(2, &nodes, 2), vec![3, 1]);
    // the factor is capped at the node count
    assert_eq!(round_robin_replicas(4, &nodes, 5), vec![2, 3, 1]);
    assert_eq!(round_robin_replicas(4, &vec![], 3), Vec::<u64>::new());
}

#[test]
fn the_metadata_leader_leads_when_it_is_a_replica() {
    assert_eq!(initial_leader(&vec![2, 3, 1], 1), 1);
    assert_eq!(initial_leader(&vec![2, 3], 1), 2);
}

#[test]
fn responses_leave_in_request_order() {
    let mut order = ResponseOrder::new();
    assert!(order.accept(1, 11, vec![1]).is_empty());
    assert!(order.accept(2, 12, vec![2]).is_empty());
    assert_eq!(order.pending_count(), 2);
    let ready = order.accept(0, 10, vec![0]);
    assert_eq!(ready.iter().map(|r| (r.sequence, r.correlation_id)).collect::<Vec<_>>(), vec![(0, 10), (1, 11), (2, 12)]);
    assert_eq!(ready[2].data, vec![2]);
    assert_eq!(order.next_sequence(), 3);
    assert_eq!(order.pending_count(), 0);
    // a gap holds everything after it
    assert!(order.accept(4, 14, vec![4]).is_empty());
    let ready = order.accept(3, 13, vec![3]);
    assert_eq!(ready.iter().map(|r| r.sequence).collect::<Vec<_>>(), vec![3, 4]);
}

#[test]
fn settings_and_stats_keep_their_values() {
    let c = HandlerConfig { node_id: 1, host: "localhost".to_string(), port: 9092, controller_addrs: vec!["c:9093".to_string()] };
    let d = c.clone();
    assert_eq!((d.node_id, d.host.as_str(), d.port, d.controller_addrs.len()), (1, "localhost", 9092, 1));
    let s = ServerStats { node_id: 1, topics_count: 2, brokers_count: 3, advertised_address: "h:9092".to_string() };
    assert_eq!((s.node_id, s.topics_count, s.brokers_count), (1, 2, 3));
}

#[test]
fn the_follower_list_is_split_trimmed_and_cleaned() {
    assert_eq!(parse_replication_followers("a:1, b:2 ,,  ,c"), vec!["a:1", "b:2", "c"]);
    assert_eq!(parse_replication_followers(""), Vec::<String>::new());
    assert_eq!(parse_replication_followers("  x\t"), vec!["x"]);
    assert_eq!(parse_replication_followers("\u{a0}y,"), vec!["y"]);
    assert_eq!(parse_replication_followers(",,"), Vec::<String>::new());
    assert_eq!(parse_replication_followers("node 1,node2"), vec!["node 1", "node2"]);
}
