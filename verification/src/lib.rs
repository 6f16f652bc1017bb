//! Verified core of a Kafka-compatible broker: consumer-group synchronisation,
//! assignment encoding, in-sync replica tracking and publishing,
//! acknowledgement quorums, leader leases, coordinator placement, error
//! mapping, request and response framing, request body parsing (ListOffsets,
//! Metadata, CreateTopics), ApiVersions, offset commits and fetches, ListOffsets answers,
//! watermark recovery, what follower fetches tell about replication, and the
//! fetch path (record batch parsing, the in-memory buffer, stored segments
//! and merging across tiers).
use vstd::prelude::*;

pub mod text;
pub mod wire;
pub mod sorting;
pub mod consumer_group;
pub mod clock;
pub mod isr_tracker;
pub mod isr_publisher;
pub mod isr_ack_tracker;
pub mod leader_lease;
pub mod leader_heartbeat;
pub mod error_handler;
pub mod coordinator;
pub mod fetch;
pub mod offset_commit;
pub mod request_frame;
pub mod list_offsets;
pub mod watermark_recovery;
pub mod kafka_request;
pub mod replication;
pub mod api_versions;
pub mod integrated_server;
pub mod handler;
pub mod kafka_layout;

verus! {
} // verus!
