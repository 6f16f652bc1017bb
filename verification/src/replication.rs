//! What a fetch tells the leader about replication. A follower (a fetch
//! with `replica_id >= 0`) cannot ask for offset N without having durably
//! written everything below N, so its fetch offset is its progress, and the
//! fetch itself shows it is alive; a consumer fetch says nothing about
//! replication.
use vstd::prelude::*;
use crate::isr_tracker::{IsrTracker, SyncState, fkey};
use crate::isr_ack_tracker::{IsrAckTracker, offsets_after, released_on_ack, waits_after_ack};

verus! {

/// Records what a fetch at `now_ms` tells: for a follower, its progress and
/// liveness in the ISR tracker, and its position in the ack tracker
/// (returning the tickets of the `acks=all` waits that this releases, see
/// `IsrAckTracker::record_ack`); for a consumer, nothing.
pub fn record_fetch_progress_at(
    isr: &mut IsrTracker,
    acks: &mut IsrAckTracker,
    replica_id: i32,
    topic: &str,
    partition: i32,
    fetch_offset: i64,
    now_ms: u64,
) -> (released: Vec<u64>)
    requires
        old(acks).wf(),
    ensures
        final(acks).wf(),
        final(isr).same_config(&*old(isr)),
        replica_id < 0 ==> {
            &&& final(isr).followers() == old(isr).followers()
            &&& final(isr).seen() == old(isr).seen()
            &&& final(acks).contents() == old(acks).contents()
            &&& released@.len() == 0
        },
        replica_id >= 0 ==> {
            let node = replica_id as u64;
            let p = old(acks).partition_of(topic@, partition);
            &&& final(isr).followers() == old(isr).followers().insert(fkey(node, topic@, partition), (fetch_offset, now_ms))
            &&& final(isr).seen() == old(isr).seen().insert(node, now_ms)
            &&& final(acks).contents() == old(acks).contents().insert(
                (topic@, partition),
                (offsets_after(p.0, node, fetch_offset), waits_after_ack(p, node, fetch_offset)),
            )
            &&& released@ == released_on_ack(p, node, fetch_offset)
        },
{
    if replica_id < 0 {
        return Vec::new();
    }
    let node = replica_id as u64;
    isr.update_follower_offset_at(node, topic, partition, fetch_offset, now_ms);
    isr.record_node_alive_at(node, now_ms);
    acks.record_ack(topic, partition, fetch_offset, node)
}

/// Fetching is its own liveness proof: right after a follower's fetch is
/// recorded, the follower is in sync at the offset it fetched from, with no
/// separate heartbeat.
pub proof fn lemma_fetching_keeps_a_follower_in_sync(before: IsrTracker, after: IsrTracker, node: u64, topic: Seq<char>, partition: i32, fetch_offset: i64, now_ms: u64)
    requires
        after.followers() == before.followers().insert(fkey(node, topic, partition), (fetch_offset, now_ms)),
        after.seen() == before.seen().insert(node, now_ms),
        after.same_config(&before),
    ensures
        after.state_at(node, topic, partition, fetch_offset, now_ms) == SyncState::InSync,
{
}

} // verus!
