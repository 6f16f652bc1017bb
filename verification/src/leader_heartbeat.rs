//! Leader heartbeats: the message a leader sends, and how a follower turns
//! it into a lease.
use vstd::prelude::*;
use crate::clock::now_millis;
use crate::leader_lease::{LeaderLease, LeaseManager};

verus! {

/// Seconds since the Unix epoch.
///
/// Calls `SystemTime::now().duration_since(UNIX_EPOCH)` and takes whole
/// seconds; a clock set before the epoch reads as 0. Nothing is claimed of
/// the value: it is the time.
#[verifier::external_body]
fn now_secs() -> u64 {
    std::time::SystemTime::now()
        .duration_since(std::time::UNIX_EPOCH)
        .map(|d| d.as_secs())
        .unwrap_or(0)
}

/// A heartbeat from the leader to its followers.
#[derive(Clone, Copy, Debug)]
pub struct LeaderHeartbeat {
    pub leader_id: u64,
    pub term: u64,
    /// When it was sent, seconds since the epoch (for monitoring only).
    pub timestamp: u64,
}

impl LeaderHeartbeat {
    /// A heartbeat from `leader_id` in `term`, stamped `now_secs`.
    pub fn new_at(leader_id: u64, term: u64, now_secs: u64) -> (h: Self)
        ensures
            h == (LeaderHeartbeat { leader_id, term, timestamp: now_secs }),
    {
        LeaderHeartbeat { leader_id, term, timestamp: now_secs }
    }

    /// A heartbeat from `leader_id` in `term`, stamped with the clock's
    /// reading in seconds.
    pub fn new(leader_id: u64, term: u64) -> (h: Self)
        ensures
            h.leader_id == leader_id,
            h.term == term,
            exists|t: u64| h == #[trigger] Self::stamped(leader_id, term, t),
    {
        let now = now_secs();
        let h = Self::new_at(leader_id, term, now);
        assert(h == Self::stamped(leader_id, term, now));
        h
    }

    /// The heartbeat stamped `t`.
    pub open spec fn stamped(leader_id: u64, term: u64, t: u64) -> LeaderHeartbeat {
        LeaderHeartbeat { leader_id, term, timestamp: t }
    }
}

/// The leader's heartbeat schedule.
pub struct HeartbeatSender {
    pub node_id: u64,
    /// Milliseconds between heartbeats.
    pub interval_ms: u64,
}

impl HeartbeatSender {
    pub fn new(node_id: u64, interval_ms: u64) -> (s: Self)
        ensures
            s.node_id == node_id,
            s.interval_ms == interval_ms,
    {
        HeartbeatSender { node_id, interval_ms }
    }
}

/// A follower's heartbeat handling: each heartbeat renews its lease.
pub struct HeartbeatReceiver {
    pub lease_manager: LeaseManager,
    pub node_id: u64,
}

impl HeartbeatReceiver {
    pub fn new(node_id: u64, lease_manager: LeaseManager) -> (r: Self)
        ensures
            r.node_id == node_id,
            r.lease_manager == lease_manager,
    {
        HeartbeatReceiver { lease_manager, node_id }
    }

    /// A heartbeat received at `now_ms` renews the lease for its leader and
    /// term.
    pub fn handle_heartbeat_at(&mut self, heartbeat: LeaderHeartbeat, now_ms: u64)
        ensures
            final(self).lease_manager.current_lease == Some(LeaderLease::lease_from(
                heartbeat.leader_id,
                heartbeat.term,
                old(self).lease_manager.lease_duration_ms,
                old(self).lease_manager.renewal_instant(now_ms),
            )),
            final(self).lease_manager.lease_duration_ms == old(self).lease_manager.lease_duration_ms,
            final(self).node_id == old(self).node_id,
    {
        self.lease_manager.update_lease_at(heartbeat.leader_id, heartbeat.term, now_ms);
    }

    /// A heartbeat received now renews the lease.
    pub fn handle_heartbeat(&mut self, heartbeat: LeaderHeartbeat)
        ensures
            exists|t: u64| final(self).lease_manager.current_lease == Some(#[trigger] LeaderLease::lease_from(
                heartbeat.leader_id,
                heartbeat.term,
                old(self).lease_manager.lease_duration_ms,
                old(self).lease_manager.renewal_instant(t),
            )),
            final(self).lease_manager.lease_duration_ms == old(self).lease_manager.lease_duration_ms,
            final(self).node_id == old(self).node_id,
    {
        let now = now_millis();
        self.handle_heartbeat_at(heartbeat, now);
    }
}

} // verus!
