//! Leader leases for follower reads: a follower that heard from the leader
//! within the lease may serve reads locally. Times are milliseconds on the
//! wall clock.
use vstd::prelude::*;
use crate::clock::now_millis;

verus! {

/// `a + b`, or `u64::MAX` when that does not fit.
pub open spec fn saturating_sum(a: u64, b: u64) -> u64 {
    if a + b > u64::MAX { u64::MAX } else { (a + b) as u64 }
}

/// A follower's lease on the current leader.
#[derive(Clone, Copy, Debug)]
pub struct LeaderLease {
    pub leader_id: u64,
    pub term: u64,
    /// When the last heartbeat arrived (ms).
    pub last_heartbeat: u64,
    /// When the lease runs out (ms): last heartbeat plus the lease length.
    pub lease_expires_at: u64,
}

impl LeaderLease {
    /// A lease from a heartbeat received at `now_ms`.
    pub fn new_at(leader_id: u64, term: u64, lease_duration_ms: u64, now_ms: u64) -> (l: Self)
        ensures
            l.leader_id == leader_id,
            l.term == term,
            l.last_heartbeat == now_ms,
            l.lease_expires_at == saturating_sum(now_ms, lease_duration_ms),
    {
        LeaderLease {
            leader_id,
            term,
            last_heartbeat: now_ms,
            lease_expires_at: now_ms.saturating_add(lease_duration_ms),
        }
    }

    /// A lease from a heartbeat received now.
    pub fn new(leader_id: u64, term: u64, lease_duration_ms: u64) -> (l: Self)
        ensures
            l.leader_id == leader_id,
            l.term == term,
            l.lease_expires_at == saturating_sum(l.last_heartbeat, lease_duration_ms),
    {
        let now = now_millis();
        Self::new_at(leader_id, term, lease_duration_ms, now)
    }

    /// The lease holds at `t`.
    pub open spec fn valid_at(&self, t: u64) -> bool {
        t < self.lease_expires_at
    }

    /// Milliseconds left at `t`, 0 once expired.
    pub open spec fn remaining_at(&self, t: u64) -> u64 {
        if t < self.lease_expires_at { (self.lease_expires_at - t) as u64 } else { 0 }
    }

    /// Whether the lease still holds at `now_ms`.
    pub fn is_valid_at(&self, now_ms: u64) -> (r: bool)
        ensures
            r == (now_ms < self.lease_expires_at),
    {
        now_ms < self.lease_expires_at
    }

    /// Whether the lease still holds now.
    pub fn is_valid(&self) -> (r: bool)
        ensures
            exists|t: u64| r == #[trigger] self.valid_at(t),
    {
        let now = now_millis();
        let r = self.is_valid_at(now);
        assert(r == self.valid_at(now));
        r
    }

    /// Milliseconds left at `now_ms`, 0 once expired.
    pub fn time_remaining_at(&self, now_ms: u64) -> (r: u64)
        ensures
            r == (if now_ms < self.lease_expires_at { (self.lease_expires_at - now_ms) as u64 } else { 0 }),
    {
        if now_ms < self.lease_expires_at {
            self.lease_expires_at - now_ms
        } else {
            0
        }
    }

    /// Milliseconds left now, 0 once expired.
    pub fn time_remaining(&self) -> (r: u64)
        ensures
            exists|t: u64| r == #[trigger] self.remaining_at(t),
    {
        let now = now_millis();
        let r = self.time_remaining_at(now);
        assert(r == self.remaining_at(now));
        r
    }

    /// The instant a renewal at `now_ms` records: `now_ms`, or the last
    /// heartbeat when the clock reads earlier, so that the recorded heartbeat
    /// never moves back.
    pub open spec fn renewal_instant(&self, now_ms: u64) -> u64 {
        if now_ms >= self.last_heartbeat { now_ms } else { self.last_heartbeat }
    }

    /// Renews the lease from a heartbeat received at `now_ms`: the heartbeat
    /// is recorded at `now_ms`, or kept where it was if the clock reads
    /// earlier, and the lease runs a full length from it.
    pub fn update_at(&mut self, leader_id: u64, term: u64, lease_duration_ms: u64, now_ms: u64)
        ensures
            *final(self) == Self::lease_from(leader_id, term, lease_duration_ms, old(self).renewal_instant(now_ms)),
            final(self).last_heartbeat >= old(self).last_heartbeat,
    {
        let at = if now_ms >= self.last_heartbeat { now_ms } else { self.last_heartbeat };
        self.leader_id = leader_id;
        self.term = term;
        self.last_heartbeat = at;
        self.lease_expires_at = at.saturating_add(lease_duration_ms);
    }

    /// Renews the lease from a heartbeat received now.
    pub fn update(&mut self, leader_id: u64, term: u64, lease_duration_ms: u64)
        ensures
            exists|t: u64| *final(self) == #[trigger] Self::lease_from(leader_id, term, lease_duration_ms, old(self).renewal_instant(t)),
            final(self).last_heartbeat >= old(self).last_heartbeat,
    {
        let now = now_millis();
        self.update_at(leader_id, term, lease_duration_ms, now);
    }

    /// The lease a heartbeat at `now` grants.
    pub open spec fn lease_from(leader_id: u64, term: u64, lease_duration_ms: u64, now: u64) -> LeaderLease {
        LeaderLease {
            leader_id,
            term,
            last_heartbeat: now,
            lease_expires_at: saturating_sum(now, lease_duration_ms),
        }
    }
}

/// The lease as seen at one moment.
#[derive(Clone, Copy, Debug, PartialEq, Eq, Structural)]
pub enum LeaseStatus {
    /// A lease holds, with this much time left (ms).
    Valid { leader_id: u64, term: u64, time_remaining: u64 },
    /// A lease existed and ran out this long ago (ms).
    Expired { leader_id: u64, term: u64, expired_ago: u64 },
    /// No lease was ever established, or it was invalidated.
    NoLease,
}

/// A follower's lease state: at most one lease, each lasting
/// `lease_duration_ms`.
pub struct LeaseManager {
    pub current_lease: Option<LeaderLease>,
    pub lease_duration_ms: u64,
}

impl LeaseManager {
    /// No lease yet.
    pub fn new(lease_duration_ms: u64) -> (m: Self)
        ensures
            m.current_lease is None,
            m.lease_duration_ms == lease_duration_ms,
    {
        LeaseManager { current_lease: None, lease_duration_ms }
    }

    /// The instant a heartbeat at `now_ms` is recorded at: `now_ms` for a
    /// new lease, else the existing lease's renewal instant.
    pub open spec fn renewal_instant(&self, now_ms: u64) -> u64 {
        match self.current_lease {
            Some(l) => l.renewal_instant(now_ms),
            None => now_ms,
        }
    }

    /// A heartbeat from `leader_id` in `term` arrived at `now_ms`: the lease
    /// is established or extended, its heartbeat never moving back.
    pub fn update_lease_at(&mut self, leader_id: u64, term: u64, now_ms: u64)
        ensures
            final(self).current_lease == Some(LeaderLease::lease_from(leader_id, term, old(self).lease_duration_ms, old(self).renewal_instant(now_ms))),
            final(self).lease_duration_ms == old(self).lease_duration_ms,
    {
        let d = self.lease_duration_ms;
        match &mut self.current_lease {
            Some(existing) => {
                existing.update_at(leader_id, term, d, now_ms);
            },
            None => {
                self.current_lease = Some(LeaderLease::new_at(leader_id, term, d, now_ms));
            },
        }
    }

    /// A heartbeat arrived now.
    pub fn update_lease(&mut self, leader_id: u64, term: u64)
        ensures
            exists|t: u64| final(self).current_lease == Some(#[trigger] LeaderLease::lease_from(leader_id, term, old(self).lease_duration_ms, old(self).renewal_instant(t))),
            final(self).lease_duration_ms == old(self).lease_duration_ms,
    {
        let now = now_millis();
        self.update_lease_at(leader_id, term, now);
    }

    /// Whether a lease holds at `now_ms`.
    pub fn has_valid_lease_at(&self, now_ms: u64) -> (r: bool)
        ensures
            r == (self.current_lease is Some && now_ms < self.current_lease->0.lease_expires_at),
    {
        match &self.current_lease {
            Some(l) => l.is_valid_at(now_ms),
            None => false,
        }
    }

    /// The leader whose lease holds at `now_ms`, if any.
    pub fn get_leader_id_at(&self, now_ms: u64) -> (r: Option<u64>)
        ensures
            r == (if self.current_lease is Some && now_ms < self.current_lease->0.lease_expires_at {
                Some(self.current_lease->0.leader_id)
            } else {
                None
            }),
    {
        match &self.current_lease {
            Some(l) => if l.is_valid_at(now_ms) { Some(l.leader_id) } else { None },
            None => None,
        }
    }

    /// The lease status at `now_ms`.
    pub fn get_status_at(&self, now_ms: u64) -> (r: LeaseStatus)
        ensures
            r == self.status_at(now_ms),
    {
        match &self.current_lease {
            None => LeaseStatus::NoLease,
            Some(l) => {
                if l.is_valid_at(now_ms) {
                    LeaseStatus::Valid { leader_id: l.leader_id, term: l.term, time_remaining: l.time_remaining_at(now_ms) }
                } else {
                    LeaseStatus::Expired { leader_id: l.leader_id, term: l.term, expired_ago: now_ms - l.lease_expires_at }
                }
            },
        }
    }

    /// Whether a lease holds now: what `has_valid_lease_at` gives at the
    /// instant the clock was read.
    pub fn has_valid_lease(&self) -> (r: bool)
        ensures
            exists|t: u64| r == #[trigger] self.lease_valid_at(t),
            self.current_lease is None ==> !r,
    {
        let now = now_millis();
        let r = self.has_valid_lease_at(now);
        assert(r == self.lease_valid_at(now));
        r
    }

    /// The leader whose lease holds now, if any: what `get_leader_id_at`
    /// gives at the instant the clock was read.
    pub fn get_leader_id(&self) -> (r: Option<u64>)
        ensures
            exists|t: u64| r == #[trigger] self.leader_at(t),
            self.current_lease is None ==> r is None,
    {
        let now = now_millis();
        let r = self.get_leader_id_at(now);
        assert(r == self.leader_at(now));
        r
    }

    /// A lease is held and runs past `t`.
    pub open spec fn lease_valid_at(&self, t: u64) -> bool {
        self.current_lease is Some && t < self.current_lease->0.lease_expires_at
    }

    /// The leader whose lease holds at `t`, if any.
    pub open spec fn leader_at(&self, t: u64) -> Option<u64> {
        if self.lease_valid_at(t) { Some(self.current_lease->0.leader_id) } else { None }
    }

    /// The lease status now.
    pub fn get_status(&self) -> (r: LeaseStatus)
        ensures
            exists|t: u64| r == #[trigger] self.status_at(t),
    {
        let now = now_millis();
        let r = self.get_status_at(now);
        assert(r == self.status_at(now));
        r
    }

    /// The lease status at `now_ms`.
    pub open spec fn status_at(&self, now_ms: u64) -> LeaseStatus {
        match self.current_lease {
            None => LeaseStatus::NoLease,
            Some(l) => if now_ms < l.lease_expires_at {
                LeaseStatus::Valid { leader_id: l.leader_id, term: l.term, time_remaining: (l.lease_expires_at - now_ms) as u64 }
            } else {
                LeaseStatus::Expired { leader_id: l.leader_id, term: l.term, expired_ago: (now_ms - l.lease_expires_at) as u64 }
            },
        }
    }

    /// Drops the lease (leader or term change).
    pub fn invalidate(&mut self)
        ensures
            final(self).current_lease is None,
            final(self).lease_duration_ms == old(self).lease_duration_ms,
    {
        self.current_lease = None;
    }
}

} // verus!
