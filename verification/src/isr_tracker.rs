//! In-sync replica tracking: follower progress and liveness per partition,
//! and the high watermark that consumers may read up to.
use vstd::prelude::*;
use dashmap::DashMap;
use crate::clock::{elapsed, now_millis};

verus! {

#[verifier::external_type_specification]
#[verifier::external_body]
#[verifier::reject_recursive_types(K)]
#[verifier::reject_recursive_types(V)]
#[verifier::reject_recursive_types(S)]
pub struct ExDashMap<K, V, S>(DashMap<K, V, S>);

/// A follower's last acknowledged offset and when it arrived (ms).
#[derive(Clone, Copy, Debug)]
pub struct FollowerState {
    pub last_offset: i64,
    pub last_update_ms: u64,
}

/// Key of a follower's progress: (node, (topic, partition)).
pub type FollowerKey = (u64, (String, i32));

/// Follower progress, keyed by (node, (topic, partition)).
pub type FollowerMap = DashMap<FollowerKey, FollowerState>;

/// Node liveness: node to the ms it was last heard from.
pub type SeenMap = DashMap<u64, u64>;

/// What the follower-progress map holds: (node, topic, partition) to
/// (last offset, last update ms).
pub uninterp spec fn follower_contents(m: DashMap<FollowerKey, FollowerState>) -> Map<(u64, Seq<char>, i32), (i64, u64)>;

/// What the node-liveness map holds: node to the ms it was last heard from.
pub uninterp spec fn last_seen_contents(m: DashMap<u64, u64>) -> Map<u64, u64>;

/// No follower progress.
pub open spec fn no_followers() -> Map<(u64, Seq<char>, i32), (i64, u64)> {
    Map::empty()
}

/// No node heard from.
pub open spec fn nothing_seen() -> Map<u64, u64> {
    Map::empty()
}

/// An empty progress map.
///
/// Calls `DashMap::new`; claims it holds nothing.
#[verifier::external_body]
fn followers_new() -> (fresh: FollowerMap)
    ensures
        follower_contents(fresh) == no_followers(),
{
    DashMap::new()
}

/// An empty liveness map.
///
/// Calls `DashMap::new`; claims it holds nothing.
#[verifier::external_body]
fn last_seen_new() -> (fresh: SeenMap)
    ensures
        last_seen_contents(fresh) == nothing_seen(),
{
    DashMap::new()
}


/// Key of the progress of `node` on `topic`-`partition`.
pub open spec fn fkey(node: u64, topic: Seq<char>, partition: i32) -> (u64, Seq<char>, i32) {
    (node, topic, partition)
}

/// The progress recorded for a follower.
///
/// Calls `DashMap::get` with the key; claims it yields the recorded
/// (offset, time) exactly when the key is present.
#[verifier::external_body]
fn followers_get(m: &FollowerMap, node: u64, topic: &str, partition: i32) -> (r: Option<FollowerState>)
    ensures
        match r {
            Some(st) => follower_contents(*m).contains_key(fkey(node, topic@, partition))
                && follower_contents(*m)[fkey(node, topic@, partition)] == (st.last_offset, st.last_update_ms),
            None => !follower_contents(*m).contains_key(fkey(node, topic@, partition)),
        },
{
    m.get(&(node, (topic.to_string(), partition))).map(|e| *e.value())
}

/// Whether progress is recorded for a follower.
///
/// Calls `DashMap::contains_key`; claims it answers key membership.
#[verifier::external_body]
fn followers_contains(m: &FollowerMap, node: u64, topic: &str, partition: i32) -> (r: bool)
    ensures
        r == follower_contents(*m).contains_key(fkey(node, topic@, partition)),
{
    m.contains_key(&(node, (topic.to_string(), partition)))
}

/// Records a follower's progress, replacing what was there.
///
/// Calls `DashMap::insert`; claims the map then maps the key to the value
/// and is otherwise unchanged.
#[verifier::external_body]
fn followers_insert(m: &mut FollowerMap, node: u64, topic: &str, partition: i32, st: FollowerState)
    ensures
        follower_contents(*final(m)) == follower_contents(*old(m)).insert(
            fkey(node, topic@, partition),
            (st.last_offset, st.last_update_ms),
        ),
{
    m.insert((node, (topic.to_string(), partition)), st);
}

/// Forgets a follower's progress on one partition.
///
/// Calls `DashMap::remove`; claims the key is then absent and nothing else
/// changed.
#[verifier::external_body]
fn followers_remove(m: &mut FollowerMap, node: u64, topic: &str, partition: i32)
    ensures
        follower_contents(*final(m)) == follower_contents(*old(m)).remove(fkey(node, topic@, partition)),
{
    m.remove(&(node, (topic.to_string(), partition)));
}

/// Whether an entry survives dropping node `node_id`.
pub fn keeps_entry(key: &FollowerKey, node_id: u64) -> (r: bool)
    ensures
        r == (key.0 != node_id),
{
    key.0 != node_id
}

/// Forgets every partition's progress of one node.
///
/// Calls `DashMap::retain` with a predicate that is `keeps_entry`; claims
/// exactly the entries of other nodes remain, unchanged.
#[verifier::external_body]
fn followers_retain_other_nodes(m: &mut FollowerMap, node_id: u64)
    ensures
        forall|k: (u64, Seq<char>, i32)|
            #[trigger] follower_contents(*final(m)).contains_key(k) == (follower_contents(
                *old(m),
            ).contains_key(k) && k.0 != node_id),
        forall|k: (u64, Seq<char>, i32)|
            #[trigger] follower_contents(*final(m)).contains_key(k) ==> follower_contents(
                *final(m),
            )[k] == follower_contents(*old(m))[k],
{
    m.retain(|k, _v| keeps_entry(k, node_id));
}

/// One recorded progress entry as plain values:
/// (node, topic, partition, last offset, last update ms).
pub type FollowerEntry = (u64, String, i32, i64, u64);

pub open spec fn entry_key(e: FollowerEntry) -> (u64, Seq<char>, i32) {
    (e.0, e.1@, e.2)
}

/// Every recorded progress entry, in no particular order.
///
/// Calls `DashMap::iter` and copies each entry out; claims each key appears
/// once, with its value, and every key appears.
#[verifier::external_body]
fn followers_snapshot(m: &FollowerMap) -> (r: Vec<FollowerEntry>)
    ensures
        forall|i: int|
            0 <= i < r@.len() ==> follower_contents(*m).contains_key(entry_key(#[trigger] r@[i]))
                && follower_contents(*m)[entry_key(r@[i])] == (r@[i].3, r@[i].4),
        forall|k: (u64, Seq<char>, i32)|
            #[trigger] follower_contents(*m).contains_key(k) ==> exists|i: int|
                0 <= i < r@.len() && entry_key(#[trigger] r@[i]) == k,
        forall|i: int, j: int|
            0 <= i < j < r@.len() ==> entry_key(#[trigger] r@[i]) != entry_key(#[trigger] r@[j]),
{
    m.iter().map(|e| (e.key().0, e.key().1 .0.clone(), e.key().1 .1, e.value().last_offset, e.value().last_update_ms)).collect()
}

/// When a node was last heard from.
///
/// Calls `DashMap::get`; claims it yields the recorded time exactly when
/// the node is present.
#[verifier::external_body]
fn seen_get(m: &SeenMap, node: u64) -> (r: Option<u64>)
    ensures
        match r {
            Some(t) => last_seen_contents(*m).contains_key(node) && last_seen_contents(*m)[node] == t,
            None => !last_seen_contents(*m).contains_key(node),
        },
{
    m.get(&node).map(|e| *e.value())
}

/// Records when a node was heard from.
///
/// Calls `DashMap::insert`; claims the node then maps to `ms` and nothing
/// else changed.
#[verifier::external_body]
fn seen_insert(m: &mut SeenMap, node: u64, ms: u64)
    ensures
        last_seen_contents(*final(m)) == last_seen_contents(*old(m)).insert(node, ms),
{
    m.insert(node, ms);
}


/// Whether a follower counts as in sync, and whether anything is known.
#[derive(Clone, Copy, Debug, PartialEq, Eq, Structural)]
pub enum SyncState {
    /// Caught up, or lagging within both bounds.
    InSync,
    /// Known and outside the lag bounds, or no longer heard from.
    Lagging,
    /// Nothing acknowledged for this partition.
    Unknown,
}

/// `x * 3`, or `u64::MAX` when that does not fit.
pub open spec fn saturating_triple(x: u64) -> u64 {
    if x * 3 > u64::MAX { u64::MAX } else { (x * 3) as u64 }
}

/// Tracks follower progress and liveness to decide which replicas are in
/// sync. A follower is in sync when it is alive and either caught up, or
/// behind by at most `max_lag_entries` with its last report at most
/// `max_lag_ms` old.
pub struct IsrTracker {
    follower_offsets: FollowerMap,
    node_last_seen_ms: SeenMap,
    max_lag_entries: u64,
    max_lag_ms: u64,
    node_liveness_ms: u64,
}

impl IsrTracker {
    /// Recorded follower progress: (node, topic, partition) to
    /// (last offset, last update ms).
    pub closed spec fn followers(&self) -> Map<(u64, Seq<char>, i32), (i64, u64)> {
        follower_contents(self.follower_offsets)
    }

    /// When each node was last heard from (ms).
    pub closed spec fn seen(&self) -> Map<u64, u64> {
        last_seen_contents(self.node_last_seen_ms)
    }

    /// Most entries a follower may be behind and still be in sync.
    pub closed spec fn lag_entries_bound(&self) -> u64 {
        self.max_lag_entries
    }

    /// Longest (ms) a lagging follower may go without reporting.
    pub closed spec fn lag_ms_bound(&self) -> u64 {
        self.max_lag_ms
    }

    /// Longest (ms) a node may go unheard before it counts as dead.
    pub closed spec fn liveness_ms(&self) -> u64 {
        self.node_liveness_ms
    }

    /// A node is alive at `now` unless it was heard from, and longer than
    /// the liveness bound ago.
    pub open spec fn alive_at(&self, node: u64, now: u64) -> bool {
        !self.seen().contains_key(node) || elapsed(now, self.seen()[node]) <= self.liveness_ms()
    }

    /// The sync state of `node` on `topic`-`partition` at `now`.
    pub open spec fn state_at(&self, node: u64, topic: Seq<char>, partition: i32, leader_offset: i64, now: u64) -> SyncState {
        let k = fkey(node, topic, partition);
        if !self.followers().contains_key(k) {
            SyncState::Unknown
        } else if !self.alive_at(node, now) {
            SyncState::Lagging
        } else {
            let (lo, lu) = self.followers()[k];
            if lo >= leader_offset {
                SyncState::InSync
            } else if leader_offset - lo > (self.lag_entries_bound() as i64) {
                SyncState::Lagging
            } else if elapsed(now, lu) > self.lag_ms_bound() {
                SyncState::Lagging
            } else {
                SyncState::InSync
            }
        }
    }

    /// The lag of a follower behind `leader_offset` fits in `i64` wherever
    /// classifying it at `now` computes it.
    pub open spec fn lag_computable_at(&self, node: u64, topic: Seq<char>, partition: i32, leader_offset: i64, now: u64) -> bool {
        let k = fkey(node, topic, partition);
        self.followers().contains_key(k) && self.alive_at(node, now) && self.followers()[k].0
            < leader_offset ==> leader_offset - self.followers()[k].0 <= i64::MAX
    }

    /// The lag of a follower behind `leader_offset` fits in `i64` whenever it
    /// is behind.
    pub open spec fn lag_computable(&self, node: u64, topic: Seq<char>, partition: i32, leader_offset: i64) -> bool {
        let k = fkey(node, topic, partition);
        self.followers().contains_key(k) && self.followers()[k].0 < leader_offset
            ==> leader_offset - self.followers()[k].0 <= i64::MAX
    }

    /// Configuration and recorded state other than follower progress are
    /// those of `other`.
    pub open spec fn same_config(&self, other: &IsrTracker) -> bool {
        &&& self.lag_entries_bound() == other.lag_entries_bound()
        &&& self.lag_ms_bound() == other.lag_ms_bound()
        &&& self.liveness_ms() == other.liveness_ms()
    }

    /// A tracker with nothing recorded. A node counts as dead after three
    /// times `max_lag_ms` unheard.
    pub fn new(max_lag_entries: u64, max_lag_ms: u64) -> (t: Self)
        ensures
            t.followers() == no_followers(),
            t.seen() == nothing_seen(),
            t.lag_entries_bound() == max_lag_entries,
            t.lag_ms_bound() == max_lag_ms,
            t.liveness_ms() == saturating_triple(max_lag_ms),
    {
        let liveness = if max_lag_ms > u64::MAX / 3 { u64::MAX } else { max_lag_ms * 3 };
        IsrTracker {
            follower_offsets: followers_new(),
            node_last_seen_ms: last_seen_new(),
            max_lag_entries,
            max_lag_ms,
            node_liveness_ms: liveness,
        }
    }

    /// Records that `node_id` was heard from at `now_ms`.
    pub fn record_node_alive_at(&mut self, node_id: u64, now_ms: u64)
        ensures
            final(self).seen() == old(self).seen().insert(node_id, now_ms),
            final(self).followers() == old(self).followers(),
            final(self).same_config(&*old(self)),
    {
        seen_insert(&mut self.node_last_seen_ms, node_id, now_ms);
    }

    /// Records that `node_id` was heard from now.
    pub fn record_node_alive(&mut self, node_id: u64)
        ensures
            exists|t: u64| final(self).seen() == old(self).seen().insert(node_id, t),
            final(self).followers() == old(self).followers(),
            final(self).same_config(&*old(self)),
    {
        let now = now_millis();
        self.record_node_alive_at(node_id, now);
    }

    /// Whether `node_id` is alive at `now_ms`. Nodes never heard from count
    /// as alive.
    pub fn is_node_alive_at(&self, node_id: u64, now_ms: u64) -> (r: bool)
        ensures
            r == self.alive_at(node_id, now_ms),
    {
        match seen_get(&self.node_last_seen_ms, node_id) {
            None => true,
            Some(last) => now_ms.saturating_sub(last) <= self.node_liveness_ms,
        }
    }

    /// Whether `node_id` is alive now. Nodes never heard from count as alive.
    pub fn is_node_alive(&self, node_id: u64) -> (r: bool)
        ensures
            exists|t: u64| r == self.alive_at(node_id, t),
            !self.seen().contains_key(node_id) ==> r,
    {
        let now = now_millis();
        self.is_node_alive_at(node_id, now)
    }

    /// Classifies a follower at `now_ms`: unknown if it never reported;
    /// lagging if dead; in sync if caught up (however long ago); otherwise
    /// in sync only within both lag bounds.
    pub fn sync_state_at(&self, node_id: u64, topic: &str, partition: i32, leader_offset: i64, now_ms: u64) -> (r: SyncState)
        requires
            self.lag_computable_at(node_id, topic@, partition, leader_offset, now_ms),
        ensures
            r == self.state_at(node_id, topic@, partition, leader_offset, now_ms),
    {
        let state = match followers_get(&self.follower_offsets, node_id, topic, partition) {
            None => {
                return SyncState::Unknown;
            },
            Some(st) => st,
        };
        if !self.is_node_alive_at(node_id, now_ms) {
            return SyncState::Lagging;
        }
        if state.last_offset >= leader_offset {
            return SyncState::InSync;
        }
        let offset_lag = leader_offset - state.last_offset;
        if offset_lag > self.max_lag_entries as i64 {
            return SyncState::Lagging;
        }
        if now_ms.saturating_sub(state.last_update_ms) > self.max_lag_ms {
            return SyncState::Lagging;
        }
        SyncState::InSync
    }

    /// Classifies a follower now (see `sync_state_at`).
    pub fn sync_state(&self, node_id: u64, topic: &str, partition: i32, leader_offset: i64) -> (r: SyncState)
        requires
            self.lag_computable(node_id, topic@, partition, leader_offset),
        ensures
            exists|t: u64| r == self.state_at(node_id, topic@, partition, leader_offset, t),
            (r == SyncState::Unknown) == !self.followers().contains_key(fkey(node_id, topic@, partition)),
    {
        let now = now_millis();
        self.sync_state_at(node_id, topic, partition, leader_offset, now)
    }

    /// Whether a follower is in sync at `now_ms`.
    pub fn is_in_sync_at(&self, node_id: u64, topic: &str, partition: i32, leader_offset: i64, now_ms: u64) -> (r: bool)
        requires
            self.lag_computable_at(node_id, topic@, partition, leader_offset, now_ms),
        ensures
            r == (self.state_at(node_id, topic@, partition, leader_offset, now_ms) == SyncState::InSync),
    {
        self.sync_state_at(node_id, topic, partition, leader_offset, now_ms) == SyncState::InSync
    }

    /// Whether a follower is in sync now.
    pub fn is_in_sync(&self, node_id: u64, topic: &str, partition: i32, leader_offset: i64) -> (r: bool)
        requires
            self.lag_computable(node_id, topic@, partition, leader_offset),
        ensures
            exists|t: u64| r == (self.state_at(node_id, topic@, partition, leader_offset, t) == SyncState::InSync),
            r ==> self.followers().contains_key(fkey(node_id, topic@, partition)),
    {
        let now = now_millis();
        self.is_in_sync_at(node_id, topic, partition, leader_offset, now)
    }

    /// True when no replica other than the leader has reported on this
    /// partition.
    pub fn is_unknown_for_all(&self, topic: &str, partition: i32, replicas: &[u64], leader_id: u64) -> (r: bool)
        ensures
            r == (forall|i: int|
                0 <= i < replicas@.len() && replicas@[i] != leader_id ==> !self.followers().contains_key(
                    fkey(#[trigger] replicas@[i], topic@, partition),
                )),
    {
        let mut i: usize = 0;
        while i < replicas.len()
            invariant
                i <= replicas@.len(),
                forall|j: int|
                    0 <= j < i && replicas@[j] != leader_id ==> !self.followers().contains_key(
                        fkey(#[trigger] replicas@[j], topic@, partition),
                    ),
            decreases replicas.len() - i,
        {
            let node_id = replicas[i];
            if node_id != leader_id && followers_contains(&self.follower_offsets, node_id, topic, partition) {
                return false;
            }
            i += 1;
        }
        true
    }

    /// Records that `node_id` acknowledged `offset` at `now_ms`.
    pub fn update_follower_offset_at(&mut self, node_id: u64, topic: &str, partition: i32, offset: i64, now_ms: u64)
        ensures
            final(self).followers() == old(self).followers().insert(fkey(node_id, topic@, partition), (offset, now_ms)),
            final(self).seen() == old(self).seen(),
            final(self).same_config(&*old(self)),
    {
        followers_insert(
            &mut self.follower_offsets,
            node_id,
            topic,
            partition,
            FollowerState { last_offset: offset, last_update_ms: now_ms },
        );
    }

    /// Records that `node_id` acknowledged `offset` now.
    pub fn update_follower_offset(&mut self, node_id: u64, topic: &str, partition: i32, offset: i64)
        ensures
            exists|t: u64| final(self).followers() == old(self).followers().insert(fkey(node_id, topic@, partition), (offset, t)),
            final(self).seen() == old(self).seen(),
            final(self).same_config(&*old(self)),
    {
        let now = now_millis();
        self.update_follower_offset_at(node_id, topic, partition, offset, now);
    }

    /// Forgets everything recorded about `node_id`'s progress, on every
    /// partition.
    pub fn remove_node(&mut self, node_id: u64)
        ensures
            forall|k: (u64, Seq<char>, i32)|
                #[trigger] final(self).followers().contains_key(k) == (old(self).followers().contains_key(k) && k.0 != node_id),
            forall|k: (u64, Seq<char>, i32)|
                #[trigger] final(self).followers().contains_key(k) ==> final(self).followers()[k] == old(self).followers()[k],
            final(self).seen() == old(self).seen(),
            final(self).same_config(&*old(self)),
    {
        followers_retain_other_nodes(&mut self.follower_offsets, node_id);
    }

    /// Forgets `node_id`'s progress on one partition.
    pub fn remove_follower(&mut self, node_id: u64, topic: &str, partition: i32)
        ensures
            final(self).followers() == old(self).followers().remove(fkey(node_id, topic@, partition)),
            final(self).seen() == old(self).seen(),
            final(self).same_config(&*old(self)),
    {
        followers_remove(&mut self.follower_offsets, node_id, topic, partition);
    }
}

impl IsrTracker {
    /// Whether follower entry `k` belongs to `topic`-`partition` and
    /// reported within the lag bound at `now`.
    pub open spec fn live_entry(&self, k: (u64, Seq<char>, i32), topic: Seq<char>, partition: i32, now: u64) -> bool {
        &&& self.followers().contains_key(k)
        &&& k.1 == topic
        &&& k.2 == partition
        &&& elapsed(now, self.followers()[k].1) <= self.lag_ms_bound()
    }

    /// `r` is the lowest offset of the live entries of `topic`-`partition` at
    /// `now`, or `None` when there are none.
    pub open spec fn is_min_live_offset(&self, r: Option<i64>, topic: Seq<char>, partition: i32, now: u64) -> bool {
        &&& (r is None) == !(exists|k: (u64, Seq<char>, i32)| #[trigger] self.live_entry(k, topic, partition, now))
        &&& r is Some ==> (exists|k: (u64, Seq<char>, i32)|
            #[trigger] self.live_entry(k, topic, partition, now) && self.followers()[k].0 == r->0)
        &&& r is Some ==> (forall|k: (u64, Seq<char>, i32)|
            #[trigger] self.live_entry(k, topic, partition, now) ==> r->0 <= self.followers()[k].0)
    }

    /// Replicas of `replicas` in sync at `now`, in replica order.
    pub open spec fn isr_at(&self, topic: Seq<char>, partition: i32, leader_offset: i64, replicas: Seq<u64>, now: u64) -> Seq<u64> {
        replicas.filter(|id: u64| self.state_at(id, topic, partition, leader_offset, now) == SyncState::InSync)
    }

    /// Every replica's lag can be classified at `now`.
    pub open spec fn all_lags_computable_at(&self, topic: Seq<char>, partition: i32, leader_offset: i64, replicas: Seq<u64>, now: u64) -> bool {
        forall|i: int| 0 <= i < replicas.len() ==> self.lag_computable_at(#[trigger] replicas[i], topic, partition, leader_offset, now)
    }

    /// Every replica's lag can be classified at any time.
    pub open spec fn all_lags_computable(&self, topic: Seq<char>, partition: i32, leader_offset: i64, replicas: Seq<u64>) -> bool {
        forall|i: int| 0 <= i < replicas.len() ==> self.lag_computable(#[trigger] replicas[i], topic, partition, leader_offset)
    }

    /// The in-sync replicas at `now_ms`, in the order of `all_replicas`.
    pub fn get_isr_at(&self, topic: &str, partition: i32, leader_offset: i64, all_replicas: &[u64], now_ms: u64) -> (r: Vec<u64>)
        requires
            self.all_lags_computable_at(topic@, partition, leader_offset, all_replicas@, now_ms),
        ensures
            r@ == self.isr_at(topic@, partition, leader_offset, all_replicas@, now_ms),
    {
        let ghost pred = |id: u64| self.state_at(id, topic@, partition, leader_offset, now_ms) == SyncState::InSync;
        let mut r: Vec<u64> = Vec::new();
        let mut i: usize = 0;
        while i < all_replicas.len()
            invariant
                i <= all_replicas@.len(),
                r@ == all_replicas@.take(i as int).filter(pred),
                self.all_lags_computable_at(topic@, partition, leader_offset, all_replicas@, now_ms),
                pred == (|id: u64| self.state_at(id, topic@, partition, leader_offset, now_ms) == SyncState::InSync),
            decreases all_replicas.len() - i,
        {
            let id = all_replicas[i];
            proof {
                reveal(Seq::filter);
                assert(all_replicas@.take(i as int + 1).drop_last() =~= all_replicas@.take(i as int));
                assert(all_replicas@.take(i as int + 1).last() == id);
            }
            if self.is_in_sync_at(id, topic, partition, leader_offset, now_ms) {
                r.push(id);
            }
            i += 1;
        }
        assert(all_replicas@.take(all_replicas@.len() as int) =~= all_replicas@);
        r
    }

    /// The in-sync replicas now, in the order of `all_replicas`.
    pub fn get_isr(&self, topic: &str, partition: i32, leader_offset: i64, all_replicas: &[u64]) -> (r: Vec<u64>)
        requires
            self.all_lags_computable(topic@, partition, leader_offset, all_replicas@),
        ensures
            exists|t: u64| r@ == self.isr_at(topic@, partition, leader_offset, all_replicas@, t),
    {
        let now = now_millis();
        assert(self.all_lags_computable_at(topic@, partition, leader_offset, all_replicas@, now));
        self.get_isr_at(topic, partition, leader_offset, all_replicas, now)
    }

    /// How far `node_id` is behind `leader_offset` at `now_ms`: `None` when
    /// it never reported or is dead (its distance is unknown, not zero).
    pub fn get_follower_lag_at(&self, node_id: u64, topic: &str, partition: i32, leader_offset: i64, now_ms: u64) -> (r: Option<i64>)
        requires
            self.followers().contains_key(fkey(node_id, topic@, partition)) && self.alive_at(node_id, now_ms)
                ==> i64::MIN <= leader_offset - self.followers()[fkey(node_id, topic@, partition)].0 <= i64::MAX,
        ensures
            r == (if self.followers().contains_key(fkey(node_id, topic@, partition)) && self.alive_at(node_id, now_ms) {
                Some((leader_offset - self.followers()[fkey(node_id, topic@, partition)].0) as i64)
            } else {
                None
            }),
    {
        let last_offset = match followers_get(&self.follower_offsets, node_id, topic, partition) {
            None => {
                return None;
            },
            Some(st) => st.last_offset,
        };
        if !self.is_node_alive_at(node_id, now_ms) {
            return None;
        }
        Some(leader_offset - last_offset)
    }

    /// The lowest offset acknowledged, on `topic`-`partition`, by a follower
    /// that reported within the lag bound at `now_ms`; `None` when there is
    /// none.
    pub fn min_acked_offset_of_live_followers_at(&self, topic: &str, partition: i32, now_ms: u64) -> (r: Option<i64>)
        ensures
            self.is_min_live_offset(r, topic@, partition, now_ms),
    {
        let entries = followers_snapshot(&self.follower_offsets);
        let mut best: Option<i64> = None;
        let mut i: usize = 0;
        while i < entries.len()
            invariant
                i <= entries@.len(),
                forall|j: int|
                    0 <= j < entries@.len() ==> self.followers().contains_key(entry_key(#[trigger] entries@[j]))
                        && self.followers()[entry_key(entries@[j])] == (entries@[j].3, entries@[j].4),
                forall|k: (u64, Seq<char>, i32)|
                    #[trigger] self.followers().contains_key(k) ==> exists|j: int|
                        0 <= j < entries@.len() && entry_key(#[trigger] entries@[j]) == k,
                (best is None) == !(exists|j: int| 0 <= j < i && #[trigger] self.live_entry(entry_key(entries@[j]), topic@, partition, now_ms)),
                best is Some ==> (exists|j: int| 0 <= j < i && #[trigger] self.live_entry(entry_key(entries@[j]), topic@, partition, now_ms)
                    && entries@[j].3 == best->0),
                best is Some ==> (forall|j: int| 0 <= j < i && #[trigger] self.live_entry(entry_key(entries@[j]), topic@, partition, now_ms)
                    ==> best->0 <= entries@[j].3),
            decreases entries.len() - i,
        {
            let e = &entries[i];
            let live = e.2 == partition && crate::text::str_eq(e.1.as_str(), topic)
                && now_ms.saturating_sub(e.4) <= self.max_lag_ms;
            assert(live == self.live_entry(entry_key(entries@[i as int]), topic@, partition, now_ms));
            if live {
                best = match best {
                    None => Some(e.3),
                    Some(b) => if e.3 < b { Some(e.3) } else { Some(b) },
                };
            }
            i += 1;
        }
        proof {
            assert forall|k: (u64, Seq<char>, i32)| #[trigger] self.live_entry(k, topic@, partition, now_ms) implies
                exists|j: int| 0 <= j < entries@.len() && entry_key(entries@[j]) == k && self.live_entry(entry_key(entries@[j]), topic@, partition, now_ms) by {
                let j = choose|j: int| 0 <= j < entries@.len() && entry_key(#[trigger] entries@[j]) == k;
            }
        }
        best
    }

    /// The lowest offset acknowledged on `topic`-`partition` by a follower
    /// reporting within the lag bound now; `None` when there is none.
    pub fn min_acked_offset_of_live_followers(&self, topic: &str, partition: i32) -> (r: Option<i64>)
        ensures
            exists|t: u64| #[trigger] self.is_min_live_offset(r, topic@, partition, t),
    {
        let now = now_millis();
        self.min_acked_offset_of_live_followers_at(topic, partition, now)
    }
}

impl IsrTracker {
    /// Over `replicas`: whether some replica other than the leader is in
    /// sync at `now`, and the lowest of `leader_leo` and the offsets of those
    /// in-sync replicas.
    pub open spec fn watermark_fold(&self, topic: Seq<char>, partition: i32, leader_leo: i64, replicas: Seq<u64>, leader_id: u64, now: u64) -> (bool, i64)
        decreases replicas.len(),
    {
        if replicas.len() == 0 {
            (false, leader_leo)
        } else {
            let (any, w) = self.watermark_fold(topic, partition, leader_leo, replicas.drop_last(), leader_id, now);
            let id = replicas.last();
            if id != leader_id && self.state_at(id, topic, partition, leader_leo, now) == SyncState::InSync {
                let lo = self.followers()[fkey(id, topic, partition)].0;
                (true, if lo < w { lo } else { w })
            } else {
                (any, w)
            }
        }
    }

    /// The high watermark consumers may read to at `now`: the leader's log
    /// end when no follower is in sync, otherwise the lowest in-sync offset
    /// capped by the leader's log end and held at or above 0.
    pub open spec fn watermark_at(&self, topic: Seq<char>, partition: i32, leader_leo: i64, replicas: Seq<u64>, leader_id: u64, now: u64) -> i64 {
        let (any, w) = self.watermark_fold(topic, partition, leader_leo, replicas, leader_id, now);
        if !any {
            leader_leo
        } else if w < 0 {
            0
        } else if w > leader_leo {
            leader_leo
        } else {
            w
        }
    }

    /// The watermark can be computed at `now` without overflow, and with a
    /// non-negative leader log end wherever a follower is in sync.
    pub open spec fn watermark_computable_at(&self, topic: Seq<char>, partition: i32, leader_leo: i64, replicas: Seq<u64>, leader_id: u64, now: u64) -> bool {
        &&& forall|i: int| 0 <= i < replicas.len() && #[trigger] replicas[i] != leader_id ==> {
            &&& self.lag_computable_at(replicas[i], topic, partition, leader_leo, now)
            &&& (self.state_at(replicas[i], topic, partition, leader_leo, now) == SyncState::InSync
                ==> i64::MIN <= leader_leo - self.followers()[fkey(replicas[i], topic, partition)].0 <= i64::MAX)
        }
        &&& self.watermark_fold(topic, partition, leader_leo, replicas, leader_id, now).0 ==> leader_leo >= 0
    }

    /// The fold is bounded by the leader's log end and by every in-sync
    /// follower's offset.
    pub proof fn lemma_watermark_fold_bounds(&self, topic: Seq<char>, partition: i32, leader_leo: i64, replicas: Seq<u64>, leader_id: u64, now: u64)
        ensures
            self.watermark_fold(topic, partition, leader_leo, replicas, leader_id, now).1 <= leader_leo,
            forall|i: int| 0 <= i < replicas.len() && #[trigger] replicas[i] != leader_id
                && self.state_at(replicas[i], topic, partition, leader_leo, now) == SyncState::InSync
                ==> self.watermark_fold(topic, partition, leader_leo, replicas, leader_id, now).1
                    <= self.followers()[fkey(replicas[i], topic, partition)].0,
            !self.watermark_fold(topic, partition, leader_leo, replicas, leader_id, now).0 ==> forall|i: int|
                0 <= i < replicas.len() && #[trigger] replicas[i] != leader_id
                    ==> self.state_at(replicas[i], topic, partition, leader_leo, now) != SyncState::InSync,
        decreases replicas.len(),
    {
        if replicas.len() > 0 {
            let pre = replicas.drop_last();
            self.lemma_watermark_fold_bounds(topic, partition, leader_leo, pre, leader_id, now);
            assert forall|i: int| 0 <= i < replicas.len() - 1 implies #[trigger] replicas[i] == pre[i] by {}
        }
    }

    /// The high watermark consumers may read to at `now_ms`: bounded by the
    /// slowest in-sync follower, never above the leader's log end, ignoring
    /// followers out of sync, and the leader's log end when none is in sync.
    pub fn replicated_watermark_at(&self, topic: &str, partition: i32, leader_leo: i64, replicas: &[u64], leader_id: u64, now_ms: u64) -> (r: i64)
        requires
            self.watermark_computable_at(topic@, partition, leader_leo, replicas@, leader_id, now_ms),
        ensures
            r == self.watermark_at(topic@, partition, leader_leo, replicas@, leader_id, now_ms),
            r <= leader_leo,
            self.watermark_fold(topic@, partition, leader_leo, replicas@, leader_id, now_ms).0 ==> 0 <= r,
            !self.watermark_fold(topic@, partition, leader_leo, replicas@, leader_id, now_ms).0 ==> r == leader_leo,
            forall|i: int| 0 <= i < replicas@.len() && #[trigger] replicas@[i] != leader_id
                && self.state_at(replicas@[i], topic@, partition, leader_leo, now_ms) == SyncState::InSync
                ==> r <= self.followers()[fkey(replicas@[i], topic@, partition)].0 || r == 0,
    {
        let mut watermark = leader_leo;
        let mut any_in_sync_follower = false;
        let mut i: usize = 0;
        while i < replicas.len()
            invariant
                i <= replicas@.len(),
                self.watermark_computable_at(topic@, partition, leader_leo, replicas@, leader_id, now_ms),
                (any_in_sync_follower, watermark) == self.watermark_fold(topic@, partition, leader_leo, replicas@.take(i as int), leader_id, now_ms),
            decreases replicas.len() - i,
        {
            let node_id = replicas[i];
            assert(replicas@.take(i as int + 1).drop_last() =~= replicas@.take(i as int));
            assert(replicas@.take(i as int + 1).last() == node_id);
            if node_id != leader_id {
                if self.sync_state_at(node_id, topic, partition, leader_leo, now_ms) == SyncState::InSync {
                    match self.get_follower_lag_at(node_id, topic, partition, leader_leo, now_ms) {
                        Some(lag) => {
                            any_in_sync_follower = true;
                            let candidate = leader_leo - lag;
                            if candidate < watermark {
                                watermark = candidate;
                            }
                        },
                        None => {},
                    }
                }
            }
            i += 1;
        }
        assert(replicas@.take(replicas@.len() as int) =~= replicas@);
        proof {
            self.lemma_watermark_fold_bounds(topic@, partition, leader_leo, replicas@, leader_id, now_ms);
        }
        if !any_in_sync_follower {
            return leader_leo;
        }
        if watermark < 0 {
            0
        } else if watermark > leader_leo {
            leader_leo
        } else {
            watermark
        }
    }
}

impl IsrTracker {
    /// The watermark can be computed whatever the time: every follower's lag
    /// fits in `i64`, and the leader's log end is non-negative unless no
    /// follower has reported.
    pub open spec fn watermark_computable(&self, topic: Seq<char>, partition: i32, leader_leo: i64, replicas: Seq<u64>, leader_id: u64) -> bool {
        &&& forall|i: int| 0 <= i < replicas.len() && #[trigger] replicas[i] != leader_id
            && self.followers().contains_key(fkey(replicas[i], topic, partition))
            ==> i64::MIN <= leader_leo - self.followers()[fkey(replicas[i], topic, partition)].0 <= i64::MAX
        &&& (leader_leo >= 0 || forall|i: int| 0 <= i < replicas.len() && #[trigger] replicas[i] != leader_id
            ==> !self.followers().contains_key(fkey(replicas[i], topic, partition)))
    }

    proof fn lemma_watermark_computable(&self, topic: Seq<char>, partition: i32, leader_leo: i64, replicas: Seq<u64>, leader_id: u64, now: u64)
        requires
            self.watermark_computable(topic, partition, leader_leo, replicas, leader_id),
        ensures
            self.watermark_computable_at(topic, partition, leader_leo, replicas, leader_id, now),
    {
        self.lemma_watermark_fold_bounds(topic, partition, leader_leo, replicas, leader_id, now);
        if self.watermark_fold(topic, partition, leader_leo, replicas, leader_id, now).0 && leader_leo < 0 {
            self.lemma_fold_witness(topic, partition, leader_leo, replicas, leader_id, now);
        }
    }

    proof fn lemma_fold_witness(&self, topic: Seq<char>, partition: i32, leader_leo: i64, replicas: Seq<u64>, leader_id: u64, now: u64)
        requires
            self.watermark_fold(topic, partition, leader_leo, replicas, leader_id, now).0,
        ensures
            exists|i: int| 0 <= i < replicas.len() && #[trigger] replicas[i] != leader_id
                && self.followers().contains_key(fkey(replicas[i], topic, partition)),
        decreases replicas.len(),
    {
        let pre = replicas.drop_last();
        let id = replicas.last();
        if id != leader_id && self.state_at(id, topic, partition, leader_leo, now) == SyncState::InSync {
            assert(replicas[replicas.len() - 1] == id);
        } else {
            self.lemma_fold_witness(topic, partition, leader_leo, pre, leader_id, now);
            let i = choose|i: int| 0 <= i < pre.len() && #[trigger] pre[i] != leader_id
                && self.followers().contains_key(fkey(pre[i], topic, partition));
            assert(replicas[i] == pre[i]);
        }
    }

    /// The high watermark consumers may read to now (see
    /// `replicated_watermark_at`).
    pub fn replicated_watermark(&self, topic: &str, partition: i32, leader_leo: i64, replicas: &[u64], leader_id: u64) -> (r: i64)
        requires
            self.watermark_computable(topic@, partition, leader_leo, replicas@, leader_id),
        ensures
            exists|t: u64| r == #[trigger] self.watermark_at(topic@, partition, leader_leo, replicas@, leader_id, t),
            r <= leader_leo,
    {
        let now = now_millis();
        proof {
            self.lemma_watermark_computable(topic@, partition, leader_leo, replicas@, leader_id, now);
        }
        self.replicated_watermark_at(topic, partition, leader_leo, replicas, leader_id, now)
    }
}

impl Default for IsrTracker {
    /// A tracker allowing 10,000 entries and 10,000 ms of lag.
    fn default() -> (t: Self)
        ensures
            t.followers() == no_followers(),
            t.seen() == nothing_seen(),
            t.lag_entries_bound() == 10_000,
            t.lag_ms_bound() == 10_000,
            t.liveness_ms() == 30_000,
    {
        IsrTracker::new(10_000, 10_000)
    }
}

} // verus!


