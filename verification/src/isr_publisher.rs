//! The in-sync replica set a partition leader publishes into metadata.
use vstd::prelude::*;
use crate::clock::now_millis;
use crate::isr_tracker::{IsrTracker, SyncState, fkey};
use crate::text::{chars_of, str_eq};
use crate::consumer_group::group::{key_index, key_insert, key_lookup, keys_unique, lemma_key_index, lemma_key_insert_unique};

verus! {

/// No replica other than the leader has reported on the partition.
pub open spec fn unknown_for_all(t: &IsrTracker, topic: Seq<char>, partition: i32, replicas: Seq<u64>, leader_id: u64) -> bool {
    forall|i: int|
        0 <= i < replicas.len() && replicas[i] != leader_id ==> !t.followers().contains_key(
            fkey(#[trigger] replicas[i], topic, partition),
        )
}

/// Whether replica `id` belongs in the published set at `now`: it is the
/// leader, or in sync.
pub open spec fn isr_member(t: &IsrTracker, topic: Seq<char>, partition: i32, leader_offset: i64, leader_id: u64, now: u64) -> spec_fn(u64) -> bool {
    |id: u64| id == leader_id || t.state_at(id, topic, partition, leader_offset, now) == SyncState::InSync
}

/// The published set at `now`: the replicas that are the leader or in
/// sync, in replica order; `None` when nothing is known.
pub open spec fn published_isr(t: &IsrTracker, topic: Seq<char>, partition: i32, leader_offset: i64, replicas: Seq<u64>, leader_id: u64, now: u64) -> Option<Seq<u64>> {
    if unknown_for_all(t, topic, partition, replicas, leader_id) {
        None
    } else {
        Some(replicas.filter(isr_member(t, topic, partition, leader_offset, leader_id, now)))
    }
}

fn contains_u64(v: &Vec<u64>, x: u64) -> (r: bool)
    ensures
        r == v@.contains(x),
{
    let mut i: usize = 0;
    while i < v.len()
        invariant
            i <= v@.len(),
            forall|j: int| 0 <= j < i ==> v@[j] != x,
        decreases v.len() - i,
    {
        if v[i] == x {
            assert(v@[i as int] == x);
            return true;
        }
        i += 1;
    }
    false
}

/// The in-sync replica set at `now_ms` as the leader sees it: `None` when
/// no follower has reported (unknown, not empty); otherwise the replicas
/// that are in sync, and the leader itself, in the order of `replicas`.
pub fn in_sync_replicas_at(
    tracker: &IsrTracker,
    topic: &str,
    partition: i32,
    leader_offset: i64,
    replicas: &[u64],
    leader_id: u64,
    now_ms: u64,
) -> (r: Option<Vec<u64>>)
    requires
        tracker.all_lags_computable_at(topic@, partition, leader_offset, replicas@, now_ms),
    ensures
        match r {
            None => published_isr(tracker, topic@, partition, leader_offset, replicas@, leader_id, now_ms) is None,
            Some(v) => published_isr(tracker, topic@, partition, leader_offset, replicas@, leader_id, now_ms) == Some(v@),
        },
{
    if tracker.is_unknown_for_all(topic, partition, replicas, leader_id) {
        return None;
    }
    let mut isr = tracker.get_isr_at(topic, partition, leader_offset, replicas, now_ms);
    let ghost in_sync = |id: u64| tracker.state_at(id, topic@, partition, leader_offset, now_ms) == SyncState::InSync;
    let ghost orig = isr@;
    assert(orig == replicas@.filter(in_sync));
    if !contains_u64(&isr, leader_id) {
        isr.insert(0, leader_id);
    }
    assert(isr@.contains(leader_id)) by {
        if orig.contains(leader_id) {
            let j = choose|j: int| 0 <= j < orig.len() && orig[j] == leader_id;
            assert(isr@ == orig);
            assert(isr@[j] == leader_id);
        } else {
            assert(isr@[0] == leader_id);
        }
    }
    let ghost pred = isr_member(tracker, topic@, partition, leader_offset, leader_id, now_ms);
    proof {
        assert forall|id: u64| replicas@.contains(id) implies (isr@.contains(id) == pred(id)) by {
            let k = choose|k: int| 0 <= k < replicas@.len() && replicas@[k] == id;
            if in_sync(id) {
                replicas@.lemma_filter_contains(in_sync, k);
                let j = choose|j: int| 0 <= j < orig.len() && orig[j] == id;
                if isr@ == orig {
                    assert(isr@[j] == id);
                } else {
                    assert(isr@ == orig.insert(0, leader_id));
                    assert(isr@[j + 1] == id);
                }
            }
            if isr@.contains(id) && id != leader_id {
                let j = choose|j: int| 0 <= j < isr@.len() && isr@[j] == id;
                if isr@ == orig {
                    replicas@.lemma_filter_pred(in_sync, j);
                } else {
                    assert(isr@ == orig.insert(0, leader_id));
                    assert(j > 0);
                    assert(orig[j - 1] == id);
                    replicas@.lemma_filter_pred(in_sync, j - 1);
                }
            }
        }
    }
    let mut ordered: Vec<u64> = Vec::new();
    let mut i: usize = 0;
    while i < replicas.len()
        invariant
            i <= replicas@.len(),
            ordered@ == replicas@.take(i as int).filter(pred),
            forall|id: u64| replicas@.contains(id) ==> (isr@.contains(id) == pred(id)),
            !unknown_for_all(tracker, topic@, partition, replicas@, leader_id),
            pred == isr_member(tracker, topic@, partition, leader_offset, leader_id, now_ms),
        decreases replicas.len() - i,
    {
        let id = replicas[i];
        proof {
            reveal(Seq::filter);
            assert(replicas@.take(i as int + 1).drop_last() =~= replicas@.take(i as int));
            assert(replicas@.take(i as int + 1).last() == id);
            assert(replicas@.contains(id));
        }
        if contains_u64(&isr, id) {
            ordered.push(id);
        }
        i += 1;
    }
    assert(replicas@.take(replicas@.len() as int) =~= replicas@);
    assert(ordered@ == replicas@.filter(pred));
    assert(published_isr(tracker, topic@, partition, leader_offset, replicas@, leader_id, now_ms) == Some(replicas@.filter(pred)));
    Some(ordered)
}

/// The in-sync replica set now (see `in_sync_replicas_at`).
pub fn in_sync_replicas(
    tracker: &IsrTracker,
    topic: &str,
    partition: i32,
    leader_offset: i64,
    replicas: &[u64],
    leader_id: u64,
) -> (r: Option<Vec<u64>>)
    requires
        tracker.all_lags_computable(topic@, partition, leader_offset, replicas@),
    ensures
        exists|t: u64| match r {
            None => #[trigger] published_isr(tracker, topic@, partition, leader_offset, replicas@, leader_id, t) is None,
            Some(v) => published_isr(tracker, topic@, partition, leader_offset, replicas@, leader_id, t) == Some(v@),
        },
{
    let now = now_millis();
    assert(tracker.all_lags_computable_at(topic@, partition, leader_offset, replicas@, now));
    in_sync_replicas_at(tracker, topic, partition, leader_offset, replicas, leader_id, now)
}

/// Whether a topic is internal (its name starts with `__`); internal topics
/// are not published through this path.
pub open spec fn internal_topic(name: Seq<char>) -> bool {
    name.len() >= 2 && name[0] == '_' && name[1] == '_'
}

/// Whether `name` is an internal topic.
pub fn is_internal_topic(name: &str) -> (r: bool)
    ensures
        r == internal_topic(name@),
{
    let cs = chars_of(name);
    cs.len() >= 2 && cs[0] == '_' && cs[1] == '_'
}

fn same_u64s(a: &[u64], b: &[u64]) -> (r: bool)
    ensures
        r == (a@ == b@),
{
    if a.len() != b.len() {
        return false;
    }
    let mut i: usize = 0;
    while i < a.len()
        invariant
            a@.len() == b@.len(),
            i <= a@.len(),
            forall|j: int| 0 <= j < i ==> a@[j] == b@[j],
        decreases a.len() - i,
    {
        if a[i] != b[i] {
            return false;
        }
        i += 1;
    }
    assert(a@ =~= b@);
    true
}

/// The set a node publishes for a partition: only the partition's leader
/// publishes; nothing when nothing is measured; nothing when the measured
/// set is both what it last published and what metadata already holds.
pub open spec fn to_publish(node_id: u64, leader_id: u64, measured: Option<Seq<u64>>, last: Option<Seq<u64>>, current: Seq<u64>) -> Option<Seq<u64>> {
    if leader_id != node_id {
        None
    } else {
        match measured {
            None => None,
            Some(m) => if last == Some(m) && current == m { None } else { Some(m) },
        }
    }
}

/// An optional replica list as plain values.
pub open spec fn ids_view(v: Option<Vec<u64>>) -> Option<Seq<u64>> {
    match v {
        Some(x) => Some(x@),
        None => None,
    }
}

/// A published set as plain values.
pub open spec fn published_view(e: ((String, i32), Vec<u64>)) -> ((Seq<char>, i32), Seq<u64>) {
    ((e.0.0@, e.0.1), e.1@)
}

/// The set each partition's leader last published here, by (topic,
/// partition).
pub struct PublishedIsrSets {
    sets: Vec<((String, i32), Vec<u64>)>,
}

impl PublishedIsrSets {
    /// The published sets as plain values, in the order partitions first
    /// got one.
    pub closed spec fn entries(&self) -> Seq<((Seq<char>, i32), Seq<u64>)> {
        self.sets@.map_values(|e: ((String, i32), Vec<u64>)| published_view(e))
    }

    /// Each partition once.
    pub closed spec fn wf(&self) -> bool {
        keys_unique(self.entries())
    }

    /// Nothing published yet.
    pub fn new() -> (p: Self)
        ensures
            p.wf(),
            p.entries().len() == 0,
    {
        let p = PublishedIsrSets { sets: Vec::new() };
        assert(p.entries() =~= Seq::empty());
        p
    }

    fn position(&self, topic: &str, partition: i32) -> (r: Option<usize>)
        requires
            self.wf(),
        ensures
            match r {
                Some(i) => key_index(self.entries(), (topic@, partition)) == i && i < self.entries().len(),
                None => key_index(self.entries(), (topic@, partition)) < 0,
            },
    {
        let ghost es = self.entries();
        let ghost k = (topic@, partition);
        proof {
            lemma_key_index(es, k);
        }
        let mut i: usize = 0;
        while i < self.sets.len()
            invariant
                i <= self.sets@.len(),
                es == self.entries(),
                es.len() == self.sets@.len(),
                k == (topic@, partition),
                forall|j: int| 0 <= j < i ==> es[j].0 != k,
                -1 <= key_index(es, k) < es.len(),
                key_index(es, k) >= 0 ==> es[key_index(es, k)].0 == k,
                key_index(es, k) >= 0 ==> forall|j: int| 0 <= j < key_index(es, k) ==> es[j].0 != k,
                key_index(es, k) < 0 ==> forall|j: int| 0 <= j < es.len() ==> es[j].0 != k,
            decreases self.sets.len() - i,
        {
            assert(es[i as int] == published_view(self.sets@[i as int]));
            if self.sets[i].0.1 == partition && str_eq(self.sets[i].0.0.as_str(), topic) {
                assert(key_index(es, k) == i as int);
                return Some(i);
            }
            i += 1;
        }
        None
    }

    /// The set last published for a partition, if any.
    pub fn last(&self, topic: &str, partition: i32) -> (r: Option<&Vec<u64>>)
        requires
            self.wf(),
        ensures
            match r {
                Some(v) => key_lookup(self.entries(), (topic@, partition)) == Some(v@),
                None => key_lookup(self.entries(), (topic@, partition)) is None,
            },
    {
        match self.position(topic, partition) {
            Some(i) => {
                assert(self.entries()[i as int] == published_view(self.sets@[i as int]));
                Some(&self.sets[i].1)
            },
            None => None,
        }
    }

    /// The set to publish for a partition (see `to_publish`), given the set
    /// measured now and the one metadata holds.
    pub fn plan(&self, node_id: u64, topic: &str, partition: i32, leader_id: u64, measured: Option<Vec<u64>>, current: &[u64]) -> (r: Option<Vec<u64>>)
        requires
            self.wf(),
        ensures
            ids_view(r) == to_publish(node_id, leader_id, ids_view(measured), key_lookup(self.entries(), (topic@, partition)), current@),
    {
        if leader_id != node_id {
            return None;
        }
        match measured {
            None => None,
            Some(m) => {
                let unchanged = match self.last(topic, partition) {
                    Some(prev) => same_u64s(prev.as_slice(), m.as_slice()) && same_u64s(current, m.as_slice()),
                    None => false,
                };
                if unchanged { None } else { Some(m) }
            },
        }
    }

    /// Notes that `isr` was published for a partition.
    pub fn record(&mut self, topic: &str, partition: i32, isr: Vec<u64>)
        requires
            old(self).wf(),
        ensures
            final(self).wf(),
            final(self).entries() == key_insert(old(self).entries(), (topic@, partition), isr@),
    {
        let ghost es = self.entries();
        let ghost k = (topic@, partition);
        let ghost v = isr@;
        proof {
            lemma_key_index(es, k);
            lemma_key_insert_unique(es, k, v);
        }
        match self.position(topic, partition) {
            Some(i) => {
                self.sets.set(i, ((topic.to_string(), partition), isr));
                assert(self.entries() =~= es.update(i as int, (k, v)));
            },
            None => {
                self.sets.push(((topic.to_string(), partition), isr));
                assert(self.entries() =~= es.push((k, v)));
            },
        }
    }
}

/// Once a leader has published a measured set and metadata holds it, the
/// same measurement is not published again.
pub proof fn lemma_published_set_is_not_republished(
    entries: Seq<((Seq<char>, i32), Seq<u64>)>,
    topic: Seq<char>,
    partition: i32,
    node_id: u64,
    measured: Seq<u64>,
)
    requires
        keys_unique(entries),
    ensures
        to_publish(node_id, node_id, Some(measured), key_lookup(key_insert(entries, (topic, partition), measured), (topic, partition)), measured) is None,
{
    let k = (topic, partition);
    lemma_key_index(entries, k);
    let after = key_insert(entries, k, measured);
    lemma_key_index(after, k);
    if key_index(entries, k) < 0 {
        assert(after[entries.len() as int].0 == k);
        assert(key_index(after, k) == entries.len());
    } else {
        let i = key_index(entries, k);
        assert(after[i].0 == k);
        assert forall|j: int| 0 <= j < i implies after[j].0 != k by {
            assert(after[j] == entries[j]);
        }
        assert(key_index(after, k) == i);
    }
}

} // verus!
