//! Quorum tracking for `acks=all` produce requests. Each partition keeps,
//! per replica, the highest offset it has durably written, and the waits
//! registered by producers. A replica at offset N holds everything below N,
//! so a report at 500 satisfies a wait at 437. A wait is identified by a
//! ticket; whoever registered it is told, by ticket, when it is released or
//! expires.
use vstd::prelude::*;
use dashmap::DashMap;
use crate::clock::elapsed;
use crate::consumer_group::group::{key_index, key_insert, key_lookup, keys_unique, lemma_key_index, lemma_key_insert_unique};

verus! {

/// How long a wait may be held before a cleanup fails it (ms); Kafka's
/// default `request.timeout.ms`.
pub const DEFAULT_ACK_TIMEOUT_MS: u64 = 30000;

/// How often the cleanup should run (ms).
pub const CLEANUP_INTERVAL_MS: u64 = 5000;

/// One registered wait: the offset a replica must reach, the quorum that
/// must reach it, and when it was registered (ms).
#[derive(Clone, Copy, Debug)]
pub struct WaitEntry {
    pub offset: i64,
    pub ticket: u64,
    pub quorum_size: usize,
    pub registered_at_ms: u64,
}

/// A partition's replica positions (node, highest durable offset) and its
/// waits, in ascending offset order, registration order within an offset.
#[derive(Debug)]
pub struct PartitionState {
    pub node_offsets: Vec<(u64, i64)>,
    pub waiters: Vec<WaitEntry>,
}

pub open spec fn wait_view(e: WaitEntry) -> (i64, u64, usize, u64) {
    (e.offset, e.ticket, e.quorum_size, e.registered_at_ms)
}

/// A partition's state as plain values.
pub open spec fn partition_view(p: PartitionState) -> (Seq<(u64, i64)>, Seq<(i64, u64, usize, u64)>) {
    (p.node_offsets@, p.waiters@.map_values(|e: WaitEntry| wait_view(e)))
}

/// Per-partition state, keyed by (topic, partition).
pub type AckMap = DashMap<(String, i32), PartitionState>;

/// What the per-partition map holds, as plain values.
pub uninterp spec fn ack_contents(m: DashMap<(String, i32), PartitionState>) -> Map<(Seq<char>, i32), (Seq<(u64, i64)>, Seq<(i64, u64, usize, u64)>)>;

/// No partition state.
pub open spec fn no_partitions() -> Map<(Seq<char>, i32), (Seq<(u64, i64)>, Seq<(i64, u64, usize, u64)>)> {
    Map::empty()
}

/// An empty partition map.
///
/// Calls `DashMap::new`; claims it holds nothing.
#[verifier::external_body]
fn acks_new() -> (fresh: AckMap)
    ensures
        ack_contents(fresh) == no_partitions(),
{
    DashMap::new()
}

/// Takes a partition's state out of the map.
///
/// Calls `DashMap::remove`; claims it yields the state exactly when the key
/// was present, and the key is then absent.
#[verifier::external_body]
fn acks_take(m: &mut AckMap, topic: &str, partition: i32) -> (r: Option<PartitionState>)
    ensures
        ack_contents(*final(m)) == ack_contents(*old(m)).remove((topic@, partition)),
        match r {
            Some(p) => ack_contents(*old(m)).contains_key((topic@, partition))
                && ack_contents(*old(m))[(topic@, partition)] == partition_view(p),
            None => !ack_contents(*old(m)).contains_key((topic@, partition)),
        },
{
    m.remove(&(topic.to_string(), partition)).map(|(_, v)| v)
}

/// Stores a partition's state.
///
/// Calls `DashMap::insert`; claims the key then maps to the state and
/// nothing else changed.
#[verifier::external_body]
fn acks_put(m: &mut AckMap, topic: &str, partition: i32, st: PartitionState)
    ensures
        ack_contents(*final(m)) == ack_contents(*old(m)).insert((topic@, partition), partition_view(st)),
{
    m.insert((topic.to_string(), partition), st);
}

/// A copy of a partition's state.
///
/// Calls `DashMap::get` and copies both vectors out; claims the copy is the
/// stored state, present exactly when the key is.
#[verifier::external_body]
fn acks_get(m: &AckMap, topic: &str, partition: i32) -> (r: Option<PartitionState>)
    ensures
        match r {
            Some(p) => ack_contents(*m).contains_key((topic@, partition))
                && ack_contents(*m)[(topic@, partition)] == partition_view(p),
            None => !ack_contents(*m).contains_key((topic@, partition)),
        },
{
    m.get(&(topic.to_string(), partition)).map(|e| PartitionState {
        node_offsets: e.value().node_offsets.clone(),
        waiters: e.value().waiters.clone(),
    })
}

/// Every partition key, in no particular order.
///
/// Calls `DashMap::iter` and copies each key; claims each key appears once
/// and every key appears.
#[verifier::external_body]
fn acks_keys(m: &AckMap) -> (r: Vec<(String, i32)>)
    ensures
        forall|i: int| 0 <= i < r@.len() ==> ack_contents(*m).contains_key((#[trigger] r@[i].0@, r@[i].1)),
        forall|k: (Seq<char>, i32)| #[trigger] ack_contents(*m).contains_key(k) ==> exists|i: int|
            0 <= i < r@.len() && (#[trigger] r@[i].0@, r@[i].1) == k,
        forall|i: int, j: int| 0 <= i < j < r@.len() ==> (#[trigger] r@[i].0@, r@[i].1) != (#[trigger] r@[j].0@, r@[j].1),
{
    m.iter().map(|e| e.key().clone()).collect()
}

// ----- per-partition rules -----

/// How many replicas have reached offset `w`.
pub open spec fn reached(offsets: Seq<(u64, i64)>, w: i64) -> nat {
    offsets.filter(|p: (u64, i64)| p.1 >= w).len()
}

/// The furthest replica position (`i64::MIN` when none).
pub open spec fn highest(offsets: Seq<(u64, i64)>) -> i64
    decreases offsets.len(),
{
    if offsets.len() == 0 {
        i64::MIN
    } else {
        let h = highest(offsets.drop_last());
        if offsets.last().1 > h { offsets.last().1 } else { h }
    }
}

/// The recorded position of `node`, `i64::MIN` if none.
pub open spec fn position_of(offsets: Seq<(u64, i64)>, node: u64) -> i64 {
    match key_lookup(offsets, node) {
        Some(o) => o,
        None => i64::MIN,
    }
}

/// Positions after `node` reports `offset`: never lower than before.
pub open spec fn offsets_after(offsets: Seq<(u64, i64)>, node: u64, offset: i64) -> Seq<(u64, i64)> {
    let slot = position_of(offsets, node);
    key_insert(offsets, node, if offset > slot { offset } else { slot })
}

/// Whether wait `e` is released by positions `offsets`: at or below the
/// furthest replica, with at least its quorum at its offset.
pub open spec fn released_by(offsets: Seq<(u64, i64)>, e: (i64, u64, usize, u64)) -> bool {
    e.0 <= highest(offsets) && reached(offsets, e.0) >= e.2
}

fn reached_count(offsets: &Vec<(u64, i64)>, w: i64) -> (n: usize)
    ensures
        n == reached(offsets@, w),
{
    let ghost pred = |p: (u64, i64)| p.1 >= w;
    let mut n: usize = 0;
    let mut i: usize = 0;
    while i < offsets.len()
        invariant
            i <= offsets@.len(),
            n == offsets@.take(i as int).filter(pred).len(),
            n <= i,
            pred == (|p: (u64, i64)| p.1 >= w),
        decreases offsets.len() - i,
    {
        proof {
            reveal(Seq::filter);
            assert(offsets@.take(i as int + 1).drop_last() =~= offsets@.take(i as int));
            assert(offsets@.take(i as int + 1).last() == offsets@[i as int]);
        }
        if offsets[i].1 >= w {
            n += 1;
        }
        i += 1;
    }
    assert(offsets@.take(offsets@.len() as int) =~= offsets@);
    n
}

fn highest_of(offsets: &Vec<(u64, i64)>) -> (h: i64)
    ensures
        h == highest(offsets@),
{
    let mut h: i64 = i64::MIN;
    let mut i: usize = 0;
    while i < offsets.len()
        invariant
            i <= offsets@.len(),
            h == highest(offsets@.take(i as int)),
        decreases offsets.len() - i,
    {
        assert(offsets@.take(i as int + 1).drop_last() =~= offsets@.take(i as int));
        if offsets[i].1 > h {
            h = offsets[i].1;
        }
        i += 1;
    }
    assert(offsets@.take(offsets@.len() as int) =~= offsets@);
    h
}

fn node_position(offsets: &Vec<(u64, i64)>, node: u64) -> (r: Option<usize>)
    ensures
        match r {
            Some(i) => key_index(offsets@, node) == i as int && i < offsets@.len(),
            None => key_index(offsets@, node) < 0,
        },
{
    proof {
        lemma_key_index(offsets@, node);
    }
    let mut i: usize = 0;
    while i < offsets.len()
        invariant
            i <= offsets@.len(),
            forall|j: int| 0 <= j < i ==> offsets@[j].0 != node,
            -1 <= key_index(offsets@, node) < offsets@.len(),
            key_index(offsets@, node) >= 0 ==> offsets@[key_index(offsets@, node)].0 == node,
            key_index(offsets@, node) >= 0 ==> forall|j: int| 0 <= j < key_index(offsets@, node) ==> offsets@[j].0 != node,
            key_index(offsets@, node) < 0 ==> forall|j: int| 0 <= j < offsets@.len() ==> offsets@[j].0 != node,
        decreases offsets.len() - i,
    {
        if offsets[i].0 == node {
            return Some(i);
        }
        i += 1;
    }
    None
}


/// Whether a report of `offset` by `node` moves its position forward.
pub open spec fn progressed(offsets: Seq<(u64, i64)>, node: u64, offset: i64) -> bool {
    offset > position_of(offsets, node)
}

/// The test for a wait still held under positions `offsets`.
pub open spec fn still_waiting(offsets: Seq<(u64, i64)>) -> spec_fn((i64, u64, usize, u64)) -> bool {
    |e: (i64, u64, usize, u64)| !released_by(offsets, e)
}

/// The test for a wait released under positions `offsets`.
pub open spec fn is_released(offsets: Seq<(u64, i64)>) -> spec_fn((i64, u64, usize, u64)) -> bool {
    |e: (i64, u64, usize, u64)| released_by(offsets, e)
}

/// The waits left after `node` reports `offset`.
pub open spec fn waits_after_ack(p: (Seq<(u64, i64)>, Seq<(i64, u64, usize, u64)>), node: u64, offset: i64) -> Seq<(i64, u64, usize, u64)> {
    if progressed(p.0, node, offset) {
        p.1.filter(still_waiting(offsets_after(p.0, node, offset)))
    } else {
        p.1
    }
}

/// The tickets released when `node` reports `offset`, in wait order.
pub open spec fn released_on_ack(p: (Seq<(u64, i64)>, Seq<(i64, u64, usize, u64)>), node: u64, offset: i64) -> Seq<u64> {
    if progressed(p.0, node, offset) {
        p.1.filter(is_released(offsets_after(p.0, node, offset))).map_values(|e: (i64, u64, usize, u64)| e.1)
    } else {
        Seq::empty()
    }
}

/// The test for a wait older than `timeout_ms` at time `now_ms`.
pub open spec fn is_expired(now_ms: u64, timeout_ms: u64) -> spec_fn((i64, u64, usize, u64)) -> bool {
    |e: (i64, u64, usize, u64)| elapsed(now_ms, e.3) > timeout_ms
}

/// The test for a wait not older than `timeout_ms` at time `now_ms`.
pub open spec fn is_live(now_ms: u64, timeout_ms: u64) -> spec_fn((i64, u64, usize, u64)) -> bool {
    |e: (i64, u64, usize, u64)| elapsed(now_ms, e.3) <= timeout_ms
}

/// Every partition with its expired waits dropped.
pub open spec fn after_cleanup(
    c: Map<(Seq<char>, i32), (Seq<(u64, i64)>, Seq<(i64, u64, usize, u64)>)>,
    now_ms: u64,
    timeout_ms: u64,
) -> Map<(Seq<char>, i32), (Seq<(u64, i64)>, Seq<(i64, u64, usize, u64)>)> {
    Map::new(
        |k: (Seq<char>, i32)| c.contains_key(k),
        |k: (Seq<char>, i32)| (c[k].0, c[k].1.filter(is_live(now_ms, timeout_ms))),
    )
}

/// Adds a partition's wait count to a running total.
pub open spec fn waits_adder(c: Map<(Seq<char>, i32), (Seq<(u64, i64)>, Seq<(i64, u64, usize, u64)>)>) -> spec_fn(nat, (Seq<char>, i32)) -> nat {
    |acc: nat, k: (Seq<char>, i32)| acc + c[k].1.len()
}

/// Adds a partition's replica count to a running total.
pub open spec fn replicas_adder(c: Map<(Seq<char>, i32), (Seq<(u64, i64)>, Seq<(i64, u64, usize, u64)>)>) -> spec_fn(nat, (Seq<char>, i32)) -> nat {
    |acc: nat, k: (Seq<char>, i32)| acc + c[k].0.len()
}

/// Waits summed over the partitions in `keys`.
pub open spec fn waits_in(c: Map<(Seq<char>, i32), (Seq<(u64, i64)>, Seq<(i64, u64, usize, u64)>)>, keys: Set<(Seq<char>, i32)>) -> nat {
    keys.fold(0nat, waits_adder(c))
}

/// Replica positions summed over the partitions in `keys`.
pub open spec fn replicas_in(c: Map<(Seq<char>, i32), (Seq<(u64, i64)>, Seq<(i64, u64, usize, u64)>)>, keys: Set<(Seq<char>, i32)>) -> nat {
    keys.fold(0nat, replicas_adder(c))
}

/// All waits, over every partition.
pub open spec fn total_waits(c: Map<(Seq<char>, i32), (Seq<(u64, i64)>, Seq<(i64, u64, usize, u64)>)>) -> nat {
    waits_in(c, c.dom())
}

/// All tracked replica positions, over every partition.
pub open spec fn total_replicas(c: Map<(Seq<char>, i32), (Seq<(u64, i64)>, Seq<(i64, u64, usize, u64)>)>) -> nat {
    replicas_in(c, c.dom())
}

pub proof fn lemma_totals_step(
    c: Map<(Seq<char>, i32), (Seq<(u64, i64)>, Seq<(i64, u64, usize, u64)>)>,
    done: Set<(Seq<char>, i32)>,
    k: (Seq<char>, i32),
)
    requires
        done.finite(),
        !done.contains(k),
    ensures
        waits_in(c, done.insert(k)) == waits_in(c, done) + c[k].1.len(),
        replicas_in(c, done.insert(k)) == replicas_in(c, done) + c[k].0.len(),
{
    let f = waits_adder(c);
    let g = replicas_adder(c);
    assert(vstd::set::fold::is_fun_commutative(f));
    assert(vstd::set::fold::is_fun_commutative(g));
    vstd::set::fold::lemma_fold_insert(done, 0nat, f, k);
    vstd::set::fold::lemma_fold_insert(done, 0nat, g, k);
}

pub proof fn lemma_waits_in_bound(
    c: Map<(Seq<char>, i32), (Seq<(u64, i64)>, Seq<(i64, u64, usize, u64)>)>,
    keys: Set<(Seq<char>, i32)>,
)
    requires
        c.dom().finite(),
        keys.subset_of(c.dom()),
    ensures
        waits_in(c, keys) <= total_waits(c),
    decreases c.dom().len() - keys.len(),
{
    vstd::set_lib::lemma_len_subset(keys, c.dom());
    if !(keys =~= c.dom()) {
        assert(exists|x: (Seq<char>, i32)| c.dom().contains(x) && !keys.contains(x));
        let x = choose|x: (Seq<char>, i32)| c.dom().contains(x) && !keys.contains(x);
        lemma_totals_step(c, keys, x);
        vstd::set_lib::lemma_len_subset(keys.insert(x), c.dom());
        lemma_waits_in_bound(c, keys.insert(x));
    }
}

/// Whether `age` is the age, at `now_ms`, of the oldest wait anywhere
/// (0 when there is none).
pub open spec fn is_oldest_age(c: Map<(Seq<char>, i32), (Seq<(u64, i64)>, Seq<(i64, u64, usize, u64)>)>, now_ms: u64, age: u64) -> bool {
    &&& forall|k: (Seq<char>, i32), i: int| #[trigger] c.contains_key(k) && 0 <= i < c[k].1.len()
        ==> elapsed(now_ms, #[trigger] c[k].1[i].3) <= age
    &&& (age == 0 || exists|k: (Seq<char>, i32), i: int| #[trigger] c.contains_key(k) && 0 <= i < c[k].1.len()
        && elapsed(now_ms, #[trigger] c[k].1[i].3) == age)
}

/// Waits in ascending offset order.
pub open spec fn waits_sorted(s: Seq<(i64, u64, usize, u64)>) -> bool {
    forall|i: int, j: int| 0 <= i < j < s.len() ==> (#[trigger] s[i]).0 <= (#[trigger] s[j]).0
}

proof fn lemma_filter_sorted(s: Seq<(i64, u64, usize, u64)>, pred: spec_fn((i64, u64, usize, u64)) -> bool)
    requires
        waits_sorted(s),
    ensures
        waits_sorted(s.filter(pred)),
    decreases s.len(),
{
    reveal(Seq::filter);
    if s.len() > 0 {
        let front = s.drop_last();
        lemma_filter_sorted(front, pred);
        let f = front.filter(pred);
        if pred(s.last()) {
            assert forall|i: int| 0 <= i < f.len() implies (#[trigger] f[i]).0 <= s.last().0 by {
                assert(f.contains(f[i]));
                front.lemma_filter_contains_rev(pred, f[i]);
                let k = choose|k: int| 0 <= k < front.len() && front[k] == f[i];
                assert(s[k] == front[k]);
            }
            assert(s.filter(pred) == f.push(s.last()));
        }
    }
}

proof fn lemma_waits_with_sorted(s: Seq<(i64, u64, usize, u64)>, e: (i64, u64, usize, u64))
    requires
        waits_sorted(s),
    ensures
        waits_sorted(waits_with(s, e)),
{
    let low = |x: (i64, u64, usize, u64)| x.0 <= e.0;
    let high = |x: (i64, u64, usize, u64)| x.0 > e.0;
    lemma_filter_sorted(s, low);
    lemma_filter_sorted(s, high);
    let a = s.filter(low);
    let b = s.filter(high);
    assert forall|i: int| 0 <= i < a.len() implies (#[trigger] a[i]).0 <= e.0 by {
        s.lemma_filter_pred(low, i);
    }
    assert forall|i: int| 0 <= i < b.len() implies (#[trigger] b[i]).0 > e.0 by {
        s.lemma_filter_pred(high, i);
    }
    let w = waits_with(s, e);
    assert(w == a + seq![e] + b);
    assert forall|i: int, j: int| 0 <= i < j < w.len() implies (#[trigger] w[i]).0 <= (#[trigger] w[j]).0 by {
        if j < a.len() {
            assert(w[i] == a[i] && w[j] == a[j]);
        } else if j == a.len() {
            assert(w[i] == a[i]);
        } else if i < a.len() {
            assert(w[i] == a[i] && w[j] == b[j - a.len() - 1]);
        } else if i == a.len() {
            assert(w[j] == b[j - a.len() - 1]);
        } else {
            assert(w[i] == b[i - a.len() - 1] && w[j] == b[j - a.len() - 1]);
        }
    }
}

/// Finitely many partitions, each recording each replica once and holding
/// its waits in ascending offset order.
pub open spec fn parts_wf(c: Map<(Seq<char>, i32), (Seq<(u64, i64)>, Seq<(i64, u64, usize, u64)>)>) -> bool {
    &&& c.dom().finite()
    &&& forall|k: (Seq<char>, i32)| #[trigger] c.contains_key(k) ==> {
        &&& keys_unique(c[k].0)
        &&& waits_sorted(c[k].1)
    }
}

proof fn lemma_parts_wf_insert(
    c: Map<(Seq<char>, i32), (Seq<(u64, i64)>, Seq<(i64, u64, usize, u64)>)>,
    k: (Seq<char>, i32),
    v: (Seq<(u64, i64)>, Seq<(i64, u64, usize, u64)>),
)
    requires
        parts_wf(c),
        keys_unique(v.0),
        waits_sorted(v.1),
    ensures
        parts_wf(c.insert(k, v)),
{
}

proof fn lemma_parts_wf_cleanup(
    c: Map<(Seq<char>, i32), (Seq<(u64, i64)>, Seq<(i64, u64, usize, u64)>)>,
    now_ms: u64,
    timeout_ms: u64,
)
    requires
        parts_wf(c),
    ensures
        parts_wf(after_cleanup(c, now_ms, timeout_ms)),
{
    let d = after_cleanup(c, now_ms, timeout_ms);
    assert(d.dom() =~= c.dom());
    assert forall|k: (Seq<char>, i32)| #[trigger] d.contains_key(k) implies keys_unique(d[k].0) && waits_sorted(d[k].1) by {
        lemma_filter_sorted(c[k].1, is_live(now_ms, timeout_ms));
    }
}

/// Fewer replicas than wait `e`'s quorum are at its offset.
pub open spec fn short_of_quorum(offsets: Seq<(u64, i64)>, e: (i64, u64, usize, u64)) -> bool {
    reached(offsets, e.0) < e.2
}

/// No wait still held has its quorum: at every partition, fewer replicas
/// than each held wait's quorum are at its offset.
pub open spec fn no_quorum_held(c: Map<(Seq<char>, i32), (Seq<(u64, i64)>, Seq<(i64, u64, usize, u64)>)>) -> bool {
    forall|k: (Seq<char>, i32), i: int| #[trigger] c.contains_key(k) && 0 <= i < c[k].1.len()
        ==> short_of_quorum(c[k].0, #[trigger] c[k].1[i])
}

/// Views of a list of waits.
pub open spec fn waits_view(s: Seq<WaitEntry>) -> Seq<(i64, u64, usize, u64)> {
    s.map_values(|e: WaitEntry| wait_view(e))
}

/// The waits after registering wait `e`: after every wait at or below its
/// offset, before every wait above it.
pub open spec fn waits_with(waits: Seq<(i64, u64, usize, u64)>, e: (i64, u64, usize, u64)) -> Seq<(i64, u64, usize, u64)> {
    waits.filter(|x: (i64, u64, usize, u64)| x.0 <= e.0) + seq![e] + waits.filter(|x: (i64, u64, usize, u64)| x.0 > e.0)
}

/// The state of a partition that has none yet.
pub open spec fn empty_partition() -> (Seq<(u64, i64)>, Seq<(i64, u64, usize, u64)>) {
    (Seq::empty(), Seq::empty())
}

/// A partition state with no replicas and no waits.
fn empty_state() -> (p: PartitionState)
    ensures
        partition_view(p) == empty_partition(),
{
    let p = PartitionState { node_offsets: Vec::new(), waiters: Vec::new() };
    assert(partition_view(p).1 =~= Seq::<(i64, u64, usize, u64)>::empty());
    p
}

/// Splits waits into those still live and those expired, each in order.
fn split_expired(waits: &Vec<WaitEntry>, now_ms: u64, timeout_ms: u64) -> (r: (Vec<WaitEntry>, Vec<WaitEntry>))
    ensures
        waits_view(r.0@) == waits_view(waits@).filter(is_live(now_ms, timeout_ms)),
        waits_view(r.1@) == waits_view(waits@).filter(is_expired(now_ms, timeout_ms)),
{
    let ghost src = waits_view(waits@);
    let ghost live = is_live(now_ms, timeout_ms);
    let ghost dead = is_expired(now_ms, timeout_ms);
    let mut kept: Vec<WaitEntry> = Vec::new();
    let mut gone: Vec<WaitEntry> = Vec::new();
    let mut i: usize = 0;
    while i < waits.len()
        invariant
            i <= waits@.len(),
            src == waits_view(waits@),
            src.len() == waits@.len(),
            live == is_live(now_ms, timeout_ms),
            dead == is_expired(now_ms, timeout_ms),
            waits_view(kept@) == src.take(i as int).filter(live),
            waits_view(gone@) == src.take(i as int).filter(dead),
        decreases waits.len() - i,
    {
        let e = waits[i];
        proof {
            reveal(Seq::filter);
            assert(src.take(i as int + 1).drop_last() =~= src.take(i as int));
            assert(src.take(i as int + 1).last() == wait_view(e));
        }
        let age: u64 = if now_ms >= e.registered_at_ms { now_ms - e.registered_at_ms } else { 0 };
        let ghost kb = kept@;
        let ghost gb = gone@;
        if age > timeout_ms {
            gone.push(e);
            assert(waits_view(gone@) =~= waits_view(gb).push(wait_view(e)));
        } else {
            kept.push(e);
            assert(waits_view(kept@) =~= waits_view(kb).push(wait_view(e)));
        }
        i += 1;
    }
    assert(src.take(src.len() as int) =~= src);
    (kept, gone)
}

/// The waits of one partition that expired in a cleanup.
#[derive(Debug)]
pub struct ExpiredWaits {
    pub topic: String,
    pub partition: i32,
    pub waits: Vec<WaitEntry>,
}

/// Counters for monitoring.
#[derive(Clone, Copy, Debug)]
pub struct IsrAckStats {
    /// Waits still held.
    pub pending_requests: usize,
    /// Replica positions tracked, over all partitions.
    pub tracked_replicas: usize,
    /// Same as `pending_requests`: a held wait has not reached its quorum.
    pub waiting_for_quorum: usize,
    /// Age of the oldest held wait (ms).
    pub oldest_request_age_ms: u64,
}

/// Tracks `acks=all` waits and replica positions, per partition.
pub struct IsrAckTracker {
    partitions: AckMap,
}

impl IsrAckTracker {
    /// Per-partition replica positions and waits.
    pub closed spec fn contents(&self) -> Map<(Seq<char>, i32), (Seq<(u64, i64)>, Seq<(i64, u64, usize, u64)>)> {
        ack_contents(self.partitions)
    }

    /// Finitely many partitions, each recording each replica once and
    /// holding its waits in ascending offset order.
    pub open spec fn wf(&self) -> bool {
        parts_wf(self.contents())
    }

    /// No wait still held has its quorum: for each, fewer distinct
    /// replicas than its quorum have reached its offset.
    pub open spec fn settled(&self) -> bool {
        no_quorum_held(self.contents())
    }

    /// The state of a partition, empty if it has none.
    pub open spec fn partition_of(&self, topic: Seq<char>, partition: i32) -> (Seq<(u64, i64)>, Seq<(i64, u64, usize, u64)>) {
        if self.contents().contains_key((topic, partition)) {
            self.contents()[(topic, partition)]
        } else {
            empty_partition()
        }
    }

    /// A tracker with no partitions.
    pub fn new() -> (t: Self)
        ensures
            t.contents() == no_partitions(),
            t.wf(),
            t.settled(),
    {
        IsrAckTracker { partitions: acks_new() }
    }

    /// Registers a wait of ticket `ticket` for `quorum_size` replicas to
    /// reach `offset`. Returns true when enough replicas are already there:
    /// the wait is then released at once and not stored.
    pub fn register_wait(&mut self, topic: String, partition: i32, offset: i64, quorum_size: usize, ticket: u64, now_ms: u64) -> (released_now: bool)
        requires
            old(self).wf(),
        ensures
            final(self).wf(),
            old(self).settled() ==> final(self).settled(),
            ({
                let p = old(self).partition_of(topic@, partition);
                &&& released_now == (reached(p.0, offset) >= quorum_size)
                &&& final(self).contents() == old(self).contents().insert(
                    (topic@, partition),
                    if released_now {
                        p
                    } else {
                        (p.0, waits_with(p.1, (offset, ticket, quorum_size, now_ms)))
                    },
                )
            }),
    {
        let st = match acks_take(&mut self.partitions, topic.as_str(), partition) {
            Some(p) => p,
            None => empty_state(),
        };
        proof {
            if old(self).contents().contains_key((topic@, partition)) {
                assert(keys_unique(old(self).contents()[(topic@, partition)].0));
            }
        }
        assert(partition_view(st) == old(self).partition_of(topic@, partition));
        assert(keys_unique(st.node_offsets@));
        let already_reached = reached_count(&st.node_offsets, offset);
        proof {
            if !old(self).contents().contains_key((topic@, partition)) {
                assert(waits_sorted(empty_partition().1));
            }
        }
        assert(waits_sorted(partition_view(st).1));
        if already_reached >= quorum_size {
            acks_put(&mut self.partitions, topic.as_str(), partition, st);
            assert(self.contents() =~= old(self).contents().insert((topic@, partition), old(self).partition_of(topic@, partition)));
            proof {
                lemma_parts_wf_insert(old(self).contents(), (topic@, partition), old(self).partition_of(topic@, partition));
                if old(self).settled() {
                    lemma_register_keeps_settled(old(self).contents(), (topic@, partition), (offset, ticket, quorum_size, now_ms));
                }
            }
            return true;
        }
        let ghost src = waits_view(st.waiters@);
        let ghost low = |x: (i64, u64, usize, u64)| x.0 <= offset;
        let ghost high = |x: (i64, u64, usize, u64)| x.0 > offset;
        let mut waiters: Vec<WaitEntry> = Vec::new();
        let mut i: usize = 0;
        while i < st.waiters.len()
            invariant
                i <= st.waiters@.len(),
                src == waits_view(st.waiters@),
                src.len() == st.waiters@.len(),
                waits_view(waiters@) == src.take(i as int).filter(low),
                low == (|x: (i64, u64, usize, u64)| x.0 <= offset),
                keys_unique(st.node_offsets@),
                st.node_offsets@ == old(self).partition_of(topic@, partition).0,
                src == old(self).partition_of(topic@, partition).1,
                self.contents() == old(self).contents().remove((topic@, partition)),
                old(self).wf(),
            decreases st.waiters.len() - i,
        {
            let e = st.waiters[i];
            proof {
                reveal(Seq::filter);
                assert(src.take(i as int + 1).drop_last() =~= src.take(i as int));
                assert(src.take(i as int + 1).last() == wait_view(e));
            }
            if e.offset <= offset {
                let ghost before = waiters@;
                waiters.push(e);
                assert(waits_view(waiters@) =~= waits_view(before).push(wait_view(e)));
            }
            i += 1;
        }
        assert(src.take(src.len() as int) =~= src);
        let ghost mid = waiters@;
        waiters.push(WaitEntry { offset, ticket, quorum_size, registered_at_ms: now_ms });
        assert(waits_view(waiters@) =~= waits_view(mid).push((offset, ticket, quorum_size, now_ms)));
        let ghost head = waits_view(waiters@);
        let mut j: usize = 0;
        while j < st.waiters.len()
            invariant
                j <= st.waiters@.len(),
                src == waits_view(st.waiters@),
                src.len() == st.waiters@.len(),
                waits_view(waiters@) == head + src.take(j as int).filter(high),
                high == (|x: (i64, u64, usize, u64)| x.0 > offset),
                keys_unique(st.node_offsets@),
                st.node_offsets@ == old(self).partition_of(topic@, partition).0,
                src == old(self).partition_of(topic@, partition).1,
                self.contents() == old(self).contents().remove((topic@, partition)),
                old(self).wf(),
            decreases st.waiters.len() - j,
        {
            let e = st.waiters[j];
            proof {
                reveal(Seq::filter);
                assert(src.take(j as int + 1).drop_last() =~= src.take(j as int));
                assert(src.take(j as int + 1).last() == wait_view(e));
            }
            if e.offset > offset {
                let ghost before = waiters@;
                waiters.push(e);
                assert(waits_view(waiters@) =~= waits_view(before).push(wait_view(e)));
            }
            j += 1;
        }
        assert(waits_view(waiters@) =~= waits_with(src, (offset, ticket, quorum_size, now_ms)));
        let new_state = PartitionState { node_offsets: st.node_offsets, waiters };
        let ghost nv = partition_view(new_state);
        acks_put(&mut self.partitions, topic.as_str(), partition, new_state);
        proof {
            lemma_waits_with_sorted(src, (offset, ticket, quorum_size, now_ms));
            lemma_parts_wf_insert(old(self).contents(), (topic@, partition), nv);
            if old(self).settled() {
                let c = old(self).contents();
                let pk = old(self).partition_of(topic@, partition);
                assert(state_in(c, (topic@, partition)) == pk);
                assert(reached(pk.0, offset) < quorum_size);
                lemma_register_keeps_settled(c, (topic@, partition), (offset, ticket, quorum_size, now_ms));
                assert(nv == (pk.0, waits_with(pk.1, (offset, ticket, quorum_size, now_ms))));
                assert(self.contents() == c.insert((topic@, partition), nv));
            }
        }
        false
    }

    /// Records that replica `node_id` has durably written everything below
    /// `offset`. A position never moves backwards: a report at or below the
    /// recorded one changes nothing. When it moves forward, every wait at or
    /// below the furthest replica with its quorum at its offset is released
    /// and removed; their tickets are returned in wait order.
    pub fn record_ack(&mut self, topic: &str, partition: i32, offset: i64, node_id: u64) -> (released: Vec<u64>)
        requires
            old(self).wf(),
        ensures
            final(self).wf(),
            old(self).settled() && (offset > i64::MIN || key_index(old(self).partition_of(topic@, partition).0, node_id) >= 0)
                ==> final(self).settled(),
            ({
                let p = old(self).partition_of(topic@, partition);
                &&& final(self).contents() == old(self).contents().insert(
                    (topic@, partition),
                    (offsets_after(p.0, node_id, offset), waits_after_ack(p, node_id, offset)),
                )
                &&& released@ == released_on_ack(p, node_id, offset)
            }),
    {
        proof {
            if old(self).settled() && (offset > i64::MIN || key_index(old(self).partition_of(topic@, partition).0, node_id) >= 0) {
                lemma_ack_keeps_settled(old(self).contents(), (topic@, partition), node_id, offset);
            }
        }
        let mut st = match acks_take(&mut self.partitions, topic, partition) {
            Some(p) => p,
            None => empty_state(),
        };
        proof {
            if old(self).contents().contains_key((topic@, partition)) {
                assert(keys_unique(old(self).contents()[(topic@, partition)].0));
            }
        }
        let ghost p = old(self).partition_of(topic@, partition);
        assert(partition_view(st) == p);
        proof {
            if !old(self).contents().contains_key((topic@, partition)) {
                assert(waits_sorted(empty_partition().1));
            }
        }
        assert(waits_sorted(p.1));
        let pos = node_position(&st.node_offsets, node_id);
        let slot = match pos {
            Some(i) => st.node_offsets[i].1,
            None => i64::MIN,
        };
        proof {
            lemma_key_index(p.0, node_id);
            lemma_key_insert_unique(p.0, node_id, if offset > slot { offset } else { slot });
        }
        assert(slot == position_of(p.0, node_id));
        if offset <= slot {
            if pos.is_none() {
                st.node_offsets.push((node_id, slot));
            }
            assert(st.node_offsets@ =~= offsets_after(p.0, node_id, offset));
            acks_put(&mut self.partitions, topic, partition, st);
            assert(self.contents() =~= old(self).contents().insert(
                (topic@, partition),
                (offsets_after(p.0, node_id, offset), waits_after_ack(p, node_id, offset)),
            ));
            assert(Seq::<u64>::empty() =~= released_on_ack(p, node_id, offset));
            proof {
                lemma_parts_wf_insert(old(self).contents(), (topic@, partition), (offsets_after(p.0, node_id, offset), waits_after_ack(p, node_id, offset)));
            }
            return Vec::new();
        }
        match pos {
            Some(i) => {
                st.node_offsets.set(i, (node_id, offset));
            },
            None => {
                st.node_offsets.push((node_id, offset));
            },
        }
        let ghost o = offsets_after(p.0, node_id, offset);
        assert(st.node_offsets@ =~= o);
        let h = highest_of(&st.node_offsets);
        let ghost src = waits_view(st.waiters@);
        let ghost keep = still_waiting(o);
        let ghost out = is_released(o);
        let mut kept: Vec<WaitEntry> = Vec::new();
        let mut released: Vec<u64> = Vec::new();
        let mut i: usize = 0;
        while i < st.waiters.len()
            invariant
                i <= st.waiters@.len(),
                src == waits_view(st.waiters@),
                src.len() == st.waiters@.len(),
                st.node_offsets@ == o,
                h == highest(o),
                keep == still_waiting(o),
                out == is_released(o),
                waits_view(kept@) == src.take(i as int).filter(keep),
                released@ == src.take(i as int).filter(out).map_values(|e: (i64, u64, usize, u64)| e.1),
            decreases st.waiters.len() - i,
        {
            let e = st.waiters[i];
            proof {
                reveal(Seq::filter);
                assert(src.take(i as int + 1).drop_last() =~= src.take(i as int));
                assert(src.take(i as int + 1).last() == wait_view(e));
            }
            let mut go = false;
            if e.offset <= h {
                let n = reached_count(&st.node_offsets, e.offset);
                go = n >= e.quorum_size;
            }
            assert(go == released_by(o, wait_view(e)));
            let ghost kb = kept@;
            let ghost rb = released@;
            if go {
                released.push(e.ticket);
                assert(released@ =~= rb.push(e.ticket));
                assert(src.take(i as int + 1).filter(out) == src.take(i as int).filter(out).push(wait_view(e)));
                assert(src.take(i as int + 1).filter(out).map_values(|e: (i64, u64, usize, u64)| e.1)
                    =~= src.take(i as int).filter(out).map_values(|e: (i64, u64, usize, u64)| e.1).push(e.ticket));
            } else {
                kept.push(e);
                assert(waits_view(kept@) =~= waits_view(kb).push(wait_view(e)));
            }
            i += 1;
        }
        assert(src.take(src.len() as int) =~= src);
        let new_state = PartitionState { node_offsets: st.node_offsets, waiters: kept };
        acks_put(&mut self.partitions, topic, partition, new_state);
        assert(self.contents() =~= old(self).contents().insert(
            (topic@, partition),
            (offsets_after(p.0, node_id, offset), waits_after_ack(p, node_id, offset)),
        ));
        proof {
            lemma_filter_sorted(p.1, keep);
            lemma_parts_wf_insert(old(self).contents(), (topic@, partition), (offsets_after(p.0, node_id, offset), waits_after_ack(p, node_id, offset)));
        }
        released
    }

    /// Drops every wait registered more than `timeout_ms` before `now_ms`
    /// and returns them, one group per partition, each group in wait order.
    /// The order of the groups is the map's walk order.
    pub fn cleanup_expired(&mut self, timeout_ms: u64, now_ms: u64) -> (expired: Vec<ExpiredWaits>)
        requires
            old(self).wf(),
        ensures
            final(self).wf(),
            old(self).settled() ==> final(self).settled(),
            final(self).contents() == after_cleanup(old(self).contents(), now_ms, timeout_ms),
            forall|i: int| 0 <= i < expired@.len() ==> {
                let k = (#[trigger] expired@[i].topic@, expired@[i].partition);
                &&& old(self).contents().contains_key(k)
                &&& waits_view(expired@[i].waits@) == old(self).contents()[k].1.filter(is_expired(now_ms, timeout_ms))
            },
            forall|k: (Seq<char>, i32)| #[trigger] old(self).contents().contains_key(k) ==> exists|i: int|
                0 <= i < expired@.len() && (#[trigger] expired@[i].topic@, expired@[i].partition) == k,
            forall|i: int, j: int| 0 <= i < j < expired@.len() ==>
                (#[trigger] expired@[i].topic@, expired@[i].partition) != (#[trigger] expired@[j].topic@, expired@[j].partition),
    {
        proof {
            if old(self).settled() {
                lemma_cleanup_keeps_settled(old(self).contents(), now_ms, timeout_ms);
            }
        }
        let keys = acks_keys(&self.partitions);
        let ghost c0 = self.contents();
        let mut groups: Vec<ExpiredWaits> = Vec::new();
        let mut j: usize = 0;
        while j < keys.len()
            invariant
                j <= keys@.len(),
                c0 == old(self).contents(),
                old(self).wf(),
                forall|i: int| 0 <= i < keys@.len() ==> c0.contains_key((#[trigger] keys@[i].0@, keys@[i].1)),
                forall|a: int, b: int| 0 <= a < b < keys@.len() ==> (#[trigger] keys@[a].0@, keys@[a].1) != (#[trigger] keys@[b].0@, keys@[b].1),
                self.contents().dom() == c0.dom(),
                forall|t: int| 0 <= t < j ==> #[trigger] self.contents()[(keys@[t].0@, keys@[t].1)]
                    == after_cleanup(c0, now_ms, timeout_ms)[(keys@[t].0@, keys@[t].1)],
                forall|k: (Seq<char>, i32)| #[trigger] self.contents().contains_key(k) ==>
                    self.contents()[k] == c0[k] || self.contents()[k] == after_cleanup(c0, now_ms, timeout_ms)[k],
                forall|t: int| j <= t < keys@.len() ==> #[trigger] self.contents()[(keys@[t].0@, keys@[t].1)] == c0[(keys@[t].0@, keys@[t].1)],
                groups@.len() == j,
                forall|t: int| 0 <= t < j ==> (#[trigger] groups@[t].topic@, groups@[t].partition) == (keys@[t].0@, keys@[t].1),
                forall|t: int| 0 <= t < j ==> waits_view(#[trigger] groups@[t].waits@)
                    == c0[(keys@[t].0@, keys@[t].1)].1.filter(is_expired(now_ms, timeout_ms)),
            decreases keys.len() - j,
        {
            let ghost k = (keys@[j as int].0@, keys@[j as int].1);
            let topic = &keys[j].0;
            let partition = keys[j].1;
            assert(topic@ == k.0);
            let taken = acks_take(&mut self.partitions, topic.as_str(), partition);
            match taken {
                Some(st) => {
                    let (kept, gone) = split_expired(&st.waiters, now_ms, timeout_ms);
                    let ghost before = self.contents();
                    acks_put(&mut self.partitions, topic.as_str(), partition, PartitionState { node_offsets: st.node_offsets, waiters: kept });
                    assert(self.contents() == before.insert(k, after_cleanup(c0, now_ms, timeout_ms)[k]));
                    assert forall|t: int| 0 <= t < j implies #[trigger] self.contents()[(keys@[t].0@, keys@[t].1)]
                        == after_cleanup(c0, now_ms, timeout_ms)[(keys@[t].0@, keys@[t].1)] by {
                        assert((keys@[t].0@, keys@[t].1) != k);
                    }
                    assert forall|t: int| j + 1 <= t < keys@.len() implies #[trigger] self.contents()[(keys@[t].0@, keys@[t].1)]
                        == c0[(keys@[t].0@, keys@[t].1)] by {
                        assert((keys@[t].0@, keys@[t].1) != k);
                    }
                    assert(self.contents().dom() =~= c0.dom());
                    assert(partition_view(st).1 =~= waits_view(st.waiters@));
                    assert(c0[k].1 == waits_view(st.waiters@));
                    assert(waits_view(gone@) == c0[k].1.filter(is_expired(now_ms, timeout_ms)));
                    let ghost gb = groups@;
                    groups.push(ExpiredWaits { topic: topic.clone(), partition, waits: gone });
                    assert forall|t: int| 0 <= t < j + 1 implies waits_view(#[trigger] groups@[t].waits@)
                        == c0[(keys@[t].0@, keys@[t].1)].1.filter(is_expired(now_ms, timeout_ms)) by {
                        if t < j {
                            assert(groups@[t] == gb[t]);
                        }
                    }
                },
                None => {
                    assert(false);
                },
            }
            j += 1;
        }
        proof {
            assert forall|k: (Seq<char>, i32)| #[trigger] c0.contains_key(k) implies self.contents()[k]
                == after_cleanup(c0, now_ms, timeout_ms)[k] by {
                let t = choose|t: int| 0 <= t < keys@.len() && (#[trigger] keys@[t].0@, keys@[t].1) == k;
                assert(self.contents()[(keys@[t].0@, keys@[t].1)] == after_cleanup(c0, now_ms, timeout_ms)[(keys@[t].0@, keys@[t].1)]);
            }
            assert(self.contents() =~= after_cleanup(c0, now_ms, timeout_ms));
            lemma_parts_wf_cleanup(c0, now_ms, timeout_ms);
            assert forall|k: (Seq<char>, i32)| #[trigger] c0.contains_key(k) implies exists|i: int|
                0 <= i < groups@.len() && (#[trigger] groups@[i].topic@, groups@[i].partition) == k by {
                let t = choose|t: int| 0 <= t < keys@.len() && (#[trigger] keys@[t].0@, keys@[t].1) == k;
                assert((groups@[t].topic@, groups@[t].partition) == k);
            }
        }
        groups
    }

    /// The number of waits held, over every partition.
    pub fn pending_count(&self) -> (n: usize)
        requires
            self.wf(),
            total_waits(self.contents()) <= usize::MAX,
        ensures
            n == total_waits(self.contents()),
    {
        let (n, _replicas) = self.totals();
        n
    }

    /// (waits held, replica positions tracked), over every partition.
    fn totals(&self) -> (r: (usize, usize))
        requires
            self.wf(),
            total_waits(self.contents()) <= usize::MAX,
        ensures
            r.0 == total_waits(self.contents()),
            r.1 == total_replicas(self.contents()) || total_replicas(self.contents()) > usize::MAX,
    {
        let keys = acks_keys(&self.partitions);
        let ghost c = self.contents();
        let ghost mut done: Set<(Seq<char>, i32)> = Set::empty();
        let mut waits: usize = 0;
        let mut replicas: usize = 0;
        let mut overflow = false;
        proof {
            vstd::set::fold::lemma_fold_empty(0nat, waits_adder(c));
            vstd::set::fold::lemma_fold_empty(0nat, replicas_adder(c));
        }
        let mut j: usize = 0;
        while j < keys.len()
            invariant
                j <= keys@.len(),
                c == self.contents(),
                self.wf(),
                total_waits(c) <= usize::MAX,
                forall|i: int| 0 <= i < keys@.len() ==> c.contains_key((#[trigger] keys@[i].0@, keys@[i].1)),
                forall|k: (Seq<char>, i32)| #[trigger] c.contains_key(k) ==> exists|i: int|
                    0 <= i < keys@.len() && (#[trigger] keys@[i].0@, keys@[i].1) == k,
                forall|a: int, b: int| 0 <= a < b < keys@.len() ==> (#[trigger] keys@[a].0@, keys@[a].1) != (#[trigger] keys@[b].0@, keys@[b].1),
                done.finite(),
                forall|t: int| 0 <= t < j ==> done.contains((#[trigger] keys@[t].0@, keys@[t].1)),
                forall|t: int| j <= t < keys@.len() ==> !done.contains((#[trigger] keys@[t].0@, keys@[t].1)),
                done.subset_of(c.dom()),
                waits == waits_in(c, done),
                !overflow ==> replicas == replicas_in(c, done),
                overflow ==> replicas_in(c, done) > usize::MAX,
            decreases keys.len() - j,
        {
            let ghost k = (keys@[j as int].0@, keys@[j as int].1);
            proof {
                lemma_totals_step(c, done, k);
                lemma_waits_in_bound(c, done.insert(k));
            }
            match acks_get(&self.partitions, keys[j].0.as_str(), keys[j].1) {
                Some(st) => {
                    waits = waits + st.waiters.len();
                    if !overflow {
                        match replicas.checked_add(st.node_offsets.len()) {
                            Some(v) => replicas = v,
                            None => overflow = true,
                        }
                    }
                },
                None => {
                    assert(false);
                },
            }
            proof {
                done = done.insert(k);
            }
            j += 1;
        }
        proof {
            assert forall|k: (Seq<char>, i32)| #[trigger] c.contains_key(k) implies done.contains(k) by {
                let t = choose|t: int| 0 <= t < keys@.len() && (#[trigger] keys@[t].0@, keys@[t].1) == k;
                assert(done.contains((keys@[t].0@, keys@[t].1)));
            }
            assert(done =~= c.dom());
        }
        (waits, replicas)
    }

    /// The highest offset replica `node_id` has confirmed for a partition;
    /// `None` when it has confirmed none.
    pub fn replica_offset(&self, topic: &str, partition: i32, node_id: u64) -> (r: Option<i64>)
        ensures
            r == (match key_lookup(self.partition_of(topic@, partition).0, node_id) {
                Some(o) => if o != i64::MIN { Some(o) } else { None },
                None => None,
            }),
    {
        match acks_get(&self.partitions, topic, partition) {
            Some(st) => {
                proof {
                    lemma_key_index(st.node_offsets@, node_id);
                }
                match node_position(&st.node_offsets, node_id) {
                    Some(i) => {
                        let o = st.node_offsets[i].1;
                        if o != i64::MIN { Some(o) } else { None }
                    },
                    None => None,
                }
            },
            None => {
                proof {
                    lemma_key_index(Seq::<(u64, i64)>::empty(), node_id);
                }
                None
            },
        }
    }

    /// The age at `now_ms` of the oldest wait held anywhere, 0 if none.
    fn oldest_age(&self, now_ms: u64) -> (age: u64)
        requires
            self.wf(),
        ensures
            is_oldest_age(self.contents(), now_ms, age),
    {
        let keys = acks_keys(&self.partitions);
        let ghost c = self.contents();
        let mut age: u64 = 0;
        let mut j: usize = 0;
        while j < keys.len()
            invariant
                j <= keys@.len(),
                c == self.contents(),
                forall|i: int| 0 <= i < keys@.len() ==> c.contains_key((#[trigger] keys@[i].0@, keys@[i].1)),
                forall|k: (Seq<char>, i32)| #[trigger] c.contains_key(k) ==> exists|i: int|
                    0 <= i < keys@.len() && (#[trigger] keys@[i].0@, keys@[i].1) == k,
                forall|t: int, i: int| 0 <= t < j && 0 <= i < c[(keys@[t].0@, keys@[t].1)].1.len()
                    ==> elapsed(now_ms, #[trigger] c[(#[trigger] keys@[t].0@, keys@[t].1)].1[i].3) <= age,
                age == 0 || exists|k: (Seq<char>, i32), i: int| #[trigger] c.contains_key(k) && 0 <= i < c[k].1.len()
                    && elapsed(now_ms, #[trigger] c[k].1[i].3) == age,
            decreases keys.len() - j,
        {
            let ghost k = (keys@[j as int].0@, keys@[j as int].1);
            match acks_get(&self.partitions, keys[j].0.as_str(), keys[j].1) {
                Some(st) => {
                    let ghost w = waits_view(st.waiters@);
                    assert(w == c[k].1);
                    let ghost start = age;
                    let mut i: usize = 0;
                    while i < st.waiters.len()
                        invariant
                            i <= st.waiters@.len(),
                            w == waits_view(st.waiters@),
                            w == c[k].1,
                            c.contains_key(k),
                            start <= age,
                            forall|x: int| 0 <= x < i ==> elapsed(now_ms, #[trigger] w[x].3) <= age,
                            age == start || exists|x: int| 0 <= x < i && elapsed(now_ms, #[trigger] w[x].3) == age,
                        decreases st.waiters.len() - i,
                    {
                        let r = st.waiters[i].registered_at_ms;
                        assert(w[i as int].3 == r);
                        let a: u64 = if now_ms >= r { now_ms - r } else { 0 };
                        if a > age {
                            age = a;
                        }
                        i += 1;
                    }
                    assert forall|t: int, x: int| 0 <= t < j + 1 && 0 <= x < c[(keys@[t].0@, keys@[t].1)].1.len()
                        implies elapsed(now_ms, #[trigger] c[(#[trigger] keys@[t].0@, keys@[t].1)].1[x].3) <= age by {
                        if t < j {
                        } else {
                            assert(c[(keys@[t].0@, keys@[t].1)].1[x] == w[x]);
                        }
                    }
                    proof {
                        if age != start {
                            let x = choose|x: int| 0 <= x < st.waiters@.len() && elapsed(now_ms, #[trigger] w[x].3) == age;
                            assert(c.contains_key(k) && 0 <= x < c[k].1.len() && elapsed(now_ms, c[k].1[x].3) == age);
                        }
                    }
                },
                None => {
                    assert(false);
                },
            }
            j += 1;
        }
        proof {
            assert forall|k: (Seq<char>, i32), i: int| #[trigger] c.contains_key(k) && 0 <= i < c[k].1.len()
                implies elapsed(now_ms, #[trigger] c[k].1[i].3) <= age by {
                let t = choose|t: int| 0 <= t < keys@.len() && (#[trigger] keys@[t].0@, keys@[t].1) == k;
                assert(elapsed(now_ms, c[(keys@[t].0@, keys@[t].1)].1[i].3) <= age);
            }
        }
        age
    }

    /// Counters for monitoring, with wait ages taken at `now_ms`.
    pub fn stats(&self, now_ms: u64) -> (st: IsrAckStats)
        requires
            self.wf(),
            total_waits(self.contents()) <= usize::MAX,
            total_replicas(self.contents()) <= usize::MAX,
        ensures
            st.pending_requests == total_waits(self.contents()),
            st.waiting_for_quorum == total_waits(self.contents()),
            st.tracked_replicas == total_replicas(self.contents()),
            is_oldest_age(self.contents(), now_ms, st.oldest_request_age_ms),
    {
        let (pending, replicas) = self.totals();
        let oldest = self.oldest_age(now_ms);
        IsrAckStats {
            pending_requests: pending,
            tracked_replicas: replicas,
            waiting_for_quorum: pending,
            oldest_request_age_ms: oldest,
        }
    }
}

impl Default for IsrAckTracker {
    /// A tracker with no partitions.
    fn default() -> (t: Self)
        ensures
            t.contents() == no_partitions(),
            t.wf(),
            t.settled(),
    {
        IsrAckTracker::new()
    }
}

/// Where `n`'s first occurrence sits after replacing position `i` (which
/// holds `k`) or appending a pair keyed `k`, for another key `n`.
proof fn lemma_key_index_other(offsets: Seq<(u64, i64)>, node: u64, v: i64, n: u64)
    requires
        n != node,
    ensures
        key_index(key_insert(offsets, node, v), n) == key_index(offsets, n),
{
    let after = key_insert(offsets, node, v);
    lemma_key_index(offsets, node);
    lemma_key_index(offsets, n);
    lemma_key_index(after, n);
    let a = key_index(after, n);
    let b = key_index(offsets, n);
    assert(after.len() >= offsets.len());
    assert(forall|j: int| 0 <= j < offsets.len() ==> ((#[trigger] after[j]).0 == n <==> offsets[j].0 == n));
    if a >= 0 && b >= 0 {
        if a < b {
            assert(after[a].0 == n);
        } else if b < a {
            assert(offsets[b].0 == n && after[b].0 == n);
        }
    } else if a >= 0 {
        assert(a < offsets.len() ==> offsets[a].0 == n);
    } else if b >= 0 {
        assert(after[b].0 == n);
    }
}

/// A replica's recorded position never goes backwards: after any report,
/// every replica is at least where it was, and the reporting replica is at
/// least at the offset it reported.
pub proof fn lemma_positions_never_decrease(offsets: Seq<(u64, i64)>, node: u64, offset: i64, n: u64)
    ensures
        position_of(offsets_after(offsets, node, offset), n) >= position_of(offsets, n),
        position_of(offsets_after(offsets, node, offset), node) >= offset,
{
    let slot = position_of(offsets, node);
    let v = if offset > slot { offset } else { slot };
    let after = offsets_after(offsets, node, offset);
    lemma_key_index(offsets, node);
    lemma_key_index(after, node);
    if n != node {
        lemma_key_index_other(offsets, node, v, n);
        lemma_key_index(offsets, n);
        if key_index(offsets, n) >= 0 {
            assert(after[key_index(offsets, n)] == offsets[key_index(offsets, n)]);
        }
    }
    assert(key_index(after, node) == if key_index(offsets, node) < 0 { offsets.len() as int } else { key_index(offsets, node) }) by {
        if key_index(offsets, node) < 0 {
            assert(after[offsets.len() as int].0 == node);
            assert(forall|j: int| 0 <= j < offsets.len() ==> after[j] == offsets[j]);
        } else {
            assert(after[key_index(offsets, node)].0 == node);
        }
    }
}

/// How many of `offsets` are at `w` or beyond, counted one entry at a time.
proof fn lemma_reached_push(offsets: Seq<(u64, i64)>, x: (u64, i64), w: i64)
    ensures
        reached(offsets.push(x), w) == reached(offsets, w) + if x.1 >= w { 1nat } else { 0nat },
{
    reveal(Seq::filter);
    assert(offsets.push(x).drop_last() =~= offsets);
}

proof fn lemma_reached_update(offsets: Seq<(u64, i64)>, i: int, x: (u64, i64), w: i64)
    requires
        0 <= i < offsets.len(),
    ensures
        reached(offsets.update(i, x), w) <= reached(offsets, w) + 1,
    decreases offsets.len(),
{
    let front = offsets.drop_last();
    let last = offsets.last();
    assert(offsets =~= front.push(last));
    lemma_reached_push(front, last, w);
    if i == offsets.len() - 1 {
        assert(offsets.update(i, x) =~= front.push(x));
        lemma_reached_push(front, x, w);
    } else {
        lemma_reached_update(front, i, x, w);
        assert(offsets.update(i, x) =~= front.update(i, x).push(last));
        lemma_reached_push(front.update(i, x), last, w);
    }
}

/// A replica counts once towards a quorum, however often it reports: two
/// reports by one replica leave as many replicas recorded as the first, and
/// any report raises the count of replicas at a given offset by at most one.
pub proof fn lemma_one_replica_counts_once(offsets: Seq<(u64, i64)>, node: u64, a: i64, b: i64, w: i64)
    requires
        keys_unique(offsets),
    ensures
        ({
            let once = offsets_after(offsets, node, a);
            let twice = offsets_after(once, node, b);
            &&& keys_unique(twice)
            &&& twice.len() == once.len()
            &&& once.len() <= offsets.len() + 1
            &&& reached(once, w) <= reached(offsets, w) + 1
            &&& reached(twice, w) <= twice.len()
        }),
{
    let once = offsets_after(offsets, node, a);
    let slot = position_of(offsets, node);
    lemma_key_index(offsets, node);
    lemma_key_insert_unique(offsets, node, if a > slot { a } else { slot });
    let slot1 = position_of(once, node);
    lemma_key_index(once, node);
    lemma_key_insert_unique(once, node, if b > slot1 { b } else { slot1 });
    assert(key_index(once, node) >= 0) by {
        if key_index(offsets, node) < 0 {
            assert(once[offsets.len() as int].0 == node);
        } else {
            assert(once[key_index(offsets, node)].0 == node);
        }
    }
    if key_index(offsets, node) < 0 {
        lemma_reached_push(offsets, (node, if a > slot { a } else { slot }), w);
    } else {
        lemma_reached_update(offsets, key_index(offsets, node), (node, if a > slot { a } else { slot }), w);
    }
    let twice = offsets_after(once, node, b);
    twice.filter(|p: (u64, i64)| p.1 >= w).lemma_filter_len(|p: (u64, i64)| p.1 >= w);
}

/// A report that moves a replica forward releases everything it can: no
/// wait left afterwards is released by the new positions.
pub proof fn lemma_ack_leaves_nothing_releasable(p: (Seq<(u64, i64)>, Seq<(i64, u64, usize, u64)>), node: u64, offset: i64)
    requires
        progressed(p.0, node, offset),
    ensures
        forall|i: int| 0 <= i < waits_after_ack(p, node, offset).len()
            ==> !released_by(offsets_after(p.0, node, offset), #[trigger] waits_after_ack(p, node, offset)[i]),
{
    let o = offsets_after(p.0, node, offset);
    assert forall|i: int| 0 <= i < waits_after_ack(p, node, offset).len()
        implies !released_by(o, #[trigger] waits_after_ack(p, node, offset)[i]) by {
        p.1.lemma_filter_pred(still_waiting(o), i);
    }
}

/// The state of partition `k` in `c`, empty if it has none.
pub open spec fn state_in(c: Map<(Seq<char>, i32), (Seq<(u64, i64)>, Seq<(i64, u64, usize, u64)>)>, k: (Seq<char>, i32)) -> (Seq<(u64, i64)>, Seq<(i64, u64, usize, u64)>) {
    if c.contains_key(k) { c[k] } else { empty_partition() }
}

/// Registering a wait keeps every held wait short of its quorum: the wait
/// is stored only when its quorum is not there.
pub proof fn lemma_register_keeps_settled(
    c: Map<(Seq<char>, i32), (Seq<(u64, i64)>, Seq<(i64, u64, usize, u64)>)>,
    k: (Seq<char>, i32),
    e: (i64, u64, usize, u64),
)
    requires
        no_quorum_held(c),
    ensures
        ({
            let p = state_in(c, k);
            no_quorum_held(c.insert(k, if reached(p.0, e.0) >= e.2 { p } else { (p.0, waits_with(p.1, e)) }))
        }),
{
    let p = state_in(c, k);
    let d = c.insert(k, if reached(p.0, e.0) >= e.2 { p } else { (p.0, waits_with(p.1, e)) });
    assert forall|k2: (Seq<char>, i32), i: int| #[trigger] d.contains_key(k2) && 0 <= i < d[k2].1.len()
        implies short_of_quorum(d[k2].0, #[trigger] d[k2].1[i]) by {
        if k2 == k && reached(p.0, e.0) < e.2 {
            let low = |x: (i64, u64, usize, u64)| x.0 <= e.0;
            let high = |x: (i64, u64, usize, u64)| x.0 > e.0;
            let a = p.1.filter(low);
            let b = p.1.filter(high);
            let w = waits_with(p.1, e);
            assert(w == a + seq![e] + b);
            let x = w[i];
            if x == e {
                assert(short_of_quorum(p.0, e));
            } else {
                assert(a.contains(x) || b.contains(x)) by {
                    if i < a.len() {
                        assert(w[i] == a[i]);
                    } else if i > a.len() {
                        assert(w[i] == b[i - a.len() - 1]);
                    }
                }
                if a.contains(x) {
                    p.1.lemma_filter_contains_rev(low, x);
                } else {
                    p.1.lemma_filter_contains_rev(high, x);
                }
                let j = choose|j: int| 0 <= j < p.1.len() && p.1[j] == x;
                if !c.contains_key(k) {
                    assert(p.1.len() == 0);
                }
                assert(c.contains_key(k) && short_of_quorum(c[k].0, c[k].1[j]));
            }
        } else if k2 == k {
            if !c.contains_key(k) {
                assert(p.1.len() == 0);
            }
            assert(c.contains_key(k) && short_of_quorum(c[k].0, c[k].1[i]));
        } else {
            assert(c.contains_key(k2) && short_of_quorum(c[k2].0, c[k2].1[i]));
        }
    }
}

/// A report keeps every held wait short of its quorum, unless it is the first
/// report of a replica and names `i64::MIN`: such a replica then counts
/// towards waits at `i64::MIN` without the waits being looked at.
pub proof fn lemma_ack_keeps_settled(
    c: Map<(Seq<char>, i32), (Seq<(u64, i64)>, Seq<(i64, u64, usize, u64)>)>,
    k: (Seq<char>, i32),
    node: u64,
    offset: i64,
)
    requires
        no_quorum_held(c),
        offset > i64::MIN || key_index(state_in(c, k).0, node) >= 0,
    ensures
        ({
            let p = state_in(c, k);
            no_quorum_held(c.insert(k, (offsets_after(p.0, node, offset), waits_after_ack(p, node, offset))))
        }),
{
    let p = state_in(c, k);
    let v = (offsets_after(p.0, node, offset), waits_after_ack(p, node, offset));
    let d = c.insert(k, v);
    lemma_key_index(p.0, node);
    if progressed(p.0, node, offset) {
        lemma_ack_leaves_nothing_releasable(p, node, offset);
        let o = offsets_after(p.0, node, offset);
        let kept = waits_after_ack(p, node, offset);
        assert forall|i: int| 0 <= i < kept.len() implies short_of_quorum(o, #[trigger] kept[i]) by {
            let w = kept[i];
            assert(kept.contains(w));
            p.1.lemma_filter_contains_rev(still_waiting(o), w);
            let j = choose|j: int| 0 <= j < p.1.len() && p.1[j] == w;
            if !c.contains_key(k) {
                assert(p.1.len() == 0);
            }
            assert(c.contains_key(k) && short_of_quorum(c[k].0, c[k].1[j]));
            assert(w.2 >= 1);
            if w.0 > highest(o) {
                lemma_none_above_highest(o, w.0);
            }
        }
    } else {
        let idx = key_index(p.0, node);
        assert(idx >= 0);
        assert(offsets_after(p.0, node, offset) =~= p.0);
        if !c.contains_key(k) {
            assert(p.0.len() == 0);
        }
    }
    assert forall|k2: (Seq<char>, i32), i: int| #[trigger] d.contains_key(k2) && 0 <= i < d[k2].1.len()
        implies short_of_quorum(d[k2].0, #[trigger] d[k2].1[i]) by {
        if k2 == k {
            if !progressed(p.0, node, offset) {
                assert(c.contains_key(k) && short_of_quorum(c[k].0, c[k].1[i]));
            } else {
                assert(short_of_quorum(v.0, v.1[i]));
            }
        } else {
            assert(c.contains_key(k2) && short_of_quorum(c[k2].0, c[k2].1[i]));
        }
    }
}

/// Dropping expired waits keeps every held wait short of its quorum.
pub proof fn lemma_cleanup_keeps_settled(
    c: Map<(Seq<char>, i32), (Seq<(u64, i64)>, Seq<(i64, u64, usize, u64)>)>,
    now_ms: u64,
    timeout_ms: u64,
)
    requires
        no_quorum_held(c),
    ensures
        no_quorum_held(after_cleanup(c, now_ms, timeout_ms)),
{
    let d = after_cleanup(c, now_ms, timeout_ms);
    assert forall|k: (Seq<char>, i32), i: int| #[trigger] d.contains_key(k) && 0 <= i < d[k].1.len()
        implies short_of_quorum(d[k].0, #[trigger] d[k].1[i]) by {
        let f = c[k].1.filter(is_live(now_ms, timeout_ms));
        assert(f.contains(f[i]));
        c[k].1.lemma_filter_contains_rev(is_live(now_ms, timeout_ms), f[i]);
        let j = choose|j: int| 0 <= j < c[k].1.len() && c[k].1[j] == f[i];
        assert(c.contains_key(k) && short_of_quorum(c[k].0, c[k].1[j]));
    }
}

/// No replica is at an offset beyond the furthest one.
pub proof fn lemma_none_above_highest(offsets: Seq<(u64, i64)>, w: i64)
    requires
        w > highest(offsets),
    ensures
        reached(offsets, w) == 0,
    decreases offsets.len(),
{
    if offsets.len() > 0 {
        let front = offsets.drop_last();
        lemma_none_above_highest(front, w);
        assert(offsets =~= front.push(offsets.last()));
        lemma_reached_push(front, offsets.last(), w);
    } else {
        assert(offsets.filter(|p: (u64, i64)| p.1 >= w) =~= Seq::<(u64, i64)>::empty());
    }
}

/// For a wait whose quorum is at least one, being released is having the
/// quorum: that many replicas at its offset put it at or below the furthest
/// replica.
pub proof fn lemma_released_iff_quorum(offsets: Seq<(u64, i64)>, e: (i64, u64, usize, u64))
    requires
        e.2 >= 1,
    ensures
        released_by(offsets, e) <==> reached(offsets, e.0) >= e.2,
{
    if e.0 > highest(offsets) {
        lemma_none_above_highest(offsets, e.0);
    }
}

/// The waits of `s` that fewer than their quorum of `offsets` have reached.
pub open spec fn short_waits(offsets: Seq<(u64, i64)>) -> spec_fn((i64, u64, usize, u64)) -> bool {
    |e: (i64, u64, usize, u64)| short_of_quorum(offsets, e)
}

proof fn lemma_filter_agree(
    s: Seq<(i64, u64, usize, u64)>,
    f: spec_fn((i64, u64, usize, u64)) -> bool,
    g: spec_fn((i64, u64, usize, u64)) -> bool,
)
    requires
        forall|i: int| 0 <= i < s.len() ==> f(#[trigger] s[i]) == g(s[i]),
    ensures
        s.filter(f) == s.filter(g),
    decreases s.len(),
{
    reveal(Seq::filter);
    if s.len() > 0 {
        let front = s.drop_last();
        assert forall|i: int| 0 <= i < front.len() implies f(#[trigger] front[i]) == g(front[i]) by {
            assert(front[i] == s[i]);
        }
        lemma_filter_agree(front, f, g);
        assert(f(s[s.len() - 1]) == g(s[s.len() - 1]));
    }
}

/// A report that moves a replica forward, on a partition where every held
/// wait's quorum is at least one, keeps exactly the waits that fewer
/// distinct replicas than their quorum have now reached, and releases the
/// rest: a replica counts once, however often it reports.
pub proof fn lemma_ack_keeps_exactly_the_short(p: (Seq<(u64, i64)>, Seq<(i64, u64, usize, u64)>), node: u64, offset: i64)
    requires
        progressed(p.0, node, offset),
        forall|i: int| 0 <= i < p.1.len() ==> (#[trigger] p.1[i]).2 >= 1,
    ensures
        waits_after_ack(p, node, offset) == p.1.filter(short_waits(offsets_after(p.0, node, offset))),
        released_on_ack(p, node, offset) == p.1.filter(|e: (i64, u64, usize, u64)| !short_of_quorum(offsets_after(p.0, node, offset), e))
            .map_values(|e: (i64, u64, usize, u64)| e.1),
{
    let o = offsets_after(p.0, node, offset);
    assert forall|i: int| 0 <= i < p.1.len() implies still_waiting(o)(#[trigger] p.1[i]) == short_waits(o)(p.1[i]) by {
        lemma_released_iff_quorum(o, p.1[i]);
    }
    lemma_filter_agree(p.1, still_waiting(o), short_waits(o));
    let not_short = |e: (i64, u64, usize, u64)| !short_of_quorum(o, e);
    assert forall|i: int| 0 <= i < p.1.len() implies is_released(o)(#[trigger] p.1[i]) == not_short(p.1[i]) by {
        lemma_released_iff_quorum(o, p.1[i]);
    }
    lemma_filter_agree(p.1, is_released(o), not_short);
}

} // verus!
