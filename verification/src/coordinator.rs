//! Coordinator placement for consumer groups and transactions: a consistent
//! hash ring with a fixed number of virtual nodes per broker, hashed with
//! MurmurHash2 (seed 0). A key belongs to the broker owning the first ring
//! position at or after the key's hash, wrapping round to the first position.
use vstd::prelude::*;
use std::collections::BTreeMap;
use std::collections::HashMap;
use vstd::string::StringSliceAdditionalSpecFns;
use crate::clock::elapsed;
use crate::text::str_eq;
use crate::consumer_group::group::{key_index, key_insert, key_lookup, keys_unique, lemma_key_index, lemma_key_insert_unique};

verus! {

/// What a coordinator coordinates.
#[derive(Clone, Copy, Debug, PartialEq, Eq, Hash, Structural)]
pub enum CoordinatorType {
    Group,
    Transaction,
}

/// Why a coordinator request failed.
#[derive(Clone, Copy, Debug, PartialEq, Eq, Structural)]
pub enum CoordinatorError {
    /// The wire code names no coordinator type.
    InvalidCoordinatorType(i8),
    /// The ring holds no broker.
    NoBrokersAvailable,
}

impl CoordinatorType {
    /// The type a wire code names: 0 a group, 1 a transaction.
    pub fn try_from(value: i8) -> (r: Result<CoordinatorType, CoordinatorError>)
        ensures
            value == 0 ==> r == Ok::<CoordinatorType, CoordinatorError>(CoordinatorType::Group),
            value == 1 ==> r == Ok::<CoordinatorType, CoordinatorError>(CoordinatorType::Transaction),
            value != 0 && value != 1 ==> r == Err::<CoordinatorType, CoordinatorError>(CoordinatorError::InvalidCoordinatorType(value)),
    {
        if value == 0 {
            Ok(CoordinatorType::Group)
        } else if value == 1 {
            Ok(CoordinatorType::Transaction)
        } else {
            Err(CoordinatorError::InvalidCoordinatorType(value))
        }
    }

    /// The wire code of the type.
    pub fn code(&self) -> (c: i8)
        ensures
            c == (match *self {
                CoordinatorType::Group => 0i8,
                CoordinatorType::Transaction => 1i8,
            }),
    {
        match self {
            CoordinatorType::Group => 0,
            CoordinatorType::Transaction => 1,
        }
    }
}

/// How coordinators are placed and cached.
#[derive(Clone, Copy, Debug)]
pub struct CoordinatorConfig {
    /// Ring positions per broker.
    pub virtual_nodes: u32,
    /// How long to wait after a membership change before rebalancing (ms).
    pub rebalance_delay_ms: u64,
    /// Whether assignments are cached.
    pub enable_cache: bool,
    /// How long a cached assignment stays valid (s).
    pub cache_ttl_seconds: u64,
}

impl Default for CoordinatorConfig {
    /// 100 virtual nodes, a 5 s rebalance delay, caching on for 300 s.
    fn default() -> (c: Self)
        ensures
            c.virtual_nodes == 100,
            c.rebalance_delay_ms == 5000,
            c.enable_cache,
            c.cache_ttl_seconds == 300,
    {
        CoordinatorConfig { virtual_nodes: 100, rebalance_delay_ms: 5000, enable_cache: true, cache_ttl_seconds: 300 }
    }
}

/// Counters for monitoring.
#[derive(Clone, Copy, Debug)]
pub struct CoordinatorStats {
    pub total_brokers: usize,
    pub cached_assignments: usize,
    pub virtual_nodes_per_broker: u32,
}

/// A broker as the ring knows it.
#[derive(Clone, Debug)]
pub struct BrokerMetadata {
    pub broker_id: i32,
    pub host: String,
    pub port: i32,
    pub rack: Option<String>,
}

// ----- hashing -----

/// The MurmurHash2 of `data` with seed `seed`.
pub uninterp spec fn murmur2_of(data: Seq<u8>, seed: u32) -> u32;

/// MurmurHash2, endian-neutral.
///
/// Calls `murmur2::murmur2`; claims the result is `murmur2_of` of the bytes
/// and seed, a pure function of them.
#[verifier::external_body]
fn murmur2_hash(data: &[u8], seed: u32) -> (h: u32)
    ensures
        h == murmur2_of(data@, seed),
{
    murmur2::murmur2(data, seed)
}

/// The decimal digits of `n`, most significant first, as ASCII.
pub open spec fn decimal_digits(n: nat) -> Seq<u8>
    decreases n,
{
    if n < 10 {
        seq![(48 + n) as u8]
    } else {
        decimal_digits(n / 10).push((48 + n % 10) as u8)
    }
}

/// `n` written in decimal as ASCII, with a leading '-' when negative.
pub open spec fn decimal_i64(n: int) -> Seq<u8> {
    if n < 0 {
        seq![45u8] + decimal_digits((-n) as nat)
    } else {
        decimal_digits(n as nat)
    }
}

fn push_digits(out: &mut Vec<u8>, n: u64)
    ensures
        final(out)@ == old(out)@ + decimal_digits(n as nat),
    decreases n,
{
    if n >= 10 {
        push_digits(out, n / 10);
    }
    let d: u8 = (n % 10) as u8;
    out.push(48 + d);
    assert(final(out)@ =~= old(out)@ + decimal_digits(n as nat));
}

fn push_decimal(out: &mut Vec<u8>, n: i64)
    ensures
        final(out)@ == old(out)@ + decimal_i64(n as int),
{
    if n < 0 {
        out.push(45);
        let m: u64 = if n == i64::MIN { 9223372036854775808u64 } else { (-n) as u64 };
        push_digits(out, m);
        assert(final(out)@ =~= old(out)@ + decimal_i64(n as int));
    } else {
        push_digits(out, n as u64);
    }
}

/// The name of a broker's `index`-th ring position: "<broker_id>:<index>".
pub open spec fn vnode_name(broker_id: i32, index: u32) -> Seq<u8> {
    decimal_i64(broker_id as int) + seq![58u8] + decimal_i64(index as int)
}

/// The ring position of a broker's `index`-th virtual node.
pub open spec fn vnode_hash(broker_id: i32, index: u32) -> u32 {
    murmur2_of(vnode_name(broker_id, index), 0)
}

/// The name of a broker's `index`-th ring position, as bytes.
pub fn vnode_key(broker_id: i32, index: u32) -> (k: Vec<u8>)
    ensures
        k@ == vnode_name(broker_id, index),
{
    let mut k: Vec<u8> = Vec::new();
    push_decimal(&mut k, broker_id as i64);
    k.push(58);
    push_decimal(&mut k, index as i64);
    assert(k@ =~= vnode_name(broker_id, index));
    k
}

/// The ring position of a key.
pub fn hash_key(key: &str) -> (h: u32)
    ensures
        h == murmur2_of(key.spec_bytes(), 0),
{
    murmur2_hash(key.as_bytes(), 0)
}

/// The ring positions of a broker's first `count` virtual nodes.
pub fn vnode_hashes(broker_id: i32, count: u32) -> (hs: Vec<u32>)
    ensures
        hs@.len() == count,
        forall|i: int| 0 <= i < count ==> #[trigger] hs@[i] == vnode_hash(broker_id, i as u32),
{
    let mut hs: Vec<u32> = Vec::new();
    let mut i: u32 = 0;
    while i < count
        invariant
            i <= count,
            hs@.len() == i,
            forall|j: int| 0 <= j < i ==> #[trigger] hs@[j] == vnode_hash(broker_id, j as u32),
        decreases count - i,
    {
        let k = vnode_key(broker_id, i);
        let h = murmur2_hash(k.as_slice(), 0);
        hs.push(h);
        i += 1;
    }
    hs
}

// ----- the ring -----

/// Whether `k` is the first ring position at or after `from`.
pub open spec fn is_first_from(ring: Map<u32, i32>, from: u32, k: u32) -> bool {
    &&& ring.contains_key(k)
    &&& k >= from
    &&& forall|j: u32| #[trigger] ring.contains_key(j) && j >= from ==> k <= j
}

/// The broker owning ring position `hash`: that of the first position at or
/// after it, wrapping round to the first position; none on an empty ring.
pub open spec fn owner_of(ring: Map<u32, i32>, hash: u32) -> Option<i32> {
    if exists|k: u32| is_first_from(ring, hash, k) {
        Some(ring[choose|k: u32| is_first_from(ring, hash, k)])
    } else if exists|k: u32| is_first_from(ring, 0, k) {
        Some(ring[choose|k: u32| is_first_from(ring, 0, k)])
    } else {
        None
    }
}

/// The ring without the positions of `broker_id`.
pub open spec fn without_broker(ring: Map<u32, i32>, broker_id: i32) -> Map<u32, i32> {
    Map::new(|h: u32| ring.contains_key(h) && ring[h] != broker_id, |h: u32| ring[h])
}

/// The first ring position at or after `from`, with its broker.
///
/// Calls `BTreeMap::range(from..)` and takes the first entry; claims it is
/// the least key not below `from`, and `None` when there is none.
#[verifier::external_body]
fn ring_first_from(ring: &BTreeMap<u32, i32>, from: u32) -> (r: Option<(u32, i32)>)
    ensures
        match r {
            Some(e) => is_first_from(ring@, from, e.0) && ring@[e.0] == e.1,
            None => forall|j: u32| #[trigger] ring@.contains_key(j) ==> j < from,
        },
{
    ring.range(from..).next().map(|(k, v)| (*k, *v))
}

/// Whether a ring position's broker differs from `broker_id`.
fn other_broker(owner: i32, broker_id: i32) -> (b: bool)
    ensures
        b == (owner != broker_id),
{
    owner != broker_id
}

/// Drops every ring position of `broker_id`.
///
/// Calls `BTreeMap::retain` keeping the positions whose broker differs;
/// claims exactly those stay.
#[verifier::external_body]
fn ring_drop_broker(ring: &mut BTreeMap<u32, i32>, broker_id: i32)
    ensures
        final(ring)@ == without_broker(old(ring)@, broker_id),
{
    ring.retain(|_, v| other_broker(*v, broker_id));
}

/// The ring with positions `hashes` given to `broker_id`.
pub open spec fn with_positions(ring: Map<u32, i32>, hashes: Seq<u32>, broker_id: i32) -> Map<u32, i32> {
    Map::new(
        |h: u32| ring.contains_key(h) || hashes.contains(h),
        |h: u32| if hashes.contains(h) { broker_id } else { ring[h] },
    )
}

/// The positions of a broker's first `count` virtual nodes.
pub open spec fn vnode_seq(broker_id: i32, count: u32) -> Seq<u32> {
    Seq::new(count as nat, |i: int| vnode_hash(broker_id, i as u32))
}

/// Whether some broker of `list` has id `id`.
pub open spec fn listed(list: Seq<BrokerMetadata>, id: i32) -> bool {
    exists|i: int| 0 <= i < list.len() && (#[trigger] list[i]).broker_id == id
}

/// The members whose id is in `list`.
pub open spec fn kept_members(m: Map<i32, BrokerMetadata>, list: Seq<BrokerMetadata>) -> Map<i32, BrokerMetadata> {
    Map::new(|id: i32| m.contains_key(id) && listed(list, id), |id: i32| m[id])
}

/// The positions whose broker's id is in `list`.
pub open spec fn kept_positions(ring: Map<u32, i32>, list: Seq<BrokerMetadata>) -> Map<u32, i32> {
    Map::new(|h: u32| ring.contains_key(h) && listed(list, ring[h]), |h: u32| ring[h])
}

/// Positions and members after adding, in order, each broker of `list`
/// not yet a member.
pub open spec fn joined(
    ring: Map<u32, i32>,
    m: Map<i32, BrokerMetadata>,
    list: Seq<BrokerMetadata>,
    vnodes: u32,
) -> (Map<u32, i32>, Map<i32, BrokerMetadata>)
    decreases list.len(),
{
    if list.len() == 0 {
        (ring, m)
    } else {
        let prev = joined(ring, m, list.drop_last(), vnodes);
        let b = list.last();
        if prev.1.contains_key(b.broker_id) {
            prev
        } else {
            (with_positions(prev.0, vnode_seq(b.broker_id, vnodes), b.broker_id), prev.1.insert(b.broker_id, b))
        }
    }
}

/// Whether some broker of `list` has id `id`.
fn is_listed(list: &Vec<BrokerMetadata>, id: i32) -> (b: bool)
    ensures
        b == listed(list@, id),
{
    let mut i: usize = 0;
    while i < list.len()
        invariant
            i <= list@.len(),
            forall|j: int| 0 <= j < i ==> (#[trigger] list@[j]).broker_id != id,
        decreases list.len() - i,
    {
        if list[i].broker_id == id {
            assert(list@[i as int].broker_id == id);
            return true;
        }
        i += 1;
    }
    false
}

/// A consistent hash ring of brokers.
pub struct ConsistentHashRing {
    ring: BTreeMap<u32, i32>,
    brokers: HashMap<i32, BrokerMetadata>,
    virtual_nodes: u32,
}

impl ConsistentHashRing {
    /// Ring position to broker id.
    pub closed spec fn positions(&self) -> Map<u32, i32> {
        self.ring@
    }

    /// Broker id to broker.
    pub closed spec fn members(&self) -> Map<i32, BrokerMetadata> {
        self.brokers@
    }

    /// Ring positions per broker.
    pub closed spec fn vnodes(&self) -> u32 {
        self.virtual_nodes
    }

    /// Every position belongs to a member, and each member is filed under
    /// its own id.
    pub open spec fn wf(&self) -> bool {
        &&& forall|h: u32| #[trigger] self.positions().contains_key(h) ==> self.members().contains_key(self.positions()[h])
        &&& forall|id: i32| #[trigger] self.members().contains_key(id) ==> self.members()[id].broker_id == id
    }

    /// An empty ring placing `virtual_nodes` positions per broker.
    pub fn new(virtual_nodes: u32) -> (r: Self)
        ensures
            r.wf(),
            r.positions() == Map::<u32, i32>::empty(),
            r.members() == Map::<i32, BrokerMetadata>::empty(),
            r.vnodes() == virtual_nodes,
    {
        ConsistentHashRing { ring: BTreeMap::new(), brokers: HashMap::new(), virtual_nodes }
    }

    /// How many brokers are on the ring.
    pub fn broker_count(&self) -> (n: usize)
        ensures
            n == self.members().len(),
    {
        self.brokers.len()
    }

    /// The broker owning ring position `hash`.
    pub fn broker_for_hash(&self, hash: u32) -> (r: Option<&BrokerMetadata>)
        requires
            self.wf(),
        ensures
            match owner_of(self.positions(), hash) {
                Some(id) => r == Some(&self.members()[id]),
                None => r.is_none(),
            },
    {
        let first = match ring_first_from(&self.ring, hash) {
            Some(e) => Some(e),
            None => ring_first_from(&self.ring, 0),
        };
        match first {
            Some(e) => {
                proof {
                    lemma_first_unique(self.ring@, hash);
                    lemma_first_unique(self.ring@, 0);
                }
                self.brokers.get(&e.1)
            },
            None => {
                assert(!exists|k: u32| is_first_from(self.ring@, 0, k));
                assert(!exists|k: u32| is_first_from(self.ring@, hash, k));
                None
            },
        }
    }

    /// The broker coordinating `key`.
    pub fn get_broker_for_key(&self, key: &str) -> (r: Option<&BrokerMetadata>)
        requires
            self.wf(),
        ensures
            match owner_of(self.positions(), murmur2_of(key.spec_bytes(), 0)) {
                Some(id) => r == Some(&self.members()[id]),
                None => r.is_none(),
            },
    {
        let h = hash_key(key);
        self.broker_for_hash(h)
    }
}

impl ConsistentHashRing {
    /// The ids of the brokers on the ring, each once, in no particular order.
    fn member_ids(&self) -> (ids: Vec<i32>)
        ensures
            forall|x: i32| #[trigger] self.members().contains_key(x) <==> ids@.contains(x),
    {
        let mut ids: Vec<i32> = Vec::new();
        for id in it: self.brokers.keys()
            invariant
                ids@ == it.seq().unref().take(it.index()),
                it.seq().unref().to_set() == self.members().dom(),
                forall|x: i32| #[trigger] self.members().contains_key(x) ==> ids@.contains(x)
                    || exists|t: int| it.index() <= t < it.seq().len() && *it.seq()[t] == x,
                forall|x: i32| ids@.contains(x) ==> #[trigger] self.members().contains_key(x),
        {
            proof {
                assert(it.seq().unref().take(it.index() + 1) =~= it.seq().unref().take(it.index()).push(*id));
                assert(it.seq().unref().contains(*id));
            }
            let ghost before = ids@;
            ids.push(*id);
            proof {
                assert forall|x: i32| #[trigger] self.members().contains_key(x) implies ids@.contains(x)
                    || exists|t: int| it.index() + 1 <= t < it.seq().len() && *it.seq()[t] == x by {
                    if !before.contains(x) {
                        let t = choose|t: int| it.index() <= t < it.seq().len() && *it.seq()[t] == x;
                        if t == it.index() {
                            assert(ids@[ids@.len() - 1] == x);
                        }
                    } else {
                        let u = choose|u: int| 0 <= u < before.len() && before[u] == x;
                        assert(ids@[u] == x);
                    }
                }
            }
        }
        ids
    }
}

impl ConsistentHashRing {
    /// Files `broker` under its id and gives it the ring positions `hashes`.
    pub fn place_broker(&mut self, broker: BrokerMetadata, hashes: &Vec<u32>)
        requires
            old(self).wf(),
        ensures
            final(self).wf(),
            final(self).members() == old(self).members().insert(broker.broker_id, broker),
            final(self).positions() == with_positions(old(self).positions(), hashes@, broker.broker_id),
            final(self).vnodes() == old(self).vnodes(),
    {
        let id = broker.broker_id;
        let ghost b = broker;
        self.brokers.insert(id, broker);
        let ghost ring0 = self.ring@;
        let mut i: usize = 0;
        while i < hashes.len()
            invariant
                i <= hashes@.len(),
                self.brokers@ == old(self).members().insert(id, b),
                b.broker_id == id,
                ring0 == old(self).positions(),
                self.ring@ == with_positions(ring0, hashes@.take(i as int), id),
                self.virtual_nodes == old(self).vnodes(),
                old(self).wf(),
            decreases hashes.len() - i,
        {
            let ghost before = self.ring@;
            self.ring.insert(hashes[i], id);
            assert(self.ring@ =~= with_positions(ring0, hashes@.take(i as int + 1), id)) by {
                assert(hashes@.take(i as int + 1) =~= hashes@.take(i as int).push(hashes@[i as int]));
                lemma_contains_push(hashes@.take(i as int), hashes@[i as int]);
            }
            i += 1;
        }
        assert(hashes@.take(hashes@.len() as int) =~= hashes@);
    }

    /// Adds `broker` with its virtual nodes, "<id>:0" to "<id>:<n-1>" hashed.
    pub fn add_broker(&mut self, broker: BrokerMetadata)
        requires
            old(self).wf(),
        ensures
            final(self).wf(),
            final(self).members() == old(self).members().insert(broker.broker_id, broker),
            final(self).positions() == with_positions(old(self).positions(), vnode_seq(broker.broker_id, old(self).vnodes()), broker.broker_id),
            final(self).vnodes() == old(self).vnodes(),
    {
        let hashes = vnode_hashes(broker.broker_id, self.virtual_nodes);
        assert(hashes@ =~= vnode_seq(broker.broker_id, self.virtual_nodes));
        self.place_broker(broker, &hashes);
    }

    /// Takes `broker_id` and all its positions off the ring.
    pub fn remove_broker(&mut self, broker_id: i32)
        requires
            old(self).wf(),
        ensures
            final(self).wf(),
            final(self).members() == old(self).members().remove(broker_id),
            final(self).positions() == without_broker(old(self).positions(), broker_id),
            final(self).vnodes() == old(self).vnodes(),
    {
        self.brokers.remove(&broker_id);
        ring_drop_broker(&mut self.ring, broker_id);
        assert forall|h: u32| #[trigger] self.positions().contains_key(h) implies self.members().contains_key(self.positions()[h]) by {
            assert(old(self).positions().contains_key(h));
        }
    }

    /// Makes the ring hold exactly the brokers of `brokers`: those no longer
    /// listed leave with their positions; listed ones not yet on the ring
    /// join in list order (of two with one id, the first); the others stay
    /// as they are.
    pub fn update_brokers(&mut self, brokers: Vec<BrokerMetadata>)
        requires
            old(self).wf(),
        ensures
            final(self).wf(),
            final(self).vnodes() == old(self).vnodes(),
            (final(self).positions(), final(self).members()) == joined(
                kept_positions(old(self).positions(), brokers@),
                kept_members(old(self).members(), brokers@),
                brokers@,
                old(self).vnodes(),
            ),
    {
        let ghost list = brokers@;
        let ghost p0 = self.positions();
        let ghost m0 = self.members();
        let ids = self.member_ids();
        let mut j: usize = 0;
        while j < ids.len()
            invariant
                j <= ids@.len(),
                list == brokers@,
                p0 == old(self).positions(),
                m0 == old(self).members(),
                old(self).wf(),
                self.wf(),
                self.vnodes() == old(self).vnodes(),
                forall|x: i32| #[trigger] m0.contains_key(x) <==> ids@.contains(x),
                self.members() == Map::new(
                    |x: i32| m0.contains_key(x) && (listed(list, x) || !ids@.take(j as int).contains(x)),
                    |x: i32| m0[x],
                ),
                self.positions() == Map::new(
                    |h: u32| p0.contains_key(h) && (listed(list, p0[h]) || !ids@.take(j as int).contains(p0[h])),
                    |h: u32| p0[h],
                ),
            decreases ids.len() - j,
        {
            let id = ids[j];
            let ghost done = ids@.take(j as int);
            let ghost done1 = ids@.take(j as int + 1);
            assert(done1 =~= done.push(id));
            proof {
                lemma_contains_push(done, id);
            }
            if !is_listed(&brokers, id) {
                self.remove_broker(id);
            }
            assert(self.members() =~= Map::new(
                |x: i32| m0.contains_key(x) && (listed(list, x) || !done1.contains(x)),
                |x: i32| m0[x],
            ));
            assert(self.positions() =~= Map::new(
                |h: u32| p0.contains_key(h) && (listed(list, p0[h]) || !done1.contains(p0[h])),
                |h: u32| p0[h],
            ));
            j += 1;
        }
        assert(ids@.take(ids@.len() as int) =~= ids@);
        assert(self.members() =~= kept_members(m0, list));
        assert(self.positions() =~= kept_positions(p0, list)) by {
            assert forall|h: u32| p0.contains_key(h) implies ids@.contains(#[trigger] p0[h]) by {
                assert(m0.contains_key(p0[h]));
            }
        }
        let ghost kp = self.positions();
        let ghost km = self.members();
        assert(list.len() == brokers.len());
        let mut rest = brokers;
        let mut i: usize = 0;
        while rest.len() > 0
            invariant
                i <= list.len(),
                list.len() <= usize::MAX,
                rest@ == list.subrange(i as int, list.len() as int),
                self.wf(),
                self.vnodes() == old(self).vnodes(),
                (self.positions(), self.members()) == joined(kp, km, list.take(i as int), old(self).vnodes()),
            decreases rest.len(),
        {
            let b = rest.remove(0);
            assert(b == list[i as int]);
            assert(list.take(i as int + 1).drop_last() =~= list.take(i as int));
            assert(list.take(i as int + 1).last() == b);
            if !self.brokers.contains_key(&b.broker_id) {
                self.add_broker(b);
            }
            i += 1;
            assert(rest@ =~= list.subrange(i as int, list.len() as int));
        }
        assert(list.take(list.len() as int) =~= list);
    }
}

/// Who coordinates a key, and since when (ms).
#[derive(Debug)]
pub struct CoordinatorAssignment {
    pub key: String,
    pub coordinator_type: CoordinatorType,
    pub broker_id: i32,
    pub broker_host: String,
    pub broker_port: i32,
    pub assigned_at_ms: u64,
}

/// An assignment as plain values.
pub open spec fn assignment_view(a: CoordinatorAssignment) -> (Seq<char>, CoordinatorType, i32, Seq<char>, i32, u64) {
    (a.key@, a.coordinator_type, a.broker_id, a.broker_host@, a.broker_port, a.assigned_at_ms)
}

impl CoordinatorAssignment {
    /// A field-by-field copy.
    pub fn duplicate(&self) -> (r: CoordinatorAssignment)
        ensures
            assignment_view(r) == assignment_view(*self),
    {
        CoordinatorAssignment {
            key: self.key.clone(),
            coordinator_type: self.coordinator_type,
            broker_id: self.broker_id,
            broker_host: self.broker_host.clone(),
            broker_port: self.broker_port,
            assigned_at_ms: self.assigned_at_ms,
        }
    }
}

/// A cached assignment and when it was cached (ms).
#[derive(Debug)]
pub struct CachedAssignment {
    pub assignment: CoordinatorAssignment,
    pub cached_at_ms: u64,
}

/// A cache entry as plain values, keyed by (key, coordinator type).
pub open spec fn cached_view(c: CachedAssignment) -> ((Seq<char>, CoordinatorType), ((Seq<char>, CoordinatorType, i32, Seq<char>, i32, u64), u64)) {
    ((c.assignment.key@, c.assignment.coordinator_type), (assignment_view(c.assignment), c.cached_at_ms))
}

/// Whether an entry cached at `cached_at_ms` is still valid at `now_ms`:
/// fewer whole seconds than the TTL have passed.
pub open spec fn still_fresh(cached_at_ms: u64, now_ms: u64, ttl_seconds: u64) -> bool {
    elapsed(now_ms, cached_at_ms) / 1000 < ttl_seconds
}

/// The cached placement under `k`, if caching is on and it is still fresh
/// at `now_ms`.
pub open spec fn fresh_hit(
    cached: Seq<((Seq<char>, CoordinatorType), ((Seq<char>, CoordinatorType, i32, Seq<char>, i32, u64), u64))>,
    k: (Seq<char>, CoordinatorType),
    now_ms: u64,
    config: CoordinatorConfig,
) -> Option<(Seq<char>, CoordinatorType, i32, Seq<char>, i32, u64)> {
    match key_lookup(cached, k) {
        Some(e) => if config.enable_cache && still_fresh(e.1, now_ms, config.cache_ttl_seconds) {
            Some(e.0)
        } else {
            None
        },
        None => None,
    }
}

/// The assignment a ring gives `key` once its hash is `hash`, at `now_ms`;
/// none on an empty ring.
pub open spec fn placed(
    ring: ConsistentHashRing,
    key: Seq<char>,
    ct: CoordinatorType,
    hash: u32,
    now_ms: u64,
) -> Option<(Seq<char>, CoordinatorType, i32, Seq<char>, i32, u64)> {
    match owner_of(ring.positions(), hash) {
        Some(id) => Some((key, ct, id, ring.members()[id].host@, ring.members()[id].port, now_ms)),
        None => None,
    }
}

/// Places consumer groups and transactions on brokers, caching placements.
pub struct CoordinatorManager {
    config: CoordinatorConfig,
    cache: Vec<CachedAssignment>,
    ring: ConsistentHashRing,
    current_broker_id: i32,
}

impl CoordinatorManager {
    pub closed spec fn settings(&self) -> CoordinatorConfig {
        self.config
    }

    /// The cached placements, (key, type) to (assignment, time cached).
    pub closed spec fn cached(&self) -> Seq<((Seq<char>, CoordinatorType), ((Seq<char>, CoordinatorType, i32, Seq<char>, i32, u64), u64))> {
        self.cache@.map_values(|c: CachedAssignment| cached_view(c))
    }

    pub closed spec fn hash_ring(&self) -> ConsistentHashRing {
        self.ring
    }

    /// This broker's id.
    pub closed spec fn broker_id(&self) -> i32 {
        self.current_broker_id
    }

    /// The ring is well formed and places the configured number of virtual
    /// nodes, and no placement is cached twice.
    pub open spec fn wf(&self) -> bool {
        &&& self.hash_ring().wf()
        &&& self.hash_ring().vnodes() == self.settings().virtual_nodes
        &&& keys_unique(self.cached())
    }

    /// A manager with no brokers and an empty cache.
    pub fn new(config: CoordinatorConfig, current_broker_id: i32) -> (m: Self)
        ensures
            m.wf(),
            m.settings() == config,
            m.broker_id() == current_broker_id,
            m.cached() == Seq::<((Seq<char>, CoordinatorType), ((Seq<char>, CoordinatorType, i32, Seq<char>, i32, u64), u64))>::empty(),
            m.hash_ring().positions() == Map::<u32, i32>::empty(),
            m.hash_ring().members() == Map::<i32, BrokerMetadata>::empty(),
    {
        let m = CoordinatorManager {
            config,
            cache: Vec::new(),
            ring: ConsistentHashRing::new(config.virtual_nodes),
            current_broker_id,
        };
        assert(m.cached() =~= Seq::empty());
        m
    }

    /// Loads the broker list onto the ring.
    pub fn init(&mut self, brokers: Vec<BrokerMetadata>)
        requires
            old(self).wf(),
        ensures
            final(self).wf(),
            final(self).settings() == old(self).settings(),
            final(self).broker_id() == old(self).broker_id(),
            final(self).cached() == old(self).cached(),
            final(self).hash_ring().vnodes() == old(self).hash_ring().vnodes(),
            (final(self).hash_ring().positions(), final(self).hash_ring().members()) == joined(
                kept_positions(old(self).hash_ring().positions(), brokers@),
                kept_members(old(self).hash_ring().members(), brokers@),
                brokers@,
                old(self).hash_ring().vnodes(),
            ),
    {
        self.ring.update_brokers(brokers);
    }

    /// The cached placement of (`key`, `ct`) if caching is on and it is
    /// still fresh at `now_ms`.
    fn fresh_cached(&self, key: &str, ct: CoordinatorType, now_ms: u64) -> (r: Option<CoordinatorAssignment>)
        ensures
            match fresh_hit(self.cached(), (key@, ct), now_ms, self.settings()) {
                Some(a) => r matches Some(x) && assignment_view(x) == a,
                None => r is None,
            },
    {
        if !self.config.enable_cache {
            return None;
        }
        let ghost cv = self.cached();
        proof {
            lemma_key_index(cv, (key@, ct));
        }
        let mut i: usize = 0;
        while i < self.cache.len()
            invariant
                i <= self.cache@.len(),
                cv == self.cached(),
                cv.len() == self.cache@.len(),
                self.settings().enable_cache,
                forall|j: int| 0 <= j < i ==> cv[j].0 != (key@, ct),
                -1 <= key_index(cv, (key@, ct)) < cv.len(),
                key_index(cv, (key@, ct)) >= 0 ==> cv[key_index(cv, (key@, ct))].0 == (key@, ct),
                key_index(cv, (key@, ct)) >= 0 ==> forall|j: int| 0 <= j < key_index(cv, (key@, ct)) ==> cv[j].0 != (key@, ct),
                key_index(cv, (key@, ct)) < 0 ==> forall|j: int| 0 <= j < cv.len() ==> cv[j].0 != (key@, ct),
            decreases self.cache.len() - i,
        {
            let c = &self.cache[i];
            assert(cv[i as int] == cached_view(*c));
            if c.assignment.coordinator_type == ct && str_eq(c.assignment.key.as_str(), key) {
                assert(key_index(cv, (key@, ct)) == i as int);
                assert(key_lookup(cv, (key@, ct)) == Some(cv[i as int].1));
                let age: u64 = if now_ms >= c.cached_at_ms { now_ms - c.cached_at_ms } else { 0 };
                if age / 1000 < self.config.cache_ttl_seconds {
                    return Some(c.assignment.duplicate());
                } else {
                    return None;
                }
            }
            i += 1;
        }
        None
    }

    /// Places (`key`, `ct`) on the ring given the key's hash, at `now_ms`,
    /// caching the placement when caching is on. `NoBrokersAvailable` when
    /// the ring is empty, and then nothing changes.
    pub fn assign_from_hash(&mut self, key: &str, ct: CoordinatorType, hash: u32, now_ms: u64) -> (r: Result<CoordinatorAssignment, CoordinatorError>)
        requires
            old(self).wf(),
        ensures
            final(self).wf(),
            final(self).settings() == old(self).settings(),
            final(self).broker_id() == old(self).broker_id(),
            final(self).hash_ring() == old(self).hash_ring(),
            match placed(old(self).hash_ring(), key@, ct, hash, now_ms) {
                Some(a) => {
                    &&& r matches Ok(x) && assignment_view(x) == a
                    &&& final(self).cached() == if old(self).settings().enable_cache {
                        key_insert(old(self).cached(), (key@, ct), (a, now_ms))
                    } else {
                        old(self).cached()
                    }
                },
                None => r == Err::<CoordinatorAssignment, CoordinatorError>(CoordinatorError::NoBrokersAvailable)
                    && final(self).cached() == old(self).cached(),
            },
    {
        let broker = match self.ring.broker_for_hash(hash) {
            Some(b) => b,
            None => {
                return Err(CoordinatorError::NoBrokersAvailable);
            },
        };
        let assignment = CoordinatorAssignment {
            key: key.to_string(),
            coordinator_type: ct,
            broker_id: broker.broker_id,
            broker_host: broker.host.clone(),
            broker_port: broker.port,
            assigned_at_ms: now_ms,
        };
        if self.config.enable_cache {
            self.put_cached(assignment.duplicate(), now_ms);
        }
        Ok(assignment)
    }

    /// Caches `a` at `now_ms` under its (key, type), replacing any entry.
    fn put_cached(&mut self, a: CoordinatorAssignment, now_ms: u64)
        requires
            old(self).wf(),
        ensures
            final(self).wf(),
            final(self).settings() == old(self).settings(),
            final(self).broker_id() == old(self).broker_id(),
            final(self).hash_ring() == old(self).hash_ring(),
            final(self).cached() == key_insert(old(self).cached(), (a.key@, a.coordinator_type), (assignment_view(a), now_ms)),
    {
        let ghost cv = self.cached();
        let ghost k = (a.key@, a.coordinator_type);
        proof {
            lemma_key_index(cv, k);
            lemma_key_insert_unique(cv, k, (assignment_view(a), now_ms));
        }
        let mut i: usize = 0;
        while i < self.cache.len()
            invariant
                i <= self.cache@.len(),
                cv == self.cached(),
                cv.len() == self.cache@.len(),
                k == (a.key@, a.coordinator_type),
                cv == old(self).cached(),
                self.config == old(self).config,
                self.ring == old(self).ring,
                self.current_broker_id == old(self).current_broker_id,
                old(self).wf(),
                keys_unique(key_insert(cv, k, (assignment_view(a), now_ms))),
                forall|j: int| 0 <= j < i ==> cv[j].0 != k,
                -1 <= key_index(cv, k) < cv.len(),
                key_index(cv, k) >= 0 ==> cv[key_index(cv, k)].0 == k,
                key_index(cv, k) >= 0 ==> forall|j: int| 0 <= j < key_index(cv, k) ==> cv[j].0 != k,
                key_index(cv, k) < 0 ==> forall|j: int| 0 <= j < cv.len() ==> cv[j].0 != k,
            decreases self.cache.len() - i,
        {
            assert(cv[i as int] == cached_view(self.cache@[i as int]));
            if self.cache[i].assignment.coordinator_type == a.coordinator_type
                && str_eq(self.cache[i].assignment.key.as_str(), a.key.as_str()) {
                assert(key_index(cv, k) == i as int);
                self.cache.set(i, CachedAssignment { assignment: a, cached_at_ms: now_ms });
                assert(self.cached() =~= cv.update(i as int, (k, (assignment_view(a), now_ms))));
                return;
            }
            i += 1;
        }
        self.cache.push(CachedAssignment { assignment: a, cached_at_ms: now_ms });
        assert(self.cached() =~= cv.push((k, (assignment_view(a), now_ms))));
    }

    /// The coordinator of (`key`, `ct`) at `now_ms`: the cached placement
    /// while fresh, else the ring's, then cached. `NoBrokersAvailable` on an
    /// empty ring.
    pub fn find_coordinator(&mut self, key: &str, ct: CoordinatorType, now_ms: u64) -> (r: Result<CoordinatorAssignment, CoordinatorError>)
        requires
            old(self).wf(),
        ensures
            final(self).wf(),
            final(self).settings() == old(self).settings(),
            final(self).broker_id() == old(self).broker_id(),
            final(self).hash_ring() == old(self).hash_ring(),
            match fresh_hit(old(self).cached(), (key@, ct), now_ms, old(self).settings()) {
                Some(hit) => {
                    &&& r matches Ok(x) && assignment_view(x) == hit
                    &&& final(self).cached() == old(self).cached()
                },
                None => {
                    match placed(old(self).hash_ring(), key@, ct, murmur2_of(key.spec_bytes(), 0), now_ms) {
                        Some(a) => {
                            &&& r matches Ok(x) && assignment_view(x) == a
                            &&& final(self).cached() == if old(self).settings().enable_cache {
                                key_insert(old(self).cached(), (key@, ct), (a, now_ms))
                            } else {
                                old(self).cached()
                            }
                        },
                        None => r == Err::<CoordinatorAssignment, CoordinatorError>(CoordinatorError::NoBrokersAvailable)
                            && final(self).cached() == old(self).cached(),
                    }
                },
            },
    {
        match self.fresh_cached(key, ct, now_ms) {
            Some(a) => Ok(a),
            None => {
                let h = hash_key(key);
                self.assign_from_hash(key, ct, h, now_ms)
            },
        }
    }

    /// Whether this broker coordinates (`key`, `ct`), placed as
    /// `find_coordinator` places it.
    pub fn is_coordinator_for(&mut self, key: &str, ct: CoordinatorType, now_ms: u64) -> (r: Result<bool, CoordinatorError>)
        requires
            old(self).wf(),
        ensures
            final(self).wf(),
            final(self).settings() == old(self).settings(),
            final(self).broker_id() == old(self).broker_id(),
            final(self).hash_ring() == old(self).hash_ring(),
            match fresh_hit(old(self).cached(), (key@, ct), now_ms, old(self).settings()) {
                Some(hit) => {
                    &&& r == Ok::<bool, CoordinatorError>(hit.2 == old(self).broker_id())
                    &&& final(self).cached() == old(self).cached()
                },
                None => {
                    match placed(old(self).hash_ring(), key@, ct, murmur2_of(key.spec_bytes(), 0), now_ms) {
                        Some(a) => {
                            &&& r == Ok::<bool, CoordinatorError>(a.2 == old(self).broker_id())
                            &&& final(self).cached() == if old(self).settings().enable_cache {
                                key_insert(old(self).cached(), (key@, ct), (a, now_ms))
                            } else {
                                old(self).cached()
                            }
                        },
                        None => r == Err::<bool, CoordinatorError>(CoordinatorError::NoBrokersAvailable)
                            && final(self).cached() == old(self).cached(),
                    }
                },
            },
    {
        match self.find_coordinator(key, ct, now_ms) {
            Ok(a) => Ok(a.broker_id == self.current_broker_id),
            Err(e) => Err(e),
        }
    }

    /// Reloads the broker list onto the ring; when the number of brokers
    /// changed, empties the cache. Returns whether it did.
    pub fn handle_broker_change(&mut self, brokers: Vec<BrokerMetadata>) -> (cleared: bool)
        requires
            old(self).wf(),
        ensures
            final(self).wf(),
            final(self).settings() == old(self).settings(),
            final(self).broker_id() == old(self).broker_id(),
            final(self).hash_ring().vnodes() == old(self).hash_ring().vnodes(),
            (final(self).hash_ring().positions(), final(self).hash_ring().members()) == joined(
                kept_positions(old(self).hash_ring().positions(), brokers@),
                kept_members(old(self).hash_ring().members(), brokers@),
                brokers@,
                old(self).hash_ring().vnodes(),
            ),
            cleared == (final(self).hash_ring().members().len() != old(self).hash_ring().members().len()),
            final(self).cached() == if cleared {
                Seq::<((Seq<char>, CoordinatorType), ((Seq<char>, CoordinatorType, i32, Seq<char>, i32, u64), u64))>::empty()
            } else {
                old(self).cached()
            },
    {
        let before = self.ring.broker_count();
        self.ring.update_brokers(brokers);
        let after = self.ring.broker_count();
        if before != after {
            self.cache.clear();
            assert(self.cached() =~= Seq::empty());
            true
        } else {
            false
        }
    }

    /// Brokers on the ring, cached placements, ring positions per broker.
    pub fn get_stats(&self) -> (st: CoordinatorStats)
        ensures
            st.total_brokers == self.hash_ring().members().len(),
            st.cached_assignments == self.cached().len(),
            st.virtual_nodes_per_broker == self.settings().virtual_nodes,
    {
        CoordinatorStats {
            total_brokers: self.ring.broker_count(),
            cached_assignments: self.cache.len(),
            virtual_nodes_per_broker: self.config.virtual_nodes,
        }
    }

    /// The groups this broker coordinates; none are tracked, so none.
    pub fn get_coordinated_groups(&self) -> (groups: Vec<String>)
        ensures
            groups@.len() == 0,
    {
        Vec::new()
    }

    /// Empties the cache.
    pub fn shutdown(&mut self)
        requires
            old(self).wf(),
        ensures
            final(self).wf(),
            final(self).settings() == old(self).settings(),
            final(self).broker_id() == old(self).broker_id(),
            final(self).hash_ring() == old(self).hash_ring(),
            final(self).cached().len() == 0,
    {
        self.cache.clear();
        assert(self.cached() =~= Seq::empty());
    }
}

proof fn lemma_contains_push<A>(s: Seq<A>, x: A)
    ensures
        forall|y: A| #[trigger] s.push(x).contains(y) <==> (s.contains(y) || y == x),
{
    assert forall|y: A| #[trigger] s.push(x).contains(y) <==> (s.contains(y) || y == x) by {
        if s.contains(y) {
            let k = choose|k: int| 0 <= k < s.len() && s[k] == y;
            assert(s.push(x)[k] == y);
        }
        if y == x {
            assert(s.push(x)[s.len() as int] == y);
        }
        if s.push(x).contains(y) && y != x {
            let k = choose|k: int| 0 <= k < s.len() + 1 && s.push(x)[k] == y;
            assert(s[k] == y);
        }
    }
}

proof fn lemma_first_unique(ring: Map<u32, i32>, from: u32)
    ensures
        forall|a: u32, b: u32| is_first_from(ring, from, a) && is_first_from(ring, from, b) ==> a == b,
{
    assert forall|a: u32, b: u32| is_first_from(ring, from, a) && is_first_from(ring, from, b) implies a == b by {
        assert(ring.contains_key(a) && ring.contains_key(b));
    }
}

proof fn lemma_first_exists(ring: Map<u32, i32>, from: u32, k0: u32)
    requires
        ring.contains_key(k0),
        k0 >= from,
    ensures
        exists|k: u32| is_first_from(ring, from, k),
    decreases k0,
{
    if forall|j: u32| #[trigger] ring.contains_key(j) && j >= from ==> k0 <= j {
        assert(is_first_from(ring, from, k0));
    } else {
        let j = choose|j: u32| #[trigger] ring.contains_key(j) && j >= from && !(k0 <= j);
        lemma_first_exists(ring, from, j);
    }
}

/// On a well-formed ring holding any position, every hash has an owner,
/// and the owner is on the ring.
pub proof fn lemma_every_hash_has_an_owner(ring: ConsistentHashRing, hash: u32)
    requires
        ring.wf(),
        exists|h: u32| ring.positions().contains_key(h),
    ensures
        owner_of(ring.positions(), hash) is Some,
        ring.members().contains_key(owner_of(ring.positions(), hash)->0),
{
    let m = ring.positions();
    let k0 = choose|h: u32| m.contains_key(h);
    lemma_first_exists(m, 0, k0);
    lemma_first_unique(m, hash);
    lemma_first_unique(m, 0);
}

/// Taking a broker off the ring moves only the hashes it owned: every
/// other hash keeps its owner.
pub proof fn lemma_removal_moves_only_its_hashes(ring: Map<u32, i32>, broker_id: i32, hash: u32)
    requires
        owner_of(ring, hash) != Some(broker_id),
    ensures
        owner_of(without_broker(ring, broker_id), hash) == owner_of(ring, hash),
{
    let r2 = without_broker(ring, broker_id);
    lemma_first_unique(ring, hash);
    lemma_first_unique(ring, 0);
    lemma_first_unique(r2, hash);
    lemma_first_unique(r2, 0);
    if exists|k: u32| is_first_from(ring, hash, k) {
        let k = choose|k: u32| is_first_from(ring, hash, k);
        assert(is_first_from(r2, hash, k));
    } else if exists|k: u32| is_first_from(ring, 0, k) {
        let k = choose|k: u32| is_first_from(ring, 0, k);
        assert(is_first_from(r2, 0, k));
        assert(!exists|j: u32| is_first_from(r2, hash, j)) by {
            if exists|j: u32| is_first_from(r2, hash, j) {
                let j = choose|j: u32| is_first_from(r2, hash, j);
                lemma_first_exists(ring, hash, j);
            }
        }
    } else {
        assert(!exists|j: u32| is_first_from(r2, hash, j)) by {
            if exists|j: u32| is_first_from(r2, hash, j) {
                let j = choose|j: u32| is_first_from(r2, hash, j);
                lemma_first_exists(ring, hash, j);
            }
        }
        assert(!exists|j: u32| is_first_from(r2, 0, j)) by {
            if exists|j: u32| is_first_from(r2, 0, j) {
                let j = choose|j: u32| is_first_from(r2, 0, j);
                lemma_first_exists(ring, 0, j);
            }
        }
    }
}

/// Giving a broker ring positions moves hashes only to it: every hash
/// keeps its owner or passes to the newcomer.
pub proof fn lemma_join_moves_hashes_only_to_newcomer(ring: Map<u32, i32>, hashes: Seq<u32>, broker_id: i32, hash: u32)
    ensures
        owner_of(with_positions(ring, hashes, broker_id), hash) == owner_of(ring, hash)
            || owner_of(with_positions(ring, hashes, broker_id), hash) == Some(broker_id),
{
    let r2 = with_positions(ring, hashes, broker_id);
    lemma_first_unique(ring, hash);
    lemma_first_unique(ring, 0);
    lemma_first_unique(r2, hash);
    lemma_first_unique(r2, 0);
    if exists|k: u32| is_first_from(r2, hash, k) {
        let k = choose|k: u32| is_first_from(r2, hash, k);
        if !hashes.contains(k) {
            lemma_first_exists(ring, hash, k);
            let k1 = choose|k1: u32| is_first_from(ring, hash, k1);
            assert(r2.contains_key(k1));
        }
    } else if exists|k: u32| is_first_from(r2, 0, k) {
        let k = choose|k: u32| is_first_from(r2, 0, k);
        assert(!exists|j: u32| is_first_from(ring, hash, j)) by {
            if exists|j: u32| is_first_from(ring, hash, j) {
                let j = choose|j: u32| is_first_from(ring, hash, j);
                lemma_first_exists(r2, hash, j);
            }
        }
        if !hashes.contains(k) {
            lemma_first_exists(ring, 0, k);
            let k1 = choose|k1: u32| is_first_from(ring, 0, k1);
            assert(r2.contains_key(k1));
        }
    } else {
        assert(!exists|j: u32| is_first_from(ring, hash, j)) by {
            if exists|j: u32| is_first_from(ring, hash, j) {
                let j = choose|j: u32| is_first_from(ring, hash, j);
                lemma_first_exists(r2, hash, j);
            }
        }
        assert(!exists|j: u32| is_first_from(ring, 0, j)) by {
            if exists|j: u32| is_first_from(ring, 0, j) {
                let j = choose|j: u32| is_first_from(ring, 0, j);
                lemma_first_exists(r2, 0, j);
            }
        }
    }
}

} // verus!
