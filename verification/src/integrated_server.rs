//! The broker's own decisions at start-up and on each connection: where a
//! partition's replicas go, which replica leads first, and in what order
//! responses leave a connection.
use vstd::prelude::*;
use crate::text::chars_of;
use crate::consumer_group::group::{key_index, key_insert, keys_unique, lemma_key_index, lemma_key_insert_unique};

verus! {

/// What the server reports about itself.
#[derive(Clone, Debug)]
pub struct ServerStats {
    pub node_id: i32,
    pub topics_count: usize,
    pub brokers_count: usize,
    pub advertised_address: String,
}

/// How many replicas a partition gets: the configured factor, at most one
/// per node.
pub open spec fn replica_count(node_count: nat, replication_factor: u32) -> nat {
    if (replication_factor as nat) < node_count { replication_factor as nat } else { node_count }
}

/// Round-robin placement: replica `i` of `partition` is node number
/// `(partition + i) % nodes.len()`.
pub open spec fn placement(partition: u32, nodes: Seq<u64>, replication_factor: u32) -> Seq<u64> {
    Seq::new(replica_count(nodes.len(), replication_factor), |i: int| nodes[(partition + i) % (nodes.len() as int)])
}

/// The replicas of `partition`: `min(replication_factor, nodes.len())`
/// nodes, taken round-robin from `nodes` starting at the partition's number.
pub fn round_robin_replicas(partition: u32, nodes: &Vec<u64>, replication_factor: u32) -> (r: Vec<u64>)
    ensures
        r@ == placement(partition, nodes@, replication_factor),
{
    let n = nodes.len();
    let rf: usize = if (replication_factor as usize) < n { replication_factor as usize } else { n };
    let mut r: Vec<u64> = Vec::new();
    let mut i: usize = 0;
    while i < rf
        invariant
            n == nodes@.len(),
            rf == replica_count(nodes@.len(), replication_factor),
            rf <= replication_factor,
            i <= rf,
            r@ =~= placement(partition, nodes@, replication_factor).take(i as int),
        decreases rf - i,
    {
        let idx = ((partition as u64 + i as u64) % (n as u64)) as usize;
        r.push(nodes[idx]);
        i += 1;
    }
    r
}

/// The first leader of a partition: `preferred` (the metadata leader) when
/// it is among the replicas, else the first replica.
pub open spec fn first_leader(replicas: Seq<u64>, preferred: u64) -> u64 {
    if replicas.contains(preferred) { preferred } else { replicas[0] }
}

/// Picks a new partition's first leader.
pub fn initial_leader(replicas: &Vec<u64>, preferred: u64) -> (r: u64)
    requires
        replicas@.len() > 0,
    ensures
        r == first_leader(replicas@, preferred),
{
    let mut i: usize = 0;
    while i < replicas.len()
        invariant
            i <= replicas@.len(),
            forall|j: int| 0 <= j < i ==> replicas@[j] != preferred,
        decreases replicas.len() - i,
    {
        if replicas[i] == preferred {
            assert(replicas@.contains(preferred));
            return preferred;
        }
        i += 1;
    }
    replicas[0]
}


// ----- response ordering on a connection -----

/// A response ready to be written: the sequence number of its request on the
/// connection, its correlation id and its bytes.
#[derive(Debug)]
pub struct PendingResponse {
    pub sequence: u64,
    pub correlation_id: i32,
    pub data: Vec<u8>,
}

/// A response as plain values: (sequence, (correlation id, bytes)).
pub open spec fn response_entry(p: PendingResponse) -> (u64, (i32, Seq<u8>)) {
    (p.sequence, (p.correlation_id, p.data@))
}

/// Responses as plain values.
pub open spec fn response_entries(s: Seq<PendingResponse>) -> Seq<(u64, (i32, Seq<u8>))> {
    s.map_values(|p: PendingResponse| response_entry(p))
}

/// An association list read as a map: each key to the value of its first
/// occurrence.
pub open spec fn as_map<V>(s: Seq<(u64, V)>) -> Map<u64, V> {
    Map::new(|k: u64| key_index(s, k) >= 0, |k: u64| s[key_index(s, k)].1)
}

/// `r` are the responses numbered `from`, `from + 1`, ... in order, each as
/// held in `m`.
pub open spec fn consecutive_from(r: Seq<(u64, (i32, Seq<u8>))>, m: Map<u64, (i32, Seq<u8>)>, from: u64) -> bool {
    forall|j: int| 0 <= j < r.len() ==> #[trigger] numbered(r[j], m, (from + j) as u64)
}

/// `e` is the response numbered `n`, as held in `m`.
pub open spec fn numbered(e: (u64, (i32, Seq<u8>)), m: Map<u64, (i32, Seq<u8>)>, n: u64) -> bool {
    m.contains_key(n) && e == (n, m[n])
}

/// What is still held after the responses numbered `from` up to (not
/// including) `to` were written.
pub open spec fn held_after(m: Map<u64, (i32, Seq<u8>)>, from: u64, to: int) -> Map<u64, (i32, Seq<u8>)> {
    Map::new(|k: u64| m.contains_key(k) && !(from <= k < to), |k: u64| m[k])
}

/// Writes a connection's responses in request order: responses may be
/// finished out of order, and each is held until every earlier one has been
/// written.
pub struct ResponseOrder {
    next_sequence: u64,
    pending: Vec<PendingResponse>,
}

pub proof fn lemma_unique_key_index<V>(s: Seq<(u64, V)>, j: int)
    requires
        keys_unique(s),
        0 <= j < s.len(),
    ensures
        key_index(s, s[j].0) == j,
{
    lemma_key_index(s, s[j].0);
}

proof fn lemma_as_map_insert<V>(s: Seq<(u64, V)>, k: u64, v: V)
    requires
        keys_unique(s),
    ensures
        as_map(key_insert(s, k, v)) =~= as_map(s).insert(k, v),
        keys_unique(key_insert(s, k, v)),
{
    let t = key_insert(s, k, v);
    lemma_key_index(s, k);
    lemma_key_insert_unique(s, k, v);
    assert forall|x: u64| #[trigger] as_map(t).contains_key(x) == as_map(s).insert(k, v).contains_key(x) by {
        lemma_key_index(s, x);
        lemma_key_index(t, x);
        if key_index(s, x) >= 0 {
            let j = key_index(s, x);
            assert(t[j].0 == x);
        }
        if key_index(t, x) >= 0 && x != k {
            let j = key_index(t, x);
            assert(j < s.len() && s[j].0 == x);
        }
        if x == k {
            if key_index(s, k) < 0 {
                assert(t[s.len() as int].0 == k);
            } else {
                assert(t[key_index(s, k)].0 == k);
            }
        }
    }
    assert forall|x: u64| #[trigger] as_map(t).contains_key(x) implies as_map(t)[x] == as_map(s).insert(k, v)[x] by {
        lemma_key_index(s, x);
        lemma_key_index(t, x);
        let j = key_index(t, x);
        if x == k {
            if key_index(s, k) < 0 {
                assert(t[s.len() as int].0 == k);
                lemma_unique_key_index(t, s.len() as int);
            } else {
                assert(t[key_index(s, k)].0 == k);
                lemma_unique_key_index(t, key_index(s, k));
            }
        } else {
            assert(j < s.len() && s[j].0 == x && t[j] == s[j]);
            lemma_unique_key_index(s, j);
        }
    }
}

proof fn lemma_as_map_remove<V>(s: Seq<(u64, V)>, i: int)
    requires
        keys_unique(s),
        0 <= i < s.len(),
    ensures
        as_map(s.remove(i)) =~= as_map(s).remove(s[i].0),
        keys_unique(s.remove(i)),
{
    let t = s.remove(i);
    let k = s[i].0;
    assert forall|a: int, b: int| 0 <= a < b < t.len() implies t[a].0 != t[b].0 by {
        let a2 = if a < i { a } else { a + 1 };
        let b2 = if b < i { b } else { b + 1 };
        assert(t[a] == s[a2] && t[b] == s[b2]);
    }
    assert forall|x: u64| #[trigger] as_map(t).contains_key(x) == as_map(s).remove(k).contains_key(x) by {
        lemma_key_index(s, x);
        lemma_key_index(t, x);
        if key_index(t, x) >= 0 {
            let j = key_index(t, x);
            let j2 = if j < i { j } else { j + 1 };
            assert(s[j2] == t[j]);
            assert(j2 != i);
        }
        if key_index(s, x) >= 0 && x != k {
            let j = key_index(s, x);
            assert(j != i);
            let j2 = if j < i { j } else { j - 1 };
            assert(t[j2] == s[j]);
        }
    }
    assert forall|x: u64| #[trigger] as_map(t).contains_key(x) implies as_map(t)[x] == as_map(s).remove(k)[x] by {
        lemma_key_index(t, x);
        let j = key_index(t, x);
        let j2 = if j < i { j } else { j + 1 };
        assert(s[j2] == t[j]);
        lemma_unique_key_index(s, j2);
    }
}

impl ResponseOrder {
    /// The sequence number of the next response to write.
    pub closed spec fn next(&self) -> u64 {
        self.next_sequence
    }

    /// The responses held, by sequence number.
    pub closed spec fn held(&self) -> Map<u64, (i32, Seq<u8>)> {
        as_map(response_entries(self.pending@))
    }

    /// Each sequence number held once, every one below `u64::MAX`.
    pub closed spec fn wf(&self) -> bool {
        &&& keys_unique(response_entries(self.pending@))
        &&& forall|i: int| 0 <= i < self.pending@.len() ==> (#[trigger] self.pending@[i]).sequence < u64::MAX
    }

    /// Nothing written or held yet; the first response is number 0.
    pub fn new() -> (o: Self)
        ensures
            o.wf(),
            o.next() == 0,
            o.held() == Map::<u64, (i32, Seq<u8>)>::empty(),
    {
        let o = ResponseOrder { next_sequence: 0, pending: Vec::new() };
        assert(o.held() =~= Map::<u64, (i32, Seq<u8>)>::empty());
        o
    }

    /// The sequence number of the next response to write.
    pub fn next_sequence(&self) -> (n: u64)
        ensures
            n == self.next(),
    {
        self.next_sequence
    }

    /// How many finished responses wait for an earlier one.
    pub fn pending_count(&self) -> (n: usize)
        requires
            self.wf(),
        ensures
            n == self.held().len(),
    {
        proof {
            self.lemma_held_len();
        }
        self.pending.len()
    }

    proof fn lemma_held_len(&self)
        requires
            self.wf(),
        ensures
            self.held().len() == self.pending@.len(),
            self.held().dom().finite(),
        decreases self.pending@.len(),
    {
        let s = response_entries(self.pending@);
        lemma_as_map_len(s);
    }

    fn position(&self, sequence: u64) -> (r: Option<usize>)
        requires
            self.wf(),
        ensures
            match r {
                Some(i) => i < self.pending@.len() && key_index(response_entries(self.pending@), sequence) == i,
                None => key_index(response_entries(self.pending@), sequence) < 0,
            },
    {
        let ghost s = response_entries(self.pending@);
        proof {
            lemma_key_index(s, sequence);
        }
        let mut i: usize = 0;
        while i < self.pending.len()
            invariant
                i <= self.pending@.len(),
                s == response_entries(self.pending@),
                s.len() == self.pending@.len(),
                keys_unique(s),
                forall|j: int| 0 <= j < i ==> s[j].0 != sequence,
                key_index(s, sequence) < 0 ==> forall|j: int| 0 <= j < s.len() ==> s[j].0 != sequence,
                key_index(s, sequence) >= 0 ==> s[key_index(s, sequence)].0 == sequence,
            decreases self.pending.len() - i,
        {
            assert(s[i as int] == response_entry(self.pending@[i as int]));
            if self.pending[i].sequence == sequence {
                proof {
                    lemma_unique_key_index(s, i as int);
                }
                return Some(i);
            }
            i += 1;
        }
        None
    }

    /// A response to request `sequence` is finished. It is held, replacing
    /// any held under that number, and then every held response from the
    /// next one to write onwards, without a gap, is released in order: these
    /// are to be written now.
    pub fn accept(&mut self, sequence: u64, correlation_id: i32, data: Vec<u8>) -> (ready: Vec<PendingResponse>)
        requires
            old(self).wf(),
            sequence < u64::MAX,
        ensures
            final(self).wf(),
            ({
                let m = old(self).held().insert(sequence, (correlation_id, data@));
                &&& final(self).next() == old(self).next() + ready@.len()
                &&& consecutive_from(response_entries(ready@), m, old(self).next())
                &&& !m.contains_key(final(self).next())
                &&& final(self).held() == held_after(m, old(self).next(), final(self).next() as int)
            }),
    {
        let ghost m = old(self).held().insert(sequence, (correlation_id, data@));
        let ghost n0 = self.next_sequence;
        let ghost v = (correlation_id, data@);
        proof {
            lemma_as_map_insert(response_entries(self.pending@), sequence, v);
        }
        match self.position(sequence) {
            Some(i) => {
                self.pending.set(i, PendingResponse { sequence, correlation_id, data });
                assert(response_entries(self.pending@) =~= key_insert(response_entries(old(self).pending@), sequence, v));
            },
            None => {
                self.pending.push(PendingResponse { sequence, correlation_id, data });
                assert(response_entries(self.pending@) =~= key_insert(response_entries(old(self).pending@), sequence, v));
            },
        }
        assert forall|i: int| 0 <= i < self.pending@.len() implies (#[trigger] self.pending@[i]).sequence < u64::MAX by {
            assert(response_entries(self.pending@)[i].0 == self.pending@[i].sequence);
            if self.pending@[i].sequence != sequence {
                let s0 = response_entries(old(self).pending@);
                lemma_key_index(s0, sequence);
                if key_index(s0, sequence) >= 0 {
                    assert(old(self).pending@[i].sequence == self.pending@[i].sequence);
                } else {
                    assert(i < old(self).pending@.len());
                    assert(old(self).pending@[i].sequence == self.pending@[i].sequence);
                }
            }
        }
        assert(self.held() =~= held_after(m, n0, n0 as int));
        let mut ready: Vec<PendingResponse> = Vec::new();
        loop
            invariant
                self.wf(),
                n0 == old(self).next(),
                self.next_sequence == n0 + ready@.len(),
                consecutive_from(response_entries(ready@), m, n0),
                self.held() == held_after(m, n0, self.next_sequence as int),
            ensures
                self.wf(),
                self.next_sequence == n0 + ready@.len(),
                consecutive_from(response_entries(ready@), m, n0),
                self.held() == held_after(m, n0, self.next_sequence as int),
                !m.contains_key(self.next_sequence),
            decreases self.pending@.len(),
        {
            let next = self.next_sequence;
            match self.position(next) {
                None => {
                    assert(!self.held().contains_key(next));
                    break;
                },
                Some(i) => {
                    let ghost s = response_entries(self.pending@);
                    let ghost before = self.pending@;
                    proof {
                        lemma_as_map_remove(s, i as int);
                        lemma_key_index(s, next);
                        assert(s[i as int] == response_entry(before[i as int]));
                        assert(as_map(s).contains_key(next));
                        assert(as_map(s)[next] == s[i as int].1);
                        assert(held_after(m, n0, next as int).contains_key(next));
                        assert(m.contains_key(next) && m[next] == s[i as int].1);
                    }
                    let e = self.pending.remove(i);
                    assert(response_entries(self.pending@) =~= s.remove(i as int));
                    assert forall|t: int| 0 <= t < self.pending@.len() implies (#[trigger] self.pending@[t]).sequence < u64::MAX by {
                        let t2 = if t < i { t } else { t + 1 };
                        assert(self.pending@[t] == before[t2]);
                    }
                    assert(e.sequence == next);
                    assert(m.contains_key(next) && m[next] == (e.correlation_id, e.data@));
                    let ghost rb = ready@;
                    ready.push(e);
                    self.next_sequence = next + 1;
                    assert(self.held() =~= held_after(m, n0, self.next_sequence as int));
                    proof {
                        assert(response_entries(ready@) =~= response_entries(rb).push(response_entry(e)));
                        lemma_consecutive_push(response_entries(rb), m, n0, response_entry(e));
                    }
                },
            }
        }
        ready
    }
}

proof fn lemma_consecutive_push(r: Seq<(u64, (i32, Seq<u8>))>, m: Map<u64, (i32, Seq<u8>)>, from: u64, x: (u64, (i32, Seq<u8>)))
    requires
        consecutive_from(r, m, from),
        from + r.len() <= u64::MAX,
        m.contains_key((from + r.len()) as u64),
        x == ((from + r.len()) as u64, m[(from + r.len()) as u64]),
    ensures
        consecutive_from(r.push(x), m, from),
{
    let t = r.push(x);
    assert forall|j: int| 0 <= j < t.len() implies #[trigger] numbered(t[j], m, (from + j) as u64) by {
        if j < r.len() {
            assert(t[j] == r[j]);
            assert(numbered(r[j], m, (from + j) as u64));
        }
    }
}

proof fn lemma_as_map_len<V>(s: Seq<(u64, V)>)
    requires
        keys_unique(s),
    ensures
        as_map(s).dom().finite(),
        as_map(s).len() == s.len(),
    decreases s.len(),
{
    if s.len() == 0 {
        assert(as_map(s).dom() =~= Set::<u64>::empty());
    } else {
        let last = (s.len() - 1) as int;
        lemma_as_map_remove(s, last);
        lemma_as_map_len(s.remove(last));
        lemma_unique_key_index(s, last);
        assert(as_map(s).contains_key(s[last].0));
        assert(as_map(s).dom() =~= as_map(s.remove(last)).dom().insert(s[last].0));
    }
}

// ----- the replication follower list -----

/// Whether `c` is white space as `char::is_whitespace` documents it: the
/// Unicode `White_Space` characters.
pub open spec fn is_white_space(c: char) -> bool {
    ||| '\u{9}' <= c <= '\u{d}'
    ||| c == ' '
    ||| c == '\u{85}'
    ||| c == '\u{a0}'
    ||| c == '\u{1680}'
    ||| '\u{2000}' <= c <= '\u{200a}'
    ||| c == '\u{2028}'
    ||| c == '\u{2029}'
    ||| c == '\u{202f}'
    ||| c == '\u{205f}'
    ||| c == '\u{3000}'
}

fn white_space(c: char) -> (b: bool)
    ensures
        b == is_white_space(c),
{
    ('\u{9}' <= c && c <= '\u{d}') || c == ' ' || c == '\u{85}' || c == '\u{a0}' || c == '\u{1680}'
        || ('\u{2000}' <= c && c <= '\u{200a}') || c == '\u{2028}' || c == '\u{2029}' || c == '\u{202f}'
        || c == '\u{205f}' || c == '\u{3000}'
}

/// Where `s[a..b]` starts once leading white space is trimmed.
pub open spec fn trim_lo(s: Seq<char>, a: int, b: int) -> int
    decreases b - a,
{
    if a < b && is_white_space(s[a]) { trim_lo(s, a + 1, b) } else { a }
}

/// Where `s[lo..b]` ends once trailing white space is trimmed.
pub open spec fn trim_hi(s: Seq<char>, lo: int, b: int) -> int
    decreases b - lo,
{
    if lo < b && is_white_space(s[b - 1]) { trim_hi(s, lo, b - 1) } else { b }
}

/// The entry `s[a..b]` gives: its text trimmed of white space at both
/// ends, none when that leaves nothing.
pub open spec fn entry_of(s: Seq<char>, a: int, b: int) -> Seq<Seq<char>> {
    let lo = trim_lo(s, a, b);
    let hi = trim_hi(s, lo, b);
    if lo < hi { seq![s.subrange(lo, hi)] } else { Seq::empty() }
}

/// The entries of a comma-separated list, scanning from `pos` with the
/// current entry starting at `start`.
pub open spec fn list_entries(s: Seq<char>, start: int, pos: int) -> Seq<Seq<char>>
    decreases s.len() - pos,
{
    if pos >= s.len() {
        entry_of(s, start, s.len() as int)
    } else if s[pos] == ',' {
        entry_of(s, start, pos) + list_entries(s, pos + 1, pos + 1)
    } else {
        list_entries(s, start, pos + 1)
    }
}

/// Strings as plain values.
pub open spec fn strings_view(v: Seq<String>) -> Seq<Seq<char>> {
    v.map_values(|x: String| x@)
}

fn trim_bounds(v: &Vec<char>, a: usize, b: usize) -> (r: (usize, usize))
    requires
        a <= b <= v@.len(),
    ensures
        r.0 == trim_lo(v@, a as int, b as int),
        r.1 == trim_hi(v@, r.0 as int, b as int),
        a <= r.0 <= r.1 <= b,
{
    let mut lo = a;
    while lo < b && white_space(v[lo])
        invariant
            a <= lo <= b <= v@.len(),
            trim_lo(v@, lo as int, b as int) == trim_lo(v@, a as int, b as int),
        decreases b - lo,
    {
        lo += 1;
    }
    let mut hi = b;
    while lo < hi && white_space(v[hi - 1])
        invariant
            lo <= hi <= b <= v@.len(),
            lo == trim_lo(v@, a as int, b as int),
            trim_hi(v@, lo as int, hi as int) == trim_hi(v@, lo as int, b as int),
        decreases hi - lo,
    {
        hi -= 1;
    }
    (lo, hi)
}

/// The followers named by a `CHRONIK_REPLICATION_FOLLOWERS` value: split on
/// commas, each entry trimmed of white space, empty entries dropped.
pub fn parse_replication_followers(value: &str) -> (r: Vec<String>)
    ensures
        strings_view(r@) == list_entries(value@, 0, 0),
{
    let v = chars_of(value);
    let ghost goal = list_entries(v@, 0, 0);
    let mut out: Vec<String> = Vec::new();
    let mut start: usize = 0;
    let mut pos: usize = 0;
    loop
        invariant
            v@ == value@,
            goal == list_entries(value@, 0, 0),
            start <= pos <= v@.len(),
            strings_view(out@) + list_entries(v@, start as int, pos as int) == goal,
        decreases v@.len() - pos,
    {
        if pos == v.len() || v[pos] == ',' {
            let (lo, hi) = trim_bounds(&v, start, pos);
            let ghost before = out@;
            if lo < hi {
                out.push(value.substring_char(lo, hi).to_owned());
                assert(strings_view(out@) =~= strings_view(before) + entry_of(v@, start as int, pos as int));
            } else {
                assert(strings_view(out@) =~= strings_view(before) + entry_of(v@, start as int, pos as int));
            }
            if pos == v.len() {
                assert(strings_view(out@) == goal);
                return out;
            }
            assert(strings_view(before) + (entry_of(v@, start as int, pos as int) + list_entries(v@, pos as int + 1, pos as int + 1))
                =~= strings_view(out@) + list_entries(v@, pos as int + 1, pos as int + 1));
            pos += 1;
            start = pos;
        } else {
            pos += 1;
        }
    }
}

} // verus!
