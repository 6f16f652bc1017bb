//! How the requests the broker parses itself are laid out on the wire,
//! written as encoders, and the laws that the parsers of
//! `kafka_request` read back exactly what the encoders lay out.
use vstd::prelude::*;
use vstd::utf8::{decode_utf8, encode_utf8, encode_utf8_decode_utf8, encode_utf8_valid_utf8, valid_utf8};
use crate::wire::{be_i16, be_i32, read_be_i64, u32_of_be, lemma_read_be_i16, lemma_read_be_i32};
use crate::kafka_request::{
    PartitionView, Scan, TopicView, checked_count_at, compact_string_at, count_at, i16_at, i32_at, i64_at,
    i8_at, list_offsets_header_at, list_offsets_request, metadata_count_at, metadata_names_from,
    metadata_request, metadata_topics_at, some_names, with_allow, partition_at, partition_fields_at, partitions_at,
    partitions_from, skip_tagged_from, string_at, tagged_fields_at, text_at, then_tagged, topic_at,
    topics_at, topics_from, uvarint_at, uvarint_from,
};

verus! {

// ----- primitive fields -----

/// `x` lies in `b` from `p`.
pub open spec fn lays(b: Seq<u8>, p: int, x: Seq<u8>) -> bool {
    0 <= p && p + x.len() <= b.len() && b.subrange(p, p + x.len()) == x
}

pub proof fn lemma_lays_split(b: Seq<u8>, p: int, x: Seq<u8>, y: Seq<u8>)
    requires
        lays(b, p, x + y),
    ensures
        lays(b, p, x),
        lays(b, p + x.len(), y),
{
    assert(b.subrange(p, p + x.len()) =~= x) by {
        assert forall|i: int| 0 <= i < x.len() implies b.subrange(p, p + x.len())[i] == x[i] by {
            assert(b.subrange(p, p + x.len() + y.len())[i] == (x + y)[i]);
        }
    }
    assert(b.subrange(p + x.len(), p + x.len() + y.len()) =~= y) by {
        assert forall|i: int| 0 <= i < y.len() implies b.subrange(p + x.len(), p + x.len() + y.len())[i] == y[i] by {
            assert(b.subrange(p, p + x.len() + y.len())[x.len() + i] == (x + y)[x.len() + i]);
        }
    }
}

/// The eight bytes of `n` in network (big-endian) order.
pub open spec fn be_i64(n: i64) -> Seq<u8> {
    be_i32((((n as u64) >> 32u64) as u32) as i32) + be_i32(((n as u64) as u32) as i32)
}

/// A one-byte unsigned varint: `c` below 128.
pub open spec fn small_uvarint(c: nat) -> Seq<u8> {
    seq![c as u8]
}

/// The bytes of a string: an `i16` length, or in flexible versions a
/// one-byte varint holding the length plus one, then its UTF-8 bytes.
pub open spec fn string_bytes(s: Seq<char>, flexible: bool) -> Seq<u8> {
    if flexible {
        small_uvarint((encode_utf8(s).len() + 1) as nat) + encode_utf8(s)
    } else {
        be_i16(encode_utf8(s).len() as i16) + encode_utf8(s)
    }
}

/// An empty tagged-field section in flexible versions; nothing before.
pub open spec fn tag_bytes(flexible: bool) -> Seq<u8> {
    if flexible { seq![0u8] } else { Seq::empty() }
}

/// An array count: an `i32`, or in flexible versions a one-byte varint
/// holding the count plus one.
pub open spec fn count_bytes(n: nat, flexible: bool) -> Seq<u8> {
    if flexible { small_uvarint(n + 1) } else { be_i32(n as i32) }
}

/// What the one-byte encodings can carry: fewer than 127 items, names of
/// fewer than 127 bytes.
pub open spec fn small_name(s: Seq<char>) -> bool {
    encode_utf8(s).len() < 127
}

pub proof fn lemma_i16_laid(b: Seq<u8>, p: int, n: i16)
    requires
        lays(b, p, be_i16(n)),
    ensures
        i16_at(b, p) == Scan::Value(n, p + 2),
{
    lemma_read_be_i16(b, p, n);
}

pub proof fn lemma_i32_laid(b: Seq<u8>, p: int, n: i32)
    requires
        lays(b, p, be_i32(n)),
    ensures
        i32_at(b, p) == Scan::Value(n, p + 4),
{
    lemma_read_be_i32(b, p, n);
}

proof fn lemma_u32_of_i32(u: u32, n: i32)
    requires
        u as i32 == n,
    ensures
        u == n as u32,
{
    assert(u as i32 == n ==> u == n as u32) by (bit_vector);
}

pub proof fn lemma_i64_laid(b: Seq<u8>, p: int, n: i64)
    requires
        lays(b, p, be_i64(n)),
    ensures
        i64_at(b, p) == Scan::Value(n, p + 8),
{
    let hi = (((n as u64) >> 32u64) as u32) as i32;
    let lo = ((n as u64) as u32) as i32;
    lemma_lays_split(b, p, be_i32(hi), be_i32(lo));
    lemma_read_be_i32(b, p, hi);
    lemma_read_be_i32(b, p + 4, lo);
    let uh = u32_of_be(b[p], b[p + 1], b[p + 2], b[p + 3]);
    let ul = u32_of_be(b[p + 4], b[p + 5], b[p + 6], b[p + 7]);
    lemma_u32_of_i32(uh, hi);
    lemma_u32_of_i32(ul, lo);
    assert((((((((((n as u64) >> 32u64) as u32) as i32) as u32) as u64) << 32u64) | (((((n as u64) as u32) as i32) as u32) as u64)) as i64) == n) by (bit_vector);
    assert(read_be_i64(b, p) == ((uh as u64) << 32u64 | (ul as u64)) as i64);
}

pub proof fn lemma_i8_laid(b: Seq<u8>, p: int, v: i8)
    requires
        lays(b, p, seq![v as u8]),
    ensures
        i8_at(b, p) == Scan::Value(v, p + 1),
{
    assert(b[p] == b.subrange(p, p + 1)[0]);
    assert((v as u8) as i8 == v) by (bit_vector);
}

pub proof fn lemma_small_uvarint_laid(b: Seq<u8>, p: int, c: nat)
    requires
        c < 128,
        lays(b, p, small_uvarint(c)),
    ensures
        uvarint_at(b, p) == Scan::Value(c as u32, p + 1),
{
    let byte = b[p];
    assert(byte == b.subrange(p, p + 1)[0]);
    assert(byte == c as u8);
    assert(byte < 128);
    assert(byte < 128u8 ==> byte & 0x80u8 == 0) by (bit_vector);
    assert(byte < 128u8 ==> (0u32 | (((byte & 0x7fu8) as u32) << 0u32)) == byte as u32) by (bit_vector);
    assert((7 * 0nat) as u32 == 0u32);
}

pub proof fn lemma_string_laid(b: Seq<u8>, p: int, s: Seq<char>, flexible: bool)
    requires
        small_name(s),
        lays(b, p, string_bytes(s, flexible)),
    ensures
        (if flexible { compact_string_at(b, p) } else { string_at(b, p) })
            == Scan::Value(Some(s), p + string_bytes(s, flexible).len()),
{
    let e = encode_utf8(s);
    encode_utf8_valid_utf8(s);
    encode_utf8_decode_utf8(s);
    if flexible {
        lemma_lays_split(b, p, small_uvarint((e.len() + 1) as nat), e);
        lemma_small_uvarint_laid(b, p, (e.len() + 1) as nat);
        assert(b.subrange(p + 1, p + 1 + e.len()) == e);
    } else {
        lemma_lays_split(b, p, be_i16(e.len() as i16), e);
        lemma_i16_laid(b, p, e.len() as i16);
        assert(b.subrange(p + 2, p + 2 + e.len()) == e);
    }
}

pub proof fn lemma_tag_laid<T>(b: Seq<u8>, v: T, q: int, flexible: bool)
    requires
        lays(b, q, tag_bytes(flexible)),
    ensures
        then_tagged(b, Scan::Value(v, q), flexible) == Scan::Value(v, q + tag_bytes(flexible).len()),
{
    if flexible {
        lemma_small_uvarint_laid(b, q, 0);
        assert(small_uvarint(0) == seq![0u8]);
        assert(skip_tagged_from(b, q + 1, 0) == Scan::<()>::Value((), q + 1));
    }
}

pub proof fn lemma_count_laid(b: Seq<u8>, p: int, n: nat, flexible: bool)
    requires
        n < 127,
        lays(b, p, count_bytes(n, flexible)),
    ensures
        checked_count_at(b, p, flexible) == Scan::Value(n as i32, p + count_bytes(n, flexible).len()),
{
    if flexible {
        lemma_small_uvarint_laid(b, p, n + 1);
    } else {
        lemma_i32_laid(b, p, n as i32);
    }
}

// ----- ListOffsets -----

/// A ListOffsets partition of version `v`: its index, then in version 0
/// a timestamp and a maximum number of offsets (1), from version 1 the
/// current leader epoch (from version 4) and a timestamp; a tagged-field
/// section from version 6.
pub open spec fn lo_partition_bytes(x: PartitionView, v: i16) -> Seq<u8> {
    be_i32(x.0) + (if v == 0 {
        be_i64(x.2) + be_i32(1)
    } else {
        (if v >= 4 { be_i32(x.1) } else { Seq::empty() }) + be_i64(x.2)
    }) + tag_bytes(v >= 6)
}

/// What a ListOffsets partition of version `v` carries: its index, its
/// leader epoch from version 4 (-1 before), its timestamp.
pub open spec fn lo_partition_read(x: PartitionView, v: i16) -> PartitionView {
    (x.0, if v >= 4 { x.1 } else { -1i32 }, x.2)
}

pub open spec fn lo_partitions_bytes(ps: Seq<PartitionView>, v: i16) -> Seq<u8>
    decreases ps.len(),
{
    if ps.len() == 0 { Seq::empty() } else { lo_partition_bytes(ps[0], v) + lo_partitions_bytes(ps.drop_first(), v) }
}

pub open spec fn lo_partitions_read(ps: Seq<PartitionView>, v: i16) -> Seq<PartitionView>
    decreases ps.len(),
{
    if ps.len() == 0 { Seq::empty() } else { seq![lo_partition_read(ps[0], v)] + lo_partitions_read(ps.drop_first(), v) }
}

/// A ListOffsets topic of version `v`: its name (compact from version 6),
/// its partition count and partitions, and a tagged-field section from
/// version 6.
pub open spec fn lo_topic_bytes(t: TopicView, v: i16) -> Seq<u8> {
    string_bytes(t.0, v >= 6) + count_bytes(t.1.len(), v >= 6) + lo_partitions_bytes(t.1, v) + tag_bytes(v >= 6)
}

pub open spec fn lo_topic_read(t: TopicView, v: i16) -> TopicView {
    (t.0, lo_partitions_read(t.1, v))
}

pub open spec fn lo_topics_bytes(ts: Seq<TopicView>, v: i16) -> Seq<u8>
    decreases ts.len(),
{
    if ts.len() == 0 { Seq::empty() } else { lo_topic_bytes(ts[0], v) + lo_topics_bytes(ts.drop_first(), v) }
}

pub open spec fn lo_topics_read(ts: Seq<TopicView>, v: i16) -> Seq<TopicView>
    decreases ts.len(),
{
    if ts.len() == 0 { Seq::empty() } else { seq![lo_topic_read(ts[0], v)] + lo_topics_read(ts.drop_first(), v) }
}

/// A ListOffsets request body of version `v`: the replica id, the
/// isolation level (one byte, from version 2), the topic count and topics,
/// and a tagged-field section from version 6.
pub open spec fn list_offsets_bytes(replica_id: i32, isolation_level: i8, topics: Seq<TopicView>, v: i16) -> Seq<u8> {
    be_i32(replica_id) + (if v >= 2 { seq![isolation_level as u8] } else { Seq::empty() })
        + count_bytes(topics.len(), v >= 6) + lo_topics_bytes(topics, v) + tag_bytes(v >= 6)
}

/// A request the one-byte encodings can carry: fewer than 127 topics, each
/// with a name under 127 bytes and fewer than 127 partitions.
pub open spec fn small_topics(topics: Seq<TopicView>) -> bool {
    &&& topics.len() < 127
    &&& forall|i: int| 0 <= i < topics.len() ==> small_name(#[trigger] topics[i].0) && topics[i].1.len() < 127
}

proof fn lemma_lo_partition_laid(b: Seq<u8>, p: int, x: PartitionView, v: i16)
    requires
        lays(b, p, lo_partition_bytes(x, v)),
    ensures
        partition_at(b, p, v >= 6, v) == Scan::Value(lo_partition_read(x, v), p + lo_partition_bytes(x, v).len()),
{
    let mid = if v == 0 {
        be_i64(x.2) + be_i32(1)
    } else {
        (if v >= 4 { be_i32(x.1) } else { Seq::empty() }) + be_i64(x.2)
    };
    lemma_lays_split(b, p, be_i32(x.0) + mid, tag_bytes(v >= 6));
    lemma_lays_split(b, p, be_i32(x.0), mid);
    lemma_i32_laid(b, p, x.0);
    let q = p + 4;
    if v == 0 {
        lemma_lays_split(b, q, be_i64(x.2), be_i32(1));
        lemma_i64_laid(b, q, x.2);
        lemma_i32_laid(b, q + 8, 1);
    } else {
        let e: Seq<u8> = if v >= 4 { be_i32(x.1) } else { Seq::empty() };
        lemma_lays_split(b, q, e, be_i64(x.2));
        if v >= 4 {
            lemma_i32_laid(b, q, x.1);
        }
        lemma_i64_laid(b, q + e.len(), x.2);
    }
    lemma_tag_laid(b, lo_partition_read(x, v), p + 4 + mid.len(), v >= 6);
}

proof fn lemma_lo_partitions_laid(b: Seq<u8>, p: int, ps: Seq<PartitionView>, v: i16, acc: Seq<PartitionView>)
    requires
        lays(b, p, lo_partitions_bytes(ps, v)),
    ensures
        partitions_from(b, p, ps.len() as int, v >= 6, v, acc)
            == Scan::Value(acc + lo_partitions_read(ps, v), p + lo_partitions_bytes(ps, v).len()),
    decreases ps.len(),
{
    if ps.len() == 0 {
        assert(acc + lo_partitions_read(ps, v) =~= acc);
    } else {
        let x = ps[0];
        let rest = ps.drop_first();
        lemma_lays_split(b, p, lo_partition_bytes(x, v), lo_partitions_bytes(rest, v));
        lemma_lo_partition_laid(b, p, x, v);
        let q = p + lo_partition_bytes(x, v).len();
        lemma_lo_partitions_laid(b, q, rest, v, acc.push(lo_partition_read(x, v)));
        assert(acc.push(lo_partition_read(x, v)) + lo_partitions_read(rest, v) =~= acc + lo_partitions_read(ps, v));
    }
}

proof fn lemma_lo_topic_laid(b: Seq<u8>, p: int, t: TopicView, v: i16)
    requires
        small_name(t.0),
        t.1.len() < 127,
        lays(b, p, lo_topic_bytes(t, v)),
    ensures
        topic_at(b, p, v >= 6, v) == Scan::Value(lo_topic_read(t, v), p + lo_topic_bytes(t, v).len()),
{
    reveal(topic_at);
    let f = v >= 6;
    let nb = string_bytes(t.0, f);
    let cb = count_bytes(t.1.len(), f);
    let pb = lo_partitions_bytes(t.1, v);
    lemma_lays_split(b, p, nb + cb + pb, tag_bytes(f));
    lemma_lays_split(b, p, nb + cb, pb);
    lemma_lays_split(b, p, nb, cb);
    lemma_string_laid(b, p, t.0, f);
    lemma_count_laid(b, p + nb.len(), t.1.len(), f);
    lemma_lo_partitions_laid(b, p + nb.len() + cb.len(), t.1, v, Seq::empty());
    assert(Seq::<PartitionView>::empty() + lo_partitions_read(t.1, v) =~= lo_partitions_read(t.1, v));
    lemma_tag_laid(b, lo_topic_read(t, v), p + nb.len() + cb.len() + pb.len(), f);
}

proof fn lemma_lo_topics_laid(b: Seq<u8>, p: int, ts: Seq<TopicView>, v: i16, acc: Seq<TopicView>)
    requires
        small_topics(ts),
        lays(b, p, lo_topics_bytes(ts, v)),
    ensures
        topics_from(b, p, ts.len() as int, v >= 6, v, acc)
            == Scan::Value(acc + lo_topics_read(ts, v), p + lo_topics_bytes(ts, v).len()),
    decreases ts.len(),
{
    if ts.len() == 0 {
        assert(acc + lo_topics_read(ts, v) =~= acc);
    } else {
        let t = ts[0];
        let rest = ts.drop_first();
        assert(small_name(t.0) && t.1.len() < 127);
        assert(small_topics(rest)) by {
            assert forall|i: int| 0 <= i < rest.len() implies small_name(#[trigger] rest[i].0) && rest[i].1.len() < 127 by {
                assert(rest[i] == ts[i + 1]);
            }
        }
        lemma_lays_split(b, p, lo_topic_bytes(t, v), lo_topics_bytes(rest, v));
        lemma_lo_topic_laid(b, p, t, v);
        let q = p + lo_topic_bytes(t, v).len();
        lemma_lo_topics_laid(b, q, rest, v, acc.push(lo_topic_read(t, v)));
        assert(acc.push(lo_topic_read(t, v)) + lo_topics_read(rest, v) =~= acc + lo_topics_read(ts, v));
    }
}

/// Reading a ListOffsets request of any version gives back what it was
/// written with: the replica id; the isolation level from version 2 (0
/// before); each topic with its partitions in order, a partition's leader
/// epoch from version 4 (-1 before).
pub proof fn lemma_list_offsets_round_trip(replica_id: i32, isolation_level: i8, topics: Seq<TopicView>, v: i16)
    requires
        small_topics(topics),
    ensures
        list_offsets_request(list_offsets_bytes(replica_id, isolation_level, topics, v), v) == Scan::Value(
            (replica_id, if v >= 2 { isolation_level } else { 0i8 }, lo_topics_read(topics, v)),
            list_offsets_bytes(replica_id, isolation_level, topics, v).len() as int,
        ),
{
    let f = v >= 6;
    let b = list_offsets_bytes(replica_id, isolation_level, topics, v);
    let rb = be_i32(replica_id);
    let ib: Seq<u8> = if v >= 2 { seq![isolation_level as u8] } else { Seq::empty() };
    let cb = count_bytes(topics.len(), f);
    let tb = lo_topics_bytes(topics, v);
    assert(lays(b, 0, b)) by {
        assert(b.subrange(0, b.len() as int) =~= b);
    }
    lemma_lays_split(b, 0, rb + ib + cb + tb, tag_bytes(f));
    lemma_lays_split(b, 0, rb + ib + cb, tb);
    lemma_lays_split(b, 0, rb + ib, cb);
    lemma_lays_split(b, 0, rb, ib);
    lemma_i32_laid(b, 0, replica_id);
    if v >= 2 {
        lemma_i8_laid(b, 4, isolation_level);
    }
    let q: int = 4int + ib.len();
    assert(list_offsets_header_at(b, 0, v) == Scan::Value((replica_id, if v >= 2 { isolation_level } else { 0i8 }), q));
    lemma_count_laid(b, q, topics.len(), f);
    lemma_lo_topics_laid(b, q + cb.len(), topics, v, Seq::empty());
    assert(Seq::<TopicView>::empty() + lo_topics_read(topics, v) =~= lo_topics_read(topics, v));
    lemma_tag_laid(b, lo_topics_read(topics, v), q + cb.len() + tb.len(), f);
}

// ----- Metadata -----

/// A requested topic of a Metadata request of version `v`: from version 10
/// a 16-byte topic id (here zero), its name (compact from version 9), and
/// a tagged-field section from version 9.
pub open spec fn md_topic_bytes(name: Seq<char>, v: i16) -> Seq<u8> {
    (if v >= 10 { Seq::new(16, |i: int| 0u8) } else { Seq::empty() }) + string_bytes(name, v >= 9) + tag_bytes(v >= 9)
}

pub open spec fn md_topics_bytes(names: Seq<Seq<char>>, v: i16) -> Seq<u8>
    decreases names.len(),
{
    if names.len() == 0 { Seq::empty() } else { md_topic_bytes(names[0], v) + md_topics_bytes(names.drop_first(), v) }
}

/// A Metadata request body of version `v` naming `names`: the topic count
/// (a one-byte varint of the count plus one from version 9) and the topics,
/// then from version 4 the auto-creation flag (one byte).
pub open spec fn metadata_bytes(names: Seq<Seq<char>>, allow_auto_creation: bool, v: i16) -> Seq<u8> {
    count_bytes(names.len(), v >= 9) + md_topics_bytes(names, v)
        + (if v >= 4 { seq![if allow_auto_creation { 1u8 } else { 0u8 }] } else { Seq::empty() })
}

/// Names the one-byte encodings can carry: fewer than 127, each under 127
/// bytes.
pub open spec fn small_names(names: Seq<Seq<char>>) -> bool {
    &&& names.len() < 127
    &&& forall|i: int| 0 <= i < names.len() ==> small_name(#[trigger] names[i])
}

proof fn lemma_md_topics_laid(b: Seq<u8>, p: int, names: Seq<Seq<char>>, v: i16, acc: Seq<Seq<char>>)
    requires
        small_names(names),
        lays(b, p, md_topics_bytes(names, v)),
    ensures
        metadata_names_from(b, p, names.len() as int, v >= 9, v, acc)
            == Scan::Value(acc + names, p + md_topics_bytes(names, v).len()),
    decreases names.len(),
{
    if names.len() == 0 {
        assert(acc + names =~= acc);
    } else {
        let f = v >= 9;
        let n = names[0];
        let rest = names.drop_first();
        assert(small_name(n));
        assert(small_names(rest)) by {
            assert forall|i: int| 0 <= i < rest.len() implies small_name(#[trigger] rest[i]) by {
                assert(rest[i] == names[i + 1]);
            }
        }
        let id: Seq<u8> = if v >= 10 { Seq::new(16, |i: int| 0u8) } else { Seq::empty() };
        let sb = string_bytes(n, f);
        let tb = tag_bytes(f);
        lemma_lays_split(b, p, md_topic_bytes(n, v), md_topics_bytes(rest, v));
        lemma_lays_split(b, p, id + sb, tb);
        lemma_lays_split(b, p, id, sb);
        lemma_string_laid(b, p + id.len(), n, f);
        lemma_tag_laid(b, (), p + id.len() + sb.len(), f);
        lemma_md_topics_laid(b, p + md_topic_bytes(n, v).len(), rest, v, acc.push(n));
        assert(acc.push(n) + rest =~= acc + names);
    }
}

/// Reading a Metadata request of version 1 on gives back the names it was
/// written with, in order, and from version 4 its auto-creation flag
/// (allowed before); a topic id precedes each name only from version 10.
pub proof fn lemma_metadata_round_trip(names: Seq<Seq<char>>, allow_auto_creation: bool, v: i16)
    requires
        v >= 1,
        small_names(names),
    ensures
        metadata_request(metadata_bytes(names, allow_auto_creation, v), v) == Scan::Value(
            (Some(names), if v >= 4 { allow_auto_creation } else { true }),
            metadata_bytes(names, allow_auto_creation, v).len() as int,
        ),
{
    let f = v >= 9;
    let b = metadata_bytes(names, allow_auto_creation, v);
    let cb = count_bytes(names.len(), f);
    let tb = md_topics_bytes(names, v);
    let ab: Seq<u8> = if v >= 4 { seq![if allow_auto_creation { 1u8 } else { 0u8 }] } else { Seq::empty() };
    assert(lays(b, 0, b)) by {
        assert(b.subrange(0, b.len() as int) =~= b);
    }
    lemma_lays_split(b, 0, cb + tb, ab);
    lemma_lays_split(b, 0, cb, tb);
    if f {
        lemma_small_uvarint_laid(b, 0, names.len() + 1);
    } else {
        lemma_i32_laid(b, 0, names.len() as i32);
    }
    assert(metadata_count_at(b, 0, f) == Scan::Value(names.len() as i32, cb.len() as int));
    lemma_md_topics_laid(b, cb.len() as int, names, v, Seq::empty());
    assert(Seq::<Seq<char>>::empty() + names =~= names);
    let q: int = (cb.len() + tb.len()) as int;
    assert(metadata_topics_at(b, v) == Scan::Value(Some(names), q));
    if v >= 4 {
        let x: i8 = if allow_auto_creation { 1i8 } else { 0i8 };
        assert(seq![x as u8] == ab);
        lemma_i8_laid(b, q, x);
    }
}

} // verus!
