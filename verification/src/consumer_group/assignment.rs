//! The member-assignment wire format of the consumer protocol (versions 0-3):
//!
//! `version: i16, topic_count: i32, { name_len: i16, name: utf8,
//! partition_count: i32, partition: i32 * }, user_data_len: i32, user_data`,
//! all integers big-endian. Encoding writes version 0, partitions in
//! ascending order and empty user data.
use vstd::prelude::*;
use vstd::utf8::{decode_utf8, encode_utf8, encode_utf8_decode_utf8, encode_utf8_valid_utf8, valid_utf8};
use crate::wire::{be_i16, be_i32, get_i16, get_i32, put_i16, put_i32, read_be_i16, read_be_i32, lemma_read_be_i16, lemma_read_be_i32};
use crate::sorting::{sorted_copy, sorted_i32s};
use crate::consumer_group::group::{Assignment, key_index, key_insert, keys_unique, lemma_key_index, lemma_key_insert_unique, topic_view};

verus! {

/// The field a truncated assignment ran out of bytes in.
#[derive(Clone, Copy, Debug, PartialEq, Eq, Structural)]
pub enum AssignmentField {
    Version,
    TopicCount,
    TopicLength,
    TopicName,
    PartitionCount,
    Partition,
    UserDataLength,
    UserData,
}

/// Why an assignment could not be decoded.
#[derive(Clone, Copy, Debug, PartialEq, Eq, Structural)]
pub enum DecodeError {
    /// The bytes end inside this field.
    Truncated(AssignmentField),
    /// A version outside 0..=3.
    UnsupportedVersion(i16),
    /// A topic name that is not UTF-8.
    InvalidTopicName,
}

// ----- encoding -----

/// The big-endian bytes of each partition, in order.
pub open spec fn partitions_bytes(ps: Seq<i32>) -> Seq<u8>
    decreases ps.len(),
{
    if ps.len() == 0 {
        Seq::empty()
    } else {
        partitions_bytes(ps.drop_last()) + be_i32(ps.last())
    }
}

/// One topic entry: name length, name, partition count, sorted partitions.
pub open spec fn topic_entry_bytes(t: (Seq<char>, Seq<i32>)) -> Seq<u8> {
    be_i16(encode_utf8(t.0).len() as i16) + encode_utf8(t.0) + be_i32(t.1.len() as i32)
        + partitions_bytes(sorted_i32s(t.1))
}

/// The topic entries, in order.
pub open spec fn topics_bytes(a: Seq<(Seq<char>, Seq<i32>)>) -> Seq<u8>
    decreases a.len(),
{
    if a.len() == 0 {
        Seq::empty()
    } else {
        topics_bytes(a.drop_last()) + topic_entry_bytes(a.last())
    }
}

/// The encoding of an assignment: version 0, the topic count, the topics,
/// and an empty user-data field.
pub open spec fn encoded_assignment(a: Seq<(Seq<char>, Seq<i32>)>) -> Seq<u8> {
    be_i16(0) + be_i32(a.len() as i32) + topics_bytes(a) + be_i32(0)
}

fn push_bytes(buf: &mut Vec<u8>, src: &[u8])
    ensures
        final(buf)@ == old(buf)@ + src@,
{
    let mut i: usize = 0;
    while i < src.len()
        invariant
            i <= src@.len(),
            buf@ == old(buf)@ + src@.take(i as int),
        decreases src.len() - i,
    {
        buf.push(src[i]);
        i += 1;
        assert(buf@ =~= old(buf)@ + src@.take(i as int));
    }
    assert(src@.take(src@.len() as int) == src@);
}

/// Encodes an assignment in the consumer-protocol format (version 0).
/// Decoding the bytes gives the assignment back, each topic's partitions in
/// ascending order, whenever its counts and name lengths fit the format.
pub fn encode_assignment(assignment: &Assignment) -> (bytes: Vec<u8>)
    ensures
        bytes@ == encoded_assignment(assignment@),
        encodable(assignment@) ==> !decode_stops(bytes@)
            && decode_outcome(bytes@) == Ok::<_, Option<DecodeError>>(with_sorted_partitions(assignment@)),
{
    proof {
        assignment.lemma_view();
        use_type_invariant(assignment);
        if encodable(assignment@) {
            lemma_decode_encoded(assignment@);
        }
    }
    let mut bytes: Vec<u8> = Vec::new();
    put_i16(&mut bytes, 0);
    put_i32(&mut bytes, assignment.topics.len() as i32);
    let ghost head = bytes@;
    let mut i: usize = 0;
    while i < assignment.topics.len()
        invariant
            i <= assignment.topics@.len(),
            assignment@ == assignment.topics_view(),
            assignment@.len() == assignment.topics@.len(),
            head == be_i16(0) + be_i32(assignment@.len() as i32),
            bytes@ == head + topics_bytes(assignment@.take(i as int)),
        decreases assignment.topics.len() - i,
    {
        let t = &assignment.topics[i];
        assert(assignment@[i as int] == topic_view(assignment.topics@[i as int]));
        let ghost before = bytes@;
        let name = t.topic.as_str().as_bytes();
        put_i16(&mut bytes, name.len() as i16);
        push_bytes(&mut bytes, name);
        put_i32(&mut bytes, t.partitions.len() as i32);
        let sorted = sorted_copy(&t.partitions);
        let ghost mid = bytes@;
        let mut j: usize = 0;
        while j < sorted.len()
            invariant
                j <= sorted@.len(),
                bytes@ == mid + partitions_bytes(sorted@.take(j as int)),
            decreases sorted.len() - j,
        {
            put_i32(&mut bytes, sorted[j]);
            proof {
                assert(sorted@.take(j as int + 1).drop_last() == sorted@.take(j as int));
            }
            j += 1;
        }
        proof {
            assert(sorted@.take(sorted@.len() as int) == sorted@);
            assert(bytes@ == before + topic_entry_bytes(assignment@[i as int]));
            assert(assignment@.take(i as int + 1).drop_last() == assignment@.take(i as int));
        }
        i += 1;
    }
    proof {
        assert(assignment@.take(assignment@.len() as int) == assignment@);
    }
    put_i32(&mut bytes, 0);
    bytes
}


// ----- decoding -----

/// Reads `n` partitions from `pos` onto `acc`; the result and the position
/// after them.
pub open spec fn parse_partitions(b: Seq<u8>, pos: int, n: int, acc: Seq<i32>) -> Result<(Seq<i32>, int), DecodeError>
    decreases n,
{
    if n <= 0 {
        Ok((acc, pos))
    } else if pos + 4 > b.len() {
        Err(DecodeError::Truncated(AssignmentField::Partition))
    } else {
        parse_partitions(b, pos + 4, n - 1, acc.push(read_be_i32(b, pos)))
    }
}

/// Reads `n` topic entries from `pos` into `acc` (a later entry for the same
/// topic replaces the earlier one). `Err(None)` stands for a negative name
/// length, on which the decoder cannot proceed.
pub open spec fn parse_topics(b: Seq<u8>, pos: int, n: int, acc: Seq<(Seq<char>, Seq<i32>)>) -> Result<(Seq<(Seq<char>, Seq<i32>)>, int), Option<DecodeError>>
    decreases n,
{
    if n <= 0 {
        Ok((acc, pos))
    } else if pos + 2 > b.len() {
        Err(Some(DecodeError::Truncated(AssignmentField::TopicLength)))
    } else {
        let tl = read_be_i16(b, pos) as int;
        if tl < 0 {
            Err(None)
        } else if pos + 2 + tl > b.len() {
            Err(Some(DecodeError::Truncated(AssignmentField::TopicName)))
        } else {
            let name = b.subrange(pos + 2, pos + 2 + tl);
            if !valid_utf8(name) {
                Err(Some(DecodeError::InvalidTopicName))
            } else if pos + 2 + tl + 4 > b.len() {
                Err(Some(DecodeError::Truncated(AssignmentField::PartitionCount)))
            } else {
                let pc = read_be_i32(b, pos + 2 + tl) as int;
                match parse_partitions(b, pos + 2 + tl + 4, pc, Seq::empty()) {
                    Err(e) => Err(Some(e)),
                    Ok((ps, p3)) => parse_topics(b, p3, n - 1, key_insert(acc, decode_utf8(name), ps)),
                }
            }
        }
    }
}

/// What decoding `b` gives: the assignment, an error, or `Err(None)` where
/// a negative topic-name length stops the decoder.
pub open spec fn decode_outcome(b: Seq<u8>) -> Result<Seq<(Seq<char>, Seq<i32>)>, Option<DecodeError>> {
    if b.len() < 2 {
        Err(Some(DecodeError::Truncated(AssignmentField::Version)))
    } else if read_be_i16(b, 0) < 0 || read_be_i16(b, 0) > 3 {
        Err(Some(DecodeError::UnsupportedVersion(read_be_i16(b, 0))))
    } else if b.len() < 6 {
        Err(Some(DecodeError::Truncated(AssignmentField::TopicCount)))
    } else {
        match parse_topics(b, 6, read_be_i32(b, 2) as int, Seq::empty()) {
            Err(e) => Err(e),
            Ok((a, p)) => {
                if p + 4 > b.len() {
                    Err(Some(DecodeError::Truncated(AssignmentField::UserDataLength)))
                } else if read_be_i32(b, p) > 0 && p + 4 + read_be_i32(b, p) > b.len() {
                    Err(Some(DecodeError::Truncated(AssignmentField::UserData)))
                } else {
                    Ok(a)
                }
            },
        }
    }
}

/// Whether decoding `b` reaches a negative topic-name length.
pub open spec fn decode_stops(b: Seq<u8>) -> bool {
    decode_outcome(b) == Err::<Seq<(Seq<char>, Seq<i32>)>, Option<DecodeError>>(None)
}

/// Turns bytes into a string if they are UTF-8.
///
/// Calls `String::from_utf8`; claims `Some` exactly when the bytes are valid
/// UTF-8, holding the characters they encode.
#[verifier::external_body]
pub(crate) fn string_from_utf8(bytes: Vec<u8>) -> (r: Option<String>)
    ensures
        match r {
            Some(s) => valid_utf8(bytes@) && s@ == decode_utf8(bytes@),
            None => !valid_utf8(bytes@),
        },
{
    String::from_utf8(bytes).ok()
}

fn copy_range(b: &[u8], from: usize, to: usize) -> (r: Vec<u8>)
    requires
        from <= to <= b@.len(),
    ensures
        r@ == b@.subrange(from as int, to as int),
{
    let mut r: Vec<u8> = Vec::new();
    let mut i: usize = from;
    while i < to
        invariant
            from <= i <= to,
            to <= b@.len(),
            r@ == b@.subrange(from as int, i as int),
        decreases to - i,
    {
        r.push(b[i]);
        i += 1;
        assert(r@ =~= b@.subrange(from as int, i as int));
    }
    r
}

/// Decodes a member assignment as `decode_outcome` says, `Err(None)`
/// standing for a negative topic-name length.
pub(crate) fn decode_assignment_outcome(bytes: &[u8]) -> (r: Result<Assignment, Option<DecodeError>>)
    ensures
        match r {
            Ok(a) => decode_outcome(bytes@) == Ok::<_, Option<DecodeError>>(a@) && keys_unique(a@),
            Err(e) => decode_outcome(bytes@) == Err::<Seq<(Seq<char>, Seq<i32>)>, _>(e),
        },
{
    let ghost b = bytes@;
    let len = bytes.len();
    if len < 2 {
        return Err(Some(DecodeError::Truncated(AssignmentField::Version)));
    }
    let version = get_i16(bytes, 0);
    if version < 0 || version > 3 {
        return Err(Some(DecodeError::UnsupportedVersion(version)));
    }
    if len < 6 {
        return Err(Some(DecodeError::Truncated(AssignmentField::TopicCount)));
    }
    let topic_count = get_i32(bytes, 2);
    let mut assignment = Assignment::new();
    let mut pos: usize = 6;
    let mut i: i32 = 0;
    while i < topic_count
        invariant
            len == b.len(),
            b == bytes@,
            6 <= pos <= len,
            0 <= i,
            i <= topic_count || i == 0,
            topic_count == read_be_i32(b, 2),
            2 <= b.len() && 0 <= read_be_i16(b, 0) <= 3 && 6 <= b.len(),
            keys_unique(assignment@),
            parse_topics(b, 6, topic_count as int, Seq::empty()) == parse_topics(
                b,
                pos as int,
                topic_count - i,
                assignment@,
            ),
        decreases topic_count - i,
    {
        if len - pos < 2 {
            return Err(Some(DecodeError::Truncated(AssignmentField::TopicLength)));
        }
        let tl = get_i16(bytes, pos);
        if tl < 0 {
            return Err(None);
        }
        let tlu = tl as usize;
        let start = pos + 2;
        if len - start < tlu {
            return Err(Some(DecodeError::Truncated(AssignmentField::TopicName)));
        }
        let name_bytes = copy_range(bytes, start, start + tlu);
        let name = match string_from_utf8(name_bytes) {
            Some(s) => s,
            None => {
                return Err(Some(DecodeError::InvalidTopicName));
            },
        };
        let p2 = start + tlu;
        if len - p2 < 4 {
            return Err(Some(DecodeError::Truncated(AssignmentField::PartitionCount)));
        }
        let partition_count = get_i32(bytes, p2);
        pos = p2 + 4;
        let ghost p_start = pos as int;
        proof {
            if parse_partitions(b, p_start, partition_count as int, Seq::empty()) is Err {
                assert(decode_outcome(b) == Err::<Seq<(Seq<char>, Seq<i32>)>, _>(Some(parse_partitions(b, p_start, partition_count as int, Seq::empty())->Err_0)));
            }
        }
        let mut partitions: Vec<i32> = Vec::new();
        let mut j: i32 = 0;
        while j < partition_count
            invariant
                len == b.len(),
                b == bytes@,
                p_start <= pos <= len,
                0 <= j,
                j <= partition_count || j == 0,
                parse_partitions(b, p_start, partition_count as int, Seq::empty()) == parse_partitions(
                    b,
                    pos as int,
                    partition_count - j,
                    partitions@,
                ),
                parse_partitions(b, p_start, partition_count as int, Seq::empty()) is Err ==> decode_outcome(b) == Err::<Seq<(Seq<char>, Seq<i32>)>, _>(Some(parse_partitions(b, p_start, partition_count as int, Seq::empty())->Err_0)),
            decreases partition_count - j,
        {
            if len - pos < 4 {
                return Err(Some(DecodeError::Truncated(AssignmentField::Partition)));
            }
            partitions.push(get_i32(bytes, pos));
            pos = pos + 4;
            j += 1;
        }
        proof {
            lemma_key_insert_unique(assignment@, name@, partitions@);
        }
        assignment.insert(name, partitions);
        i += 1;
    }
    if len - pos < 4 {
        return Err(Some(DecodeError::Truncated(AssignmentField::UserDataLength)));
    }
    let user_data_len = get_i32(bytes, pos);
    if user_data_len > 0 && len - (pos + 4) < user_data_len as usize {
        return Err(Some(DecodeError::Truncated(AssignmentField::UserData)));
    }
    Ok(assignment)
}

/// Decodes a member assignment (versions 0-3). User data is skipped.
pub fn decode_assignment(bytes: &[u8]) -> (r: Result<Assignment, DecodeError>)
    requires
        !decode_stops(bytes@),
    ensures
        match r {
            Ok(a) => decode_outcome(bytes@) == Ok::<_, Option<DecodeError>>(a@) && keys_unique(a@),
            Err(e) => decode_outcome(bytes@) == Err::<Seq<(Seq<char>, Seq<i32>)>, _>(Some(e)),
        },
{
    match decode_assignment_outcome(bytes) {
        Ok(a) => Ok(a),
        Err(Some(e)) => Err(e),
        Err(None) => {
            assert(false);
            Err(DecodeError::InvalidTopicName)
        },
    }
}

/// Whether decoding `bytes` as an assignment reaches a negative topic-name
/// length, where `decode_assignment` cannot proceed.
pub fn assignment_decode_stops(bytes: &[u8]) -> (b: bool)
    ensures
        b == decode_stops(bytes@),
{
    match decode_assignment_outcome(bytes) {
        Err(None) => true,
        _ => false,
    }
}


// ----- the encode/decode round trip -----

/// Assignments the format can carry exactly: topic count and partition
/// counts fit in `i32`, name lengths in `i16`.
pub open spec fn encodable(a: Seq<(Seq<char>, Seq<i32>)>) -> bool {
    &&& a.len() <= i32::MAX
    &&& forall|i: int|
        0 <= i < a.len() ==> #[trigger] encode_utf8(a[i].0).len() <= i16::MAX && a[i].1.len()
            <= i32::MAX
}

/// `a` with every partition list in ascending order.
pub open spec fn with_sorted_partitions(a: Seq<(Seq<char>, Seq<i32>)>) -> Seq<(Seq<char>, Seq<i32>)> {
    a.map_values(|t: (Seq<char>, Seq<i32>)| (t.0, sorted_i32s(t.1)))
}

proof fn lemma_sorted_len(s: Seq<i32>)
    ensures
        sorted_i32s(s).len() == s.len(),
{
    crate::sorting::lemma_i32_leq_total();
    s.lemma_sort_by_ensures(crate::sorting::i32_leq());
    vstd::seq_lib::to_multiset_len(s);
    vstd::seq_lib::to_multiset_len(sorted_i32s(s));
}

proof fn lemma_partitions_layout(s: Seq<i32>)
    ensures
        partitions_bytes(s).len() == 4 * s.len(),
        forall|j: int|
            0 <= j < s.len() ==> #[trigger] partitions_bytes(s).subrange(4 * j, 4 * j + 4)
                == be_i32(s[j]),
    decreases s.len(),
{
    if s.len() > 0 {
        let pre = s.drop_last();
        lemma_partitions_layout(pre);
        let pb = partitions_bytes(s);
        assert(pb == partitions_bytes(pre) + be_i32(s.last()));
        assert forall|j: int| 0 <= j < s.len() implies #[trigger] pb.subrange(4 * j, 4 * j + 4)
            == be_i32(s[j]) by {
            if j < s.len() - 1 {
                assert(pb.subrange(4 * j, 4 * j + 4) =~= partitions_bytes(pre).subrange(
                    4 * j,
                    4 * j + 4,
                ));
                assert(pre[j] == s[j]);
            } else {
                assert(pb.subrange(4 * j, 4 * j + 4) =~= be_i32(s.last()));
            }
        }
    }
}

proof fn lemma_parse_partitions(b: Seq<u8>, r: int, s: Seq<i32>, j: int)
    requires
        0 <= r,
        0 <= j <= s.len(),
        r + 4 * s.len() <= b.len(),
        b.subrange(r, r + 4 * s.len()) == partitions_bytes(s),
    ensures
        parse_partitions(b, r + 4 * j, s.len() - j, s.take(j)) == Ok::<_, DecodeError>(
            (s, r + 4 * s.len()),
        ),
    decreases s.len() - j,
{
    if j < s.len() {
        lemma_partitions_layout(s);
        assert(b.subrange(r + 4 * j, r + 4 * j + 4) =~= partitions_bytes(s).subrange(
            4 * j,
            4 * j + 4,
        ));
        lemma_read_be_i32(b, r + 4 * j, s[j]);
        assert(s.take(j).push(s[j]) =~= s.take(j + 1));
        lemma_parse_partitions(b, r, s, j + 1);
    } else {
        assert(s.take(j) =~= s);
    }
}

proof fn lemma_topics_prefix(a: Seq<(Seq<char>, Seq<i32>)>, m: int)
    requires
        0 <= m <= a.len(),
    ensures
        topics_bytes(a.take(m)).len() <= topics_bytes(a).len(),
        topics_bytes(a).subrange(0, topics_bytes(a.take(m)).len() as int) == topics_bytes(
            a.take(m),
        ),
    decreases a.len(),
{
    if m < a.len() {
        lemma_topics_prefix(a.drop_last(), m);
        assert(a.drop_last().take(m) =~= a.take(m));
        let t = topics_bytes(a);
        let u = topics_bytes(a.drop_last());
        assert(t == u + topic_entry_bytes(a.last()));
        assert(t.subrange(0, topics_bytes(a.take(m)).len() as int) =~= u.subrange(
            0,
            topics_bytes(a.take(m)).len() as int,
        ));
    } else {
        assert(a.take(m) =~= a);
    }
}

proof fn lemma_parse_entry(
    b: Seq<u8>,
    q: int,
    t: (Seq<char>, Seq<i32>),
    n: int,
    acc: Seq<(Seq<char>, Seq<i32>)>,
)
    requires
        0 <= q,
        q + topic_entry_bytes(t).len() <= b.len(),
        b.subrange(q, q + topic_entry_bytes(t).len()) == topic_entry_bytes(t),
        encode_utf8(t.0).len() <= i16::MAX,
        t.1.len() <= i32::MAX,
        n >= 1,
    ensures
        parse_topics(b, q, n, acc) == parse_topics(
            b,
            q + topic_entry_bytes(t).len(),
            n - 1,
            key_insert(acc, t.0, sorted_i32s(t.1)),
        ),
{
    let e = topic_entry_bytes(t);
    let el: int = e.len() as int;
    let name = t.0;
    let nb = encode_utf8(name);
    let nl: int = nb.len() as int;
    let ps = t.1;
    let sp = sorted_i32s(ps);
    let sl: int = sp.len() as int;
    lemma_sorted_len(ps);
    lemma_partitions_layout(sp);
    assert(e == be_i16(nb.len() as i16) + nb + be_i32(ps.len() as i32) + partitions_bytes(sp));
    assert(el == 6 + nl + 4 * sl);
    assert(b.subrange(q, q + 2) =~= be_i16(nb.len() as i16)) by {
        assert forall|x: int| 0 <= x < 2 implies #[trigger] b.subrange(q, q + 2)[x] == be_i16(
            nb.len() as i16,
        )[x] by {
            assert(b.subrange(q, q + el)[x] == e[x]);
        }
    }
    lemma_read_be_i16(b, q, nb.len() as i16);
    assert(b.subrange(q + 2, q + 2 + nl) =~= nb) by {
        assert forall|x: int| 0 <= x < nl implies #[trigger] b.subrange(q + 2, q + 2 + nl)[x]
            == nb[x] by {
            assert(b.subrange(q, q + el)[2 + x] == e[2 + x]);
        }
    }
    encode_utf8_valid_utf8(name);
    encode_utf8_decode_utf8(name);
    let p2 = q + 2 + nl;
    assert(b.subrange(p2, p2 + 4) =~= be_i32(ps.len() as i32)) by {
        assert forall|x: int| 0 <= x < 4 implies #[trigger] b.subrange(p2, p2 + 4)[x] == be_i32(
            ps.len() as i32,
        )[x] by {
            assert(b.subrange(q, q + el)[2 + nl + x] == e[2 + nl + x]);
        }
    }
    lemma_read_be_i32(b, p2, ps.len() as i32);
    let r = p2 + 4;
    assert(b.subrange(r, r + 4 * sl) =~= partitions_bytes(sp)) by {
        assert forall|x: int| 0 <= x < 4 * sl implies #[trigger] b.subrange(r, r + 4 * sl)[x]
            == partitions_bytes(sp)[x] by {
            assert(b.subrange(q, q + el)[6 + nl + x] == e[6 + nl + x]);
        }
    }
    lemma_parse_partitions(b, r, sp, 0);
    assert(sp.take(0) =~= Seq::<i32>::empty());
}

proof fn lemma_parse_topics(a: Seq<(Seq<char>, Seq<i32>)>, k: int)
    requires
        keys_unique(a),
        encodable(a),
        0 <= k <= a.len(),
    ensures
        parse_topics(
            encoded_assignment(a),
            (6 + topics_bytes(a.take(k)).len()) as int,
            a.len() - k,
            with_sorted_partitions(a.take(k)),
        ) == Ok::<_, Option<DecodeError>>(
            (with_sorted_partitions(a), (6 + topics_bytes(a).len()) as int),
        ),
    decreases a.len() - k,
{
    let b = encoded_assignment(a);
    let t = topics_bytes(a);
    if k == a.len() {
        assert(a.take(k) =~= a);
    } else {
        let q: int = (6 + topics_bytes(a.take(k)).len()) as int;
        lemma_topics_prefix(a, k + 1);
        assert(a.take(k + 1).drop_last() =~= a.take(k));
        assert(a.take(k + 1).last() == a[k]);
        let e = topic_entry_bytes(a[k]);
        let el: int = e.len() as int;
        assert(topics_bytes(a.take(k + 1)) == topics_bytes(a.take(k)) + e);
        assert(b == be_i16(0) + be_i32(a.len() as i32) + t + be_i32(0));
        assert(b.subrange(q, q + el) =~= e) by {
            assert(t.subrange(0, topics_bytes(a.take(k + 1)).len() as int) == topics_bytes(
                a.take(k),
            ) + e);
            assert forall|x: int| 0 <= x < el implies #[trigger] b.subrange(q, q + el)[x] == e[x] by {
                assert(b[q + x] == t[q - 6 + x]);
                assert(t[q - 6 + x] == t.subrange(
                    0,
                    topics_bytes(a.take(k + 1)).len() as int,
                )[q - 6 + x]);
            }
        }
        let acc = with_sorted_partitions(a.take(k));
        assert(encode_utf8(a[k].0).len() <= i16::MAX && a[k].1.len() <= i32::MAX);
        lemma_parse_entry(b, q, a[k], a.len() - k, acc);
        lemma_key_index(acc, a[k].0);
        assert(key_index(acc, a[k].0) < 0) by {
            if key_index(acc, a[k].0) >= 0 {
                let j = key_index(acc, a[k].0);
                assert(acc[j].0 == a[j].0);
            }
        }
        assert(key_insert(acc, a[k].0, sorted_i32s(a[k].1)) =~= with_sorted_partitions(
            a.take(k + 1),
        ));
        lemma_parse_topics(a, k + 1);
    }
}

/// Decoding what `encode_assignment` produced gives back the assignment,
/// with each topic's partitions in ascending order.
pub proof fn lemma_decode_encoded(a: Seq<(Seq<char>, Seq<i32>)>)
    requires
        keys_unique(a),
        encodable(a),
    ensures
        decode_outcome(encoded_assignment(a)) == Ok::<_, Option<DecodeError>>(
            with_sorted_partitions(a),
        ),
        !decode_stops(encoded_assignment(a)),
{
    let b = encoded_assignment(a);
    let t = topics_bytes(a);
    assert(b.subrange(0, 2) =~= be_i16(0));
    lemma_read_be_i16(b, 0, 0);
    assert(b.subrange(2, 6) =~= be_i32(a.len() as i32));
    lemma_read_be_i32(b, 2, a.len() as i32);
    assert(a.take(0) =~= Seq::<(Seq<char>, Seq<i32>)>::empty());
    assert(with_sorted_partitions(a.take(0)) =~= Seq::<(Seq<char>, Seq<i32>)>::empty());
    lemma_parse_topics(a, 0);
    let p: int = (6 + t.len()) as int;
    assert(b.subrange(p, p + 4) =~= be_i32(0));
    lemma_read_be_i32(b, p, 0);
}

} // verus!


