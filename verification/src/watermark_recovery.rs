//! High watermarks recovered at start-up: from the records a write-ahead
//! log replays, and from the end offsets of the persisted segments.
use vstd::prelude::*;
use crate::text::str_eq;
use crate::consumer_group::group::{key_index, key_insert, key_lookup, lemma_key_index};

verus! {

/// The highest of `offsets`, or -1 when none is above -1.
pub open spec fn max_offset(offsets: Seq<i64>) -> i64
    decreases offsets.len(),
{
    if offsets.len() == 0 {
        -1i64
    } else {
        let rest = max_offset(offsets.drop_last());
        if offsets.last() > rest { offsets.last() } else { rest }
    }
}

/// The highest offset among replayed records (each given by its offset;
/// a record that cannot be read counts as -1), -1 for none.
pub fn find_max_offset_in_records(offsets: &[i64]) -> (r: i64)
    ensures
        r == max_offset(offsets@),
{
    let mut best: i64 = -1;
    let mut i: usize = 0;
    while i < offsets.len()
        invariant
            i <= offsets@.len(),
            best == max_offset(offsets@.take(i as int)),
        decreases offsets.len() - i,
    {
        assert(offsets@.take(i as int + 1).drop_last() =~= offsets@.take(i as int));
        if offsets[i] > best {
            best = offsets[i];
        }
        i += 1;
    }
    assert(offsets@.take(offsets@.len() as int) =~= offsets@);
    best
}

/// The high watermark a replayed partition is restored to: one past its
/// highest offset, nothing when no record has an offset of 0 or more.
pub fn recovered_high_watermark(max_offset: i64) -> (r: Option<u64>)
    ensures
        max_offset >= 0 ==> r == Some((max_offset + 1) as u64),
        max_offset < 0 ==> r is None,
{
    if max_offset >= 0 {
        Some((max_offset as u64) + 1)
    } else {
        None
    }
}

/// A persisted segment's partition and end offset as plain values.
pub open spec fn segment_view(s: (String, u32, i64)) -> ((Seq<char>, u32), i64) {
    ((s.0@, s.1), s.2)
}

/// A recovered watermark as plain values.
pub open spec fn watermark_view(w: ((String, u32), i64)) -> ((Seq<char>, u32), i64) {
    ((w.0.0@, w.0.1), w.1)
}

/// Whether some segment of partition `key` among `segs` ends one below `hw`.
pub open spec fn attained(segs: Seq<((Seq<char>, u32), i64)>, key: (Seq<char>, u32), hw: i64) -> bool {
    exists|j: int| 0 <= j < segs.len() && (#[trigger] segs[j]).0 == key && segs[j].1 + 1 == hw
}

/// Whether partition `key` has an entry in `r`.
pub open spec fn listed(r: Seq<((Seq<char>, u32), i64)>, key: (Seq<char>, u32)) -> bool {
    exists|a: int| 0 <= a < r.len() && (#[trigger] r[a]).0 == key
}

/// Whether `r` holds, once per partition, one past the highest end offset
/// of that partition's segments among `segs`, for every partition where
/// that is above -1, and nothing else.
pub open spec fn segment_watermarks(segs: Seq<((Seq<char>, u32), i64)>, r: Seq<((Seq<char>, u32), i64)>) -> bool {
    &&& forall|a: int, b: int| 0 <= a < b < r.len() ==> r[a].0 != r[b].0
    &&& forall|a: int| 0 <= a < r.len() ==> (#[trigger] r[a]).1 > -1 && attained(segs, r[a].0, r[a].1)
    &&& forall|a: int, j: int| 0 <= a < r.len() && 0 <= j < segs.len() && (#[trigger] segs[j]).0 == (#[trigger] r[a]).0 ==>
        segs[j].1 + 1 <= r[a].1
    &&& forall|j: int| 0 <= j < segs.len() && (#[trigger] segs[j]).1 + 1 > -1 ==> listed(r, segs[j].0)
}

/// The watermarks after one more segment: the partition's entry is raised
/// to one past the segment's end offset when that is higher than what it
/// holds (-1 when it holds nothing), a new partition appended at the end.
pub open spec fn watermark_step(before: Seq<((Seq<char>, u32), i64)>, seg: ((Seq<char>, u32), i64)) -> Seq<((Seq<char>, u32), i64)> {
    let current = match key_lookup(before, seg.0) {
        Some(v) => v,
        None => -1i64,
    };
    if seg.1 + 1 > current { key_insert(before, seg.0, (seg.1 + 1) as i64) } else { before }
}

proof fn lemma_watermark_step(prefix: Seq<((Seq<char>, u32), i64)>, seg: ((Seq<char>, u32), i64), before: Seq<((Seq<char>, u32), i64)>)
    requires
        segment_watermarks(prefix, before),
        seg.1 < i64::MAX,
    ensures
        segment_watermarks(prefix.push(seg), watermark_step(before, seg)),
{
    let key = seg.0;
    let hw = seg.1 + 1;
    lemma_key_index(before, key);
    let k = key_index(before, key);
    if k >= 0 && hw > before[k].1 {
        lemma_step_raises(prefix, seg, before, k);
    } else if k < 0 && hw > -1 {
        lemma_step_adds(prefix, seg, before);
    } else {
        lemma_step_keeps(prefix, seg, before);
    }
}

proof fn lemma_attained_extends(prefix: Seq<((Seq<char>, u32), i64)>, seg: ((Seq<char>, u32), i64), key: (Seq<char>, u32), hw: i64)
    requires
        attained(prefix, key, hw),
    ensures
        attained(prefix.push(seg), key, hw),
{
    let j = choose|j: int| 0 <= j < prefix.len() && (#[trigger] prefix[j]).0 == key && prefix[j].1 + 1 == hw;
    assert(prefix.push(seg)[j] == prefix[j]);
}

proof fn lemma_attained_last(prefix: Seq<((Seq<char>, u32), i64)>, seg: ((Seq<char>, u32), i64))
    requires
        seg.1 < i64::MAX,
    ensures
        attained(prefix.push(seg), seg.0, (seg.1 + 1) as i64),
{
    let n = prefix.len() as int;
    assert(prefix.push(seg)[n] == seg);
}

proof fn lemma_step_keeps(prefix: Seq<((Seq<char>, u32), i64)>, seg: ((Seq<char>, u32), i64), before: Seq<((Seq<char>, u32), i64)>)
    requires
        segment_watermarks(prefix, before),
        key_index(before, seg.0) >= 0 ==> seg.1 + 1 <= before[key_index(before, seg.0)].1,
        key_index(before, seg.0) < 0 ==> seg.1 + 1 <= -1,
    ensures
        segment_watermarks(prefix.push(seg), before),
{
    let next = prefix.push(seg);
    lemma_key_index(before, seg.0);
    let k = key_index(before, seg.0);
    assert forall|j: int| 0 <= j < prefix.len() implies next[j] == prefix[j] by {}
    assert(next[prefix.len() as int] == seg);
    assert forall|a: int| 0 <= a < before.len() implies (#[trigger] before[a]).1 > -1 && attained(next, before[a].0, before[a].1) by {
        lemma_attained_extends(prefix, seg, before[a].0, before[a].1);
    }
    assert forall|j: int| 0 <= j < next.len() && (#[trigger] next[j]).1 + 1 > -1 implies listed(before, next[j].0) by {
        if j == prefix.len() {
            assert(before[k].0 == next[j].0);
        } else {
            assert(next[j] == prefix[j]);
        }
    }
    assert forall|a: int, j: int| 0 <= a < before.len() && 0 <= j < next.len() && (#[trigger] next[j]).0 == (#[trigger] before[a]).0 implies
        next[j].1 + 1 <= before[a].1 by {
        if j == prefix.len() {
            assert(a == k);
        } else {
            assert(next[j] == prefix[j]);
        }
    }
}

proof fn lemma_step_raises(prefix: Seq<((Seq<char>, u32), i64)>, seg: ((Seq<char>, u32), i64), before: Seq<((Seq<char>, u32), i64)>, k: int)
    requires
        segment_watermarks(prefix, before),
        seg.1 < i64::MAX,
        k == key_index(before, seg.0),
        k >= 0,
        seg.1 + 1 > before[k].1,
    ensures
        segment_watermarks(prefix.push(seg), before.update(k, (seg.0, (seg.1 + 1) as i64))),
{
    let next = prefix.push(seg);
    lemma_key_index(before, seg.0);
    let after = before.update(k, (seg.0, (seg.1 + 1) as i64));
    assert forall|j: int| 0 <= j < prefix.len() implies next[j] == prefix[j] by {}
    assert(next[prefix.len() as int] == seg);
    assert forall|a: int, b: int| 0 <= a < b < after.len() implies after[a].0 != after[b].0 by {
        if a != k {
            assert(after[a] == before[a]);
        }
        if b != k {
            assert(after[b] == before[b]);
        }
    }
    assert forall|a: int| 0 <= a < after.len() implies (#[trigger] after[a]).1 > -1 && attained(next, after[a].0, after[a].1) by {
        if a == k {
            lemma_attained_last(prefix, seg);
        } else {
            assert(after[a] == before[a]);
            lemma_attained_extends(prefix, seg, before[a].0, before[a].1);
        }
    }
    assert forall|j: int| 0 <= j < next.len() && (#[trigger] next[j]).1 + 1 > -1 implies listed(after, next[j].0) by {
        if j == prefix.len() {
            assert(after[k].0 == next[j].0);
        } else {
            assert(next[j] == prefix[j]);
            let a = choose|a: int| 0 <= a < before.len() && (#[trigger] before[a]).0 == prefix[j].0;
            assert(after[a].0 == before[a].0);
        }
    }
    assert forall|a: int, j: int| 0 <= a < after.len() && 0 <= j < next.len() && (#[trigger] next[j]).0 == (#[trigger] after[a]).0 implies
        next[j].1 + 1 <= after[a].1 by {
        if a != k {
            assert(after[a] == before[a]);
        }
        if j < prefix.len() {
            assert(next[j] == prefix[j]);
            if a == k {
                assert(prefix[j].0 == before[k].0);
            }
        } else if a != k {
            assert(before[a].0 != seg.0);
        }
    }
}

proof fn lemma_step_adds(prefix: Seq<((Seq<char>, u32), i64)>, seg: ((Seq<char>, u32), i64), before: Seq<((Seq<char>, u32), i64)>)
    requires
        segment_watermarks(prefix, before),
        seg.1 < i64::MAX,
        key_index(before, seg.0) < 0,
        seg.1 + 1 > -1,
    ensures
        segment_watermarks(prefix.push(seg), before.push((seg.0, (seg.1 + 1) as i64))),
{
    let next = prefix.push(seg);
    let after = before.push((seg.0, (seg.1 + 1) as i64));
    let n = before.len() as int;
    lemma_key_index(before, seg.0);
    assert forall|j: int| 0 <= j < prefix.len() implies next[j] == prefix[j] by {}
    assert(next[prefix.len() as int] == seg);
    assert forall|a: int, b: int| 0 <= a < b < after.len() implies after[a].0 != after[b].0 by {
        assert(after[a] == before[a]);
        if b < n {
            assert(after[b] == before[b]);
        }
    }
    assert forall|a: int| 0 <= a < after.len() implies (#[trigger] after[a]).1 > -1 && attained(next, after[a].0, after[a].1) by {
        if a == n {
            lemma_attained_last(prefix, seg);
        } else {
            assert(after[a] == before[a]);
            lemma_attained_extends(prefix, seg, before[a].0, before[a].1);
        }
    }
    assert forall|j: int| 0 <= j < next.len() && (#[trigger] next[j]).1 + 1 > -1 implies listed(after, next[j].0) by {
        if j == prefix.len() {
            assert(after[n].0 == next[j].0);
        } else {
            assert(next[j] == prefix[j]);
            let a = choose|a: int| 0 <= a < before.len() && (#[trigger] before[a]).0 == prefix[j].0;
            assert(after[a] == before[a]);
        }
    }
    assert forall|a: int, j: int| 0 <= a < after.len() && 0 <= j < next.len() && (#[trigger] next[j]).0 == (#[trigger] after[a]).0 implies
        next[j].1 + 1 <= after[a].1 by {
        if a < n {
            assert(after[a] == before[a]);
        }
        if j < prefix.len() {
            assert(next[j] == prefix[j]);
            if a == n && prefix[j].1 + 1 > -1 {
                let b = choose|b: int| 0 <= b < before.len() && (#[trigger] before[b]).0 == prefix[j].0;
                assert(before[b].0 == seg.0);
            }
        }
    }
}

/// The watermarks after every segment of `segs` in turn.
pub open spec fn watermarks_of(segs: Seq<((Seq<char>, u32), i64)>) -> Seq<((Seq<char>, u32), i64)>
    decreases segs.len(),
{
    if segs.len() == 0 {
        Seq::empty()
    } else {
        watermark_step(watermarks_of(segs.drop_last()), segs.last())
    }
}

proof fn lemma_watermarks_of(segs: Seq<((Seq<char>, u32), i64)>)
    requires
        forall|j: int| 0 <= j < segs.len() ==> (#[trigger] segs[j]).1 < i64::MAX,
    ensures
        segment_watermarks(segs, watermarks_of(segs)),
    decreases segs.len(),
{
    if segs.len() > 0 {
        let front = segs.drop_last();
        assert forall|j: int| 0 <= j < front.len() implies (#[trigger] front[j]).1 < i64::MAX by {
            assert(front[j] == segs[j]);
        }
        lemma_watermarks_of(front);
        assert(front.push(segs.last()) =~= segs);
        lemma_watermark_step(front, segs.last(), watermarks_of(front));
    }
}

/// Where a partition's entry is, if anywhere.
fn find_partition(r: &Vec<((String, u32), i64)>, topic: &str, partition: u32) -> (k: Option<usize>)
    ensures
        match k {
            Some(k) => k < r@.len() && key_index(r@.map_values(|w: ((String, u32), i64)| watermark_view(w)), (topic@, partition)) == k,
            None => key_index(r@.map_values(|w: ((String, u32), i64)| watermark_view(w)), (topic@, partition)) < 0,
        },
{
    let ghost view = r@.map_values(|w: ((String, u32), i64)| watermark_view(w));
    let ghost key = (topic@, partition);
    proof {
        lemma_key_index(view, key);
    }
    let mut k: usize = 0;
    while k < r.len()
        invariant
            k <= r@.len(),
            view == r@.map_values(|w: ((String, u32), i64)| watermark_view(w)),
            key == (topic@, partition),
            forall|a: int| 0 <= a < k ==> view[a].0 != key,
            -1 <= key_index(view, key) < view.len(),
            key_index(view, key) >= 0 ==> view[key_index(view, key)].0 == key,
            key_index(view, key) >= 0 ==> forall|j: int| 0 <= j < key_index(view, key) ==> view[j].0 != key,
            key_index(view, key) < 0 ==> forall|j: int| 0 <= j < view.len() ==> view[j].0 != key,
        decreases r.len() - k,
    {
        assert(view[k as int] == watermark_view(r@[k as int]));
        if r[k].0.1 == partition && str_eq(r[k].0.0.as_str(), topic) {
            assert(key_index(view, key) == k as int);
            return Some(k);
        }
        k += 1;
    }
    None
}

/// The high watermark of every partition with persisted segments, given
/// each segment's (topic, partition, end offset): one past the partition's
/// highest end offset, in the order partitions first appear; a partition
/// whose watermark would be -1 or lower is left out.
pub fn segment_high_watermarks(segments: &[(String, u32, i64)]) -> (r: Vec<((String, u32), i64)>)
    requires
        forall|j: int| 0 <= j < segments@.len() ==> (#[trigger] segments@[j]).2 < i64::MAX,
    ensures
        segment_watermarks(
            segments@.map_values(|s: (String, u32, i64)| segment_view(s)),
            r@.map_values(|w: ((String, u32), i64)| watermark_view(w)),
        ),
{
    let ghost segs = segments@.map_values(|s: (String, u32, i64)| segment_view(s));
    let mut r: Vec<((String, u32), i64)> = Vec::new();
    let mut i: usize = 0;
    proof {
        assert(segs.take(0) =~= Seq::<((Seq<char>, u32), i64)>::empty());
        assert(r@.map_values(|w: ((String, u32), i64)| watermark_view(w)) =~= Seq::<((Seq<char>, u32), i64)>::empty());
        assert forall|j: int| 0 <= j < segs.len() implies (#[trigger] segs[j]).1 < i64::MAX by {
            assert(segs[j] == segment_view(segments@[j]));
        }
    }
    while i < segments.len()
        invariant
            i <= segments@.len(),
            segs == segments@.map_values(|s: (String, u32, i64)| segment_view(s)),
            forall|j: int| 0 <= j < segments@.len() ==> (#[trigger] segments@[j]).2 < i64::MAX,
            r@.map_values(|w: ((String, u32), i64)| watermark_view(w)) == watermarks_of(segs.take(i as int)),
        decreases segments.len() - i,
    {
        let ghost before = r@.map_values(|w: ((String, u32), i64)| watermark_view(w));
        assert(segs[i as int] == segment_view(segments@[i as int]));
        proof {
            assert(segs.take(i as int + 1).drop_last() =~= segs.take(i as int));
            lemma_key_index(before, segs[i as int].0);
        }
        let hw = segments[i].2 + 1;
        match find_partition(&r, segments[i].0.as_str(), segments[i].1) {
            Some(k) => {
                assert(before[k as int] == watermark_view(r@[k as int]));
                if hw > r[k].1 {
                    let name = r[k].0.0.clone();
                    r.set(k, ((name, segments[i].1), hw));
                    assert(r@.map_values(|w: ((String, u32), i64)| watermark_view(w)) =~= before.update(k as int, (segs[i as int].0, hw)));
                }
            },
            None => {
                if hw > -1 {
                    let name = segments[i].0.clone();
                    r.push(((name, segments[i].1), hw));
                    assert(r@.map_values(|w: ((String, u32), i64)| watermark_view(w)) =~= before.push((segs[i as int].0, hw)));
                }
            },
        }
        i += 1;
    }
    assert(segs.take(segs.len() as int) =~= segs);
    proof {
        lemma_watermarks_of(segs);
    }
    r
}

/// Whether a partition's watermark is restored from its segments: not when
/// metadata already holds one at least as high.
pub fn should_restore_watermark(existing: Option<i64>, segment_high_watermark: i64) -> (r: bool)
    ensures
        r == match existing {
            Some(e) => e < segment_high_watermark,
            None => true,
        },
{
    match existing {
        Some(e) => e < segment_high_watermark,
        None => true,
    }
}

} // verus!
