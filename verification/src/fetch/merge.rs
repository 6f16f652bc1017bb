//! Gathering a fetch's records from the storage tiers in turn (buffer,
//! write-ahead log, object store, archive): when a further tier is read, and
//! how its records are merged into those already gathered (a record whose
//! offset is already held is dropped, then everything is put in offset
//! order, records of equal offset keeping their order: a stable sort).
use vstd::prelude::*;
use crate::fetch::raw_batch::RecordView;
use crate::fetch::record::{Record, record_view, records_view};

verus! {

/// Whether some record of `s` has offset `offset`.
pub open spec fn has_offset(s: Seq<RecordView>, offset: i64) -> bool {
    exists|i: int| 0 <= i < s.len() && (#[trigger] s[i]).0 == offset
}

/// `records` with each record of `more` appended in turn unless a record
/// with its offset is already there.
pub open spec fn with_new_offsets(records: Seq<RecordView>, more: Seq<RecordView>) -> Seq<RecordView>
    decreases more.len(),
{
    if more.len() == 0 {
        records
    } else {
        let acc = with_new_offsets(records, more.drop_last());
        if has_offset(acc, more.last().0) { acc } else { acc.push(more.last()) }
    }
}

/// The records of `s` with offset `offset`, in order.
pub open spec fn at_offset(s: Seq<RecordView>, offset: i64) -> Seq<RecordView>
    decreases s.len(),
{
    if s.len() == 0 {
        Seq::empty()
    } else if s.last().0 == offset {
        at_offset(s.drop_last(), offset).push(s.last())
    } else {
        at_offset(s.drop_last(), offset)
    }
}

/// Whether offsets never decrease along `s`.
pub open spec fn offset_ordered(s: Seq<RecordView>) -> bool {
    forall|i: int, j: int| 0 <= i < j < s.len() ==> (#[trigger] s[i]).0 <= (#[trigger] s[j]).0
}

/// Whether `t` is `s` sorted by offset, stably: in offset order, and for
/// every offset the same records in the same order.
pub open spec fn stably_sorted(s: Seq<RecordView>, t: Seq<RecordView>) -> bool {
    &&& offset_ordered(t)
    &&& forall|o: i64| #[trigger] at_offset(t, o) == at_offset(s, o)
}

/// The place a record with offset `offset` goes in an ordered `t`: after
/// every record with an offset up to its own.
pub open spec fn insertion_point(t: Seq<RecordView>, offset: i64, p: int) -> bool {
    &&& 0 <= p <= t.len()
    &&& forall|j: int| 0 <= j < p ==> (#[trigger] t[j]).0 <= offset
    &&& forall|j: int| p <= j < t.len() ==> (#[trigger] t[j]).0 > offset
}

proof fn lemma_at_offset_insert(t: Seq<RecordView>, x: RecordView, p: int, o: i64)
    requires
        insertion_point(t, x.0, p),
    ensures
        at_offset(t.insert(p, x), o) == if x.0 == o { at_offset(t, o).push(x) } else { at_offset(t, o) },
    decreases t.len(),
{
    if p == t.len() {
        assert(t.insert(p, x) =~= t.push(x));
        assert(t.push(x).drop_last() =~= t);
    } else {
        let front = t.drop_last();
        assert forall|j: int| 0 <= j < p implies (#[trigger] front[j]).0 <= x.0 by {
            assert(front[j] == t[j]);
        }
        assert forall|j: int| p <= j < front.len() implies (#[trigger] front[j]).0 > x.0 by {
            assert(front[j] == t[j]);
        }
        lemma_at_offset_insert(front, x, p, o);
        let ins = t.insert(p, x);
        assert(ins.drop_last() =~= front.insert(p, x));
        assert(ins.last() == t.last());
        assert(t.last().0 > x.0);
    }
}

proof fn lemma_stably_sorted_step(s: Seq<RecordView>, t: Seq<RecordView>, x: RecordView, p: int)
    requires
        stably_sorted(s, t),
        insertion_point(t, x.0, p),
    ensures
        stably_sorted(s.push(x), t.insert(p, x)),
{
    let u = t.insert(p, x);
    assert forall|i: int, j: int| 0 <= i < j < u.len() implies (#[trigger] u[i]).0 <= (#[trigger] u[j]).0 by {
        if j < p {
            assert(u[i] == t[i] && u[j] == t[j]);
        } else if j == p {
            assert(u[i] == t[i]);
        } else if i < p {
            assert(u[i] == t[i] && u[j] == t[j - 1]);
        } else if i == p {
            assert(u[j] == t[j - 1]);
        } else {
            assert(u[i] == t[i - 1] && u[j] == t[j - 1]);
        }
    }
    assert forall|o: i64| #[trigger] at_offset(u, o) == at_offset(s.push(x), o) by {
        lemma_at_offset_insert(t, x, p, o);
        assert(s.push(x).drop_last() =~= s);
    }
}

/// Whether `records` holds a record with offset `offset`.
fn holds_offset(records: &Vec<Record>, offset: i64) -> (r: bool)
    ensures
        r == has_offset(records_view(records@), offset),
{
    let ghost view = records_view(records@);
    let mut i: usize = 0;
    while i < records.len()
        invariant
            i <= records@.len(),
            view == records_view(records@),
            forall|j: int| 0 <= j < i ==> (#[trigger] view[j]).0 != offset,
        decreases records.len() - i,
    {
        assert(view[i as int] == record_view(records@[i as int]));
        if records[i].offset == offset {
            assert(view[i as int].0 == offset);
            return true;
        }
        i += 1;
    }
    false
}

/// Where a record with offset `offset` goes in the ordered `sorted`.
fn upper_bound(sorted: &Vec<Record>, offset: i64) -> (p: usize)
    requires
        offset_ordered(records_view(sorted@)),
    ensures
        insertion_point(records_view(sorted@), offset, p as int),
{
    let ghost view = records_view(sorted@);
    let mut p: usize = 0;
    while p < sorted.len() && sorted[p].offset <= offset
        invariant
            p <= sorted@.len(),
            view == records_view(sorted@),
            offset_ordered(view),
            forall|j: int| 0 <= j < p ==> (#[trigger] view[j]).0 <= offset,
        decreases sorted.len() - p,
    {
        assert(view[p as int] == record_view(sorted@[p as int]));
        p += 1;
    }
    proof {
        if p < sorted@.len() {
            assert(view[p as int] == record_view(sorted@[p as int]));
            assert forall|j: int| p <= j < view.len() implies (#[trigger] view[j]).0 > offset by {
                if j > p {
                    assert(view[p as int].0 <= view[j].0);
                }
            }
        }
    }
    p
}

/// Merges records from another tier into those gathered: each new record
/// whose offset is not yet held is appended (see `with_new_offsets`), then
/// all are sorted by offset, stably.
pub fn merge_fetched_records(records: Vec<Record>, more: Vec<Record>) -> (r: Vec<Record>)
    ensures
        stably_sorted(with_new_offsets(records_view(records@), records_view(more@)), records_view(r@)),
{
    let ghost start = records_view(records@);
    let ghost extra = records_view(more@);
    let mut records = records;
    for m in it: more.into_iter()
        invariant
            it.seq() == more@,
            extra == records_view(more@),
            records_view(records@) == with_new_offsets(start, extra.take(it.index() as int)),
    {
        let ghost k = it.index() as int;
        proof {
            assert(extra[k] == record_view(m)) by {
                assert(it.seq()[k] == m);
            }
            assert(extra.take(k + 1).drop_last() =~= extra.take(k));
            assert(extra.take(k + 1).last() == extra[k]);
        }
        if !holds_offset(&records, m.offset) {
            let ghost before = records_view(records@);
            records.push(m);
            assert(records_view(records@) =~= before.push(extra[k]));
        }
    }
    proof {
        assert(extra.take(extra.len() as int) =~= extra);
    }
    sort_by_offset(records)
}

/// `records` sorted by offset, stably.
pub fn sort_by_offset(records: Vec<Record>) -> (r: Vec<Record>)
    ensures
        stably_sorted(records_view(records@), records_view(r@)),
{
    let ghost all = records_view(records@);
    let mut sorted: Vec<Record> = Vec::new();
    proof {
        assert(records_view(sorted@) =~= Seq::<RecordView>::empty());
        assert forall|o: i64| #[trigger] at_offset(Seq::<RecordView>::empty(), o) == at_offset(all.take(0), o) by {
            assert(all.take(0) =~= Seq::<RecordView>::empty());
        }
    }
    for rec in it: records.into_iter()
        invariant
            it.seq() == records@,
            all == records_view(records@),
            stably_sorted(all.take(it.index() as int), records_view(sorted@)),
    {
        let ghost k = it.index() as int;
        proof {
            assert(all[k] == record_view(rec)) by {
                assert(it.seq()[k] == rec);
            }
            assert(all.take(k + 1) =~= all.take(k).push(all[k]));
        }
        let p = upper_bound(&sorted, rec.offset);
        let ghost before = records_view(sorted@);
        proof {
            lemma_stably_sorted_step(all.take(k), before, all[k], p as int);
        }
        sorted.insert(p, rec);
        assert(records_view(sorted@) =~= before.insert(p as int, all[k]));
    }
    proof {
        assert(all.take(all.len() as int) =~= all);
    }
    sorted
}

/// Whether what a fetch has gathered meets its byte budget: some record,
/// and at least `max_bytes` counted. The buffer alone then answers the
/// fetch, and no further uploaded segment is read.
pub fn budget_met(record_count: usize, bytes_fetched: usize, max_bytes: i32) -> (r: bool)
    ensures
        r == (record_count > 0 && bytes_fetched >= max_bytes as usize),
{
    record_count > 0 && bytes_fetched >= max_bytes as usize
}

/// Whether records before what the buffer gave are wanted: it gave none, or
/// the fetch starts below the highest offset it gave.
pub fn needs_earlier_records(record_count: usize, buffer_highest_offset: i64, fetch_offset: i64) -> (r: bool)
    ensures
        r == (record_count == 0 || (buffer_highest_offset >= 0 && fetch_offset < buffer_highest_offset)),
{
    record_count == 0 || (buffer_highest_offset >= 0 && fetch_offset < buffer_highest_offset)
}

/// Whether the write-ahead log is read: the buffer gave nothing, earlier
/// records are wanted, or the fetch starts below the lowest offset the
/// buffer still holds (batches trimmed from it).
pub fn should_read_wal(record_count: usize, buffer_highest_offset: i64, buffer_min_offset: i64, fetch_offset: i64) -> (r: bool)
    ensures
        r == (record_count == 0
            || (buffer_highest_offset >= 0 && fetch_offset < buffer_highest_offset)
            || (buffer_min_offset >= 0 && fetch_offset < buffer_min_offset)),
{
    let need_earlier = needs_earlier_records(record_count, buffer_highest_offset, fetch_offset);
    let in_trimmed_region = buffer_min_offset >= 0 && fetch_offset < buffer_min_offset;
    record_count == 0 || need_earlier || in_trimmed_region
}

proof fn lemma_absent_offset(s: Seq<RecordView>, o: i64)
    requires
        !has_offset(s, o),
    ensures
        at_offset(s, o).len() == 0,
    decreases s.len(),
{
    if s.len() > 0 {
        assert(s.drop_last().len() < s.len());
        assert forall|i: int| 0 <= i < s.drop_last().len() implies (#[trigger] s.drop_last()[i]).0 != o by {
            assert(s.drop_last()[i] == s[i]);
        }
        lemma_absent_offset(s.drop_last(), o);
        assert(s[s.len() - 1] == s.last());
    }
}

proof fn lemma_present_offset(s: Seq<RecordView>, x: RecordView)
    ensures
        has_offset(s.push(x), x.0),
{
    assert(s.push(x)[s.len() as int] == x);
}

proof fn lemma_has_offset_grows(s: Seq<RecordView>, x: RecordView, o: i64)
    requires
        has_offset(s, o),
    ensures
        has_offset(s.push(x), o),
{
    let i = choose|i: int| 0 <= i < s.len() && (#[trigger] s[i]).0 == o;
    assert(s.push(x)[i] == s[i]);
}

/// Merging holds every offset at most once when the gathered records did,
/// and holds every offset the further tier gave.
pub proof fn lemma_merge_holds_each_offset_once(records: Seq<RecordView>, more: Seq<RecordView>)
    requires
        forall|o: i64| #[trigger] at_offset(records, o).len() <= 1,
    ensures
        forall|o: i64| #[trigger] at_offset(with_new_offsets(records, more), o).len() <= 1,
        forall|j: int| 0 <= j < more.len() ==> has_offset(with_new_offsets(records, more), (#[trigger] more[j]).0),
    decreases more.len(),
{
    if more.len() > 0 {
        let front = more.drop_last();
        let m = more.last();
        lemma_merge_holds_each_offset_once(records, front);
        let acc = with_new_offsets(records, front);
        assert forall|o: i64| #[trigger] at_offset(with_new_offsets(records, more), o).len() <= 1 by {
            if has_offset(acc, m.0) {
                assert(with_new_offsets(records, more) == acc);
            } else {
                let next = acc.push(m);
                assert(with_new_offsets(records, more) == next);
                assert(next.drop_last() =~= acc);
                assert(next.last() == m);
                if o == m.0 {
                    lemma_absent_offset(acc, o);
                    assert(at_offset(next, o) == at_offset(acc, o).push(m));
                } else {
                    assert(at_offset(next, o) == at_offset(acc, o));
                }
            }
        }
        assert forall|j: int| 0 <= j < more.len() implies has_offset(with_new_offsets(records, more), (#[trigger] more[j]).0) by {
            if j < front.len() {
                assert(more[j] == front[j]);
                if !has_offset(acc, m.0) {
                    lemma_has_offset_grows(acc, m, front[j].0);
                }
            } else if !has_offset(acc, m.0) {
                lemma_present_offset(acc, m);
            }
        }
    }
}

} // verus!
