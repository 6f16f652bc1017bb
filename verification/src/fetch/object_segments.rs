//! Serving a fetch from segments uploaded to the object store: which
//! segments are read, in what order, and which of the records they hold are
//! served within the byte budget.
use vstd::prelude::*;
use crate::fetch::raw_batch::{RecordView, all_in_range};
use crate::fetch::record::{Record, record_view, records_view};
use crate::fetch::merge::{sort_by_offset, stably_sorted};

verus! {

/// An uploaded segment as plain values: object key, lowest and highest
/// offset.
pub type SegView = (Seq<char>, i64, i64);

/// An uploaded segment as plain values.
pub open spec fn seg_view(s: (String, i64, i64)) -> SegView {
    (s.0@, s.1, s.2)
}

/// Whether a segment holds offsets of `[fetch_offset, high_watermark)`.
pub open spec fn seg_overlaps(fetch_offset: i64, high_watermark: i64) -> spec_fn(SegView) -> bool {
    |s: SegView| s.2 >= fetch_offset && s.1 < high_watermark
}

/// The segments of `s` with lowest offset `o`, in order.
pub open spec fn segs_from(s: Seq<SegView>, o: i64) -> Seq<SegView>
    decreases s.len(),
{
    if s.len() == 0 {
        Seq::empty()
    } else if s.last().1 == o {
        segs_from(s.drop_last(), o).push(s.last())
    } else {
        segs_from(s.drop_last(), o)
    }
}

/// Whether lowest offsets never decrease along `s`.
pub open spec fn segs_ordered(s: Seq<SegView>) -> bool {
    forall|i: int, j: int| 0 <= i < j < s.len() ==> (#[trigger] s[i]).1 <= (#[trigger] s[j]).1
}

/// Whether `t` is `s` sorted by lowest offset, stably.
pub open spec fn segs_stably_sorted(s: Seq<SegView>, t: Seq<SegView>) -> bool {
    &&& segs_ordered(t)
    &&& forall|o: i64| #[trigger] segs_from(t, o) == segs_from(s, o)
}

/// The place a segment with lowest offset `o` goes in an ordered `t`.
pub open spec fn seg_insertion_point(t: Seq<SegView>, o: i64, p: int) -> bool {
    &&& 0 <= p <= t.len()
    &&& forall|j: int| 0 <= j < p ==> (#[trigger] t[j]).1 <= o
    &&& forall|j: int| p <= j < t.len() ==> (#[trigger] t[j]).1 > o
}

proof fn lemma_segs_from_insert(t: Seq<SegView>, x: SegView, p: int, o: i64)
    requires
        seg_insertion_point(t, x.1, p),
    ensures
        segs_from(t.insert(p, x), o) == if x.1 == o { segs_from(t, o).push(x) } else { segs_from(t, o) },
    decreases t.len(),
{
    if p == t.len() {
        assert(t.insert(p, x) =~= t.push(x));
        assert(t.push(x).drop_last() =~= t);
    } else {
        let front = t.drop_last();
        assert forall|j: int| 0 <= j < p implies (#[trigger] front[j]).1 <= x.1 by {
            assert(front[j] == t[j]);
        }
        assert forall|j: int| p <= j < front.len() implies (#[trigger] front[j]).1 > x.1 by {
            assert(front[j] == t[j]);
        }
        lemma_segs_from_insert(front, x, p, o);
        let ins = t.insert(p, x);
        assert(ins.drop_last() =~= front.insert(p, x));
        assert(ins.last() == t.last());
    }
}

proof fn lemma_segs_sorted_step(s: Seq<SegView>, t: Seq<SegView>, x: SegView, p: int)
    requires
        segs_stably_sorted(s, t),
        seg_insertion_point(t, x.1, p),
    ensures
        segs_stably_sorted(s.push(x), t.insert(p, x)),
{
    let u = t.insert(p, x);
    assert forall|i: int, j: int| 0 <= i < j < u.len() implies (#[trigger] u[i]).1 <= (#[trigger] u[j]).1 by {
        if j < p {
            assert(u[i] == t[i] && u[j] == t[j]);
        } else if j == p {
            assert(u[i] == t[i]);
        } else if i < p {
            assert(u[i] == t[i] && u[j] == t[j - 1]);
        } else if i == p {
            assert(u[j] == t[j - 1]);
        } else {
            assert(u[i] == t[i - 1] && u[j] == t[j - 1]);
        }
    }
    assert forall|o: i64| #[trigger] segs_from(u, o) == segs_from(s.push(x), o) by {
        lemma_segs_from_insert(t, x, p, o);
        assert(s.push(x).drop_last() =~= s);
    }
}

fn seg_upper_bound(sorted: &Vec<(String, i64, i64)>, o: i64) -> (p: usize)
    requires
        segs_ordered(sorted@.map_values(|s: (String, i64, i64)| seg_view(s))),
    ensures
        seg_insertion_point(sorted@.map_values(|s: (String, i64, i64)| seg_view(s)), o, p as int),
{
    let ghost view = sorted@.map_values(|s: (String, i64, i64)| seg_view(s));
    let mut p: usize = 0;
    while p < sorted.len() && sorted[p].1 <= o
        invariant
            p <= sorted@.len(),
            view == sorted@.map_values(|s: (String, i64, i64)| seg_view(s)),
            segs_ordered(view),
            forall|j: int| 0 <= j < p ==> (#[trigger] view[j]).1 <= o,
        decreases sorted.len() - p,
    {
        assert(view[p as int] == seg_view(sorted@[p as int]));
        p += 1;
    }
    proof {
        if p < sorted@.len() {
            assert(view[p as int] == seg_view(sorted@[p as int]));
            assert forall|j: int| p <= j < view.len() implies (#[trigger] view[j]).1 > o by {
                if j > p {
                    assert(view[p as int].1 <= view[j].1);
                }
            }
        }
    }
    p
}

/// The segments (object key, lowest and highest offset) that hold offsets
/// of `[fetch_offset, high_watermark)`, sorted by lowest offset, stably.
pub fn matching_segments(segments: Vec<(String, i64, i64)>, fetch_offset: i64, high_watermark: i64) -> (r: Vec<(String, i64, i64)>)
    ensures
        segs_stably_sorted(
            segments@.map_values(|s: (String, i64, i64)| seg_view(s)).filter(seg_overlaps(fetch_offset, high_watermark)),
            r@.map_values(|s: (String, i64, i64)| seg_view(s)),
        ),
{
    let ghost all = segments@.map_values(|s: (String, i64, i64)| seg_view(s));
    let ghost keep = seg_overlaps(fetch_offset, high_watermark);
    let mut sorted: Vec<(String, i64, i64)> = Vec::new();
    proof {
        reveal(Seq::filter);
        assert(all.take(0) =~= Seq::<SegView>::empty());
        assert(sorted@.map_values(|s: (String, i64, i64)| seg_view(s)) =~= Seq::<SegView>::empty());
        assert forall|o: i64| #[trigger] segs_from(Seq::<SegView>::empty(), o) == segs_from(all.take(0).filter(keep), o) by {
            assert(all.take(0).filter(keep) =~= Seq::<SegView>::empty());
        }
    }
    for s in it: segments.into_iter()
        invariant
            it.seq() == segments@,
            all == segments@.map_values(|s: (String, i64, i64)| seg_view(s)),
            keep == seg_overlaps(fetch_offset, high_watermark),
            segs_stably_sorted(all.take(it.index() as int).filter(keep), sorted@.map_values(|s: (String, i64, i64)| seg_view(s))),
    {
        let ghost k = it.index() as int;
        proof {
            reveal(Seq::filter);
            assert(all[k] == seg_view(s)) by {
                assert(it.seq()[k] == s);
            }
            assert(all.take(k + 1).drop_last() =~= all.take(k));
            assert(all.take(k + 1).last() == all[k]);
        }
        if s.2 >= fetch_offset && s.1 < high_watermark {
            let p = seg_upper_bound(&sorted, s.1);
            let ghost before = sorted@.map_values(|s: (String, i64, i64)| seg_view(s));
            proof {
                lemma_segs_sorted_step(all.take(k).filter(keep), before, all[k], p as int);
                assert(all.take(k + 1).filter(keep) == all.take(k).filter(keep).push(all[k]));
            }
            sorted.insert(p, s);
            assert(sorted@.map_values(|s: (String, i64, i64)| seg_view(s)) =~= before.insert(p as int, all[k]));
        }
    }
    proof {
        assert(all.take(all.len() as int) =~= all);
    }
    sorted
}

/// A record as an uploaded segment holds it: offset, timestamp, optional
/// key and value, headers with optional values.
pub struct CanonicalEntry {
    pub offset: i64,
    pub timestamp: i64,
    pub key: Option<Vec<u8>>,
    pub value: Option<Vec<u8>>,
    pub headers: Vec<(String, Option<Vec<u8>>)>,
}

/// A stored header as plain values.
pub type StoredHeaderView = (Seq<char>, Option<Seq<u8>>);

/// A stored record as plain values.
pub type EntryView = (i64, i64, Option<Seq<u8>>, Option<Seq<u8>>, Seq<StoredHeaderView>);

/// An optional byte string as plain values.
pub open spec fn opt_view(v: Option<Vec<u8>>) -> Option<Seq<u8>> {
    match v {
        Some(b) => Some(b@),
        None => None,
    }
}

/// A stored record as plain values.
pub open spec fn entry_view(e: CanonicalEntry) -> EntryView {
    (e.offset, e.timestamp, opt_view(e.key), opt_view(e.value),
        e.headers@.map_values(|h: (String, Option<Vec<u8>>)| (h.0@, opt_view(h.1))))
}

/// The length of an optional byte string, 0 when absent.
pub open spec fn opt_len(v: Option<Seq<u8>>) -> int {
    match v {
        Some(b) => b.len() as int,
        None => 0,
    }
}

/// The bytes a stored record is counted as: value, key and 24 bytes of
/// overhead.
pub open spec fn entry_size(e: EntryView) -> int {
    opt_len(e.3) + opt_len(e.2) + 24
}

/// The headers that carry a value, in order (those without one are
/// dropped).
pub open spec fn present_headers(hs: Seq<StoredHeaderView>) -> Seq<(Seq<char>, Seq<u8>)>
    decreases hs.len(),
{
    if hs.len() == 0 {
        Seq::empty()
    } else {
        let front = present_headers(hs.drop_last());
        match hs.last().1 {
            Some(v) => front.push((hs.last().0, v)),
            None => front,
        }
    }
}

/// The fetched record a stored record becomes.
pub open spec fn entry_record(e: EntryView) -> RecordView {
    (e.0, e.1, e.2, match e.3 { Some(v) => v, None => Seq::empty() }, present_headers(e.4))
}

/// Stored records to fetched records.
pub open spec fn as_fetched() -> spec_fn(EntryView) -> RecordView {
    |e: EntryView| entry_record(e)
}

/// Records gathered so far and the bytes counted.
pub type Served = (Seq<RecordView>, int);

/// Takes the stored records of one batch from `j` on: those in
/// `[fetch_offset, high_watermark)` are added, until one would take the
/// count past `cap` while some record is already taken; the rest of that
/// batch is then left.
pub open spec fn serve_entries(es: Seq<EntryView>, j: int, g: Served, fetch_offset: i64, high_watermark: i64, cap: int) -> Served
    decreases es.len() - j,
{
    if j < 0 || j >= es.len() {
        g
    } else if es[j].0 >= fetch_offset && es[j].0 < high_watermark {
        if g.1 + entry_size(es[j]) > cap && g.0.len() > 0 {
            g
        } else {
            serve_entries(es, j + 1, (g.0.push(entry_record(es[j])), g.1 + entry_size(es[j])), fetch_offset, high_watermark, cap)
        }
    } else {
        serve_entries(es, j + 1, g, fetch_offset, high_watermark, cap)
    }
}

/// Takes the records of the batches of one segment, batch by batch.
pub open spec fn serve_batches(bs: Seq<Seq<EntryView>>, i: int, g: Served, fetch_offset: i64, high_watermark: i64, cap: int) -> Served
    decreases bs.len() - i,
{
    if i < 0 || i >= bs.len() {
        g
    } else {
        serve_batches(bs, i + 1, serve_entries(bs[i], 0, g, fetch_offset, high_watermark, cap), fetch_offset, high_watermark, cap)
    }
}

/// A batch's stored records as plain values.
pub open spec fn batch_view(b: Vec<CanonicalEntry>) -> Seq<EntryView> {
    b@.map_values(|e: CanonicalEntry| entry_view(e))
}

fn present_headers_of(headers: Vec<(String, Option<Vec<u8>>)>) -> (r: Vec<(String, Vec<u8>)>)
    ensures
        r@.map_values(|h: (String, Vec<u8>)| (h.0@, h.1@))
            == present_headers(headers@.map_values(|h: (String, Option<Vec<u8>>)| (h.0@, opt_view(h.1)))),
{
    let ghost hs = headers@.map_values(|h: (String, Option<Vec<u8>>)| (h.0@, opt_view(h.1)));
    let mut r: Vec<(String, Vec<u8>)> = Vec::new();
    proof {
        assert(hs.take(0) =~= Seq::<StoredHeaderView>::empty());
        assert(r@.map_values(|h: (String, Vec<u8>)| (h.0@, h.1@)) =~= Seq::<(Seq<char>, Seq<u8>)>::empty());
    }
    for h in it: headers.into_iter()
        invariant
            it.seq() == headers@,
            hs == headers@.map_values(|h: (String, Option<Vec<u8>>)| (h.0@, opt_view(h.1))),
            r@.map_values(|h: (String, Vec<u8>)| (h.0@, h.1@)) == present_headers(hs.take(it.index() as int)),
    {
        let ghost k = it.index() as int;
        proof {
            assert(hs[k] == (h.0@, opt_view(h.1))) by {
                assert(it.seq()[k] == h);
            }
            assert(hs.take(k + 1).drop_last() =~= hs.take(k));
            assert(hs.take(k + 1).last() == hs[k]);
        }
        let ghost before = r@.map_values(|h: (String, Vec<u8>)| (h.0@, h.1@));
        match h.1 {
            Some(v) => {
                r.push((h.0, v));
                assert(r@.map_values(|h: (String, Vec<u8>)| (h.0@, h.1@)) =~= before.push((hs[k].0, hs[k].1->0)));
            },
            None => {},
        }
    }
    proof {
        assert(hs.take(hs.len() as int) =~= hs);
    }
    r
}

fn serve_batch(records: &mut Vec<Record>, bytes: &mut usize, batch: Vec<CanonicalEntry>, fetch_offset: i64, high_watermark: i64, cap: usize)
    requires
        forall|j: int| 0 <= j < batch_view(batch).len() ==> entry_size(#[trigger] batch_view(batch)[j]) <= usize::MAX,
        old(records)@.len() == 0 ==> *old(bytes) == 0,
    ensures
        final(records)@.len() == 0 ==> *final(bytes) == 0,
        (records_view(final(records)@), *final(bytes) as int)
            == serve_entries(batch_view(batch), 0, (records_view(old(records)@), *old(bytes) as int), fetch_offset, high_watermark, cap as int),
{
    let ghost es = batch_view(batch);
    let ghost target = serve_entries(es, 0, (records_view(records@), *bytes as int), fetch_offset, high_watermark, cap as int);
    let mut stop = false;
    for e in it: batch.into_iter()
        invariant
            it.seq() == batch@,
            es == batch_view(batch),
            forall|j: int| 0 <= j < es.len() ==> entry_size(#[trigger] es[j]) <= usize::MAX,
            records@.len() == 0 ==> *bytes == 0,
            !stop ==> serve_entries(es, it.index() as int, (records_view(records@), *bytes as int), fetch_offset, high_watermark, cap as int) == target,
            stop ==> (records_view(records@), *bytes as int) == target,
    {
        let ghost k = it.index() as int;
        assert(es[k] == entry_view(e)) by {
            assert(it.seq()[k] == e);
        }
        if !stop && e.offset >= fetch_offset && e.offset < high_watermark {
            let vlen: usize = match &e.value {
                Some(v) => v.len(),
                None => 0,
            };
            let klen: usize = match &e.key {
                Some(key) => key.len(),
                None => 0,
            };
            assert(entry_size(es[k]) == vlen + klen + 24);
            let size = vlen + klen + 24;
            if records.len() > 0 && (*bytes > cap || size > cap - *bytes) {
                stop = true;
            } else {
                let ghost before = records_view(records@);
                let rec = entry_to_record(e);
                records.push(rec);
                *bytes = *bytes + size;
                assert(records_view(records@) =~= before.push(entry_record(es[k])));
            }
        }
    }
    assert(serve_entries(es, es.len() as int, (records_view(records@), *bytes as int), fetch_offset, high_watermark, cap as int)
        == (records_view(records@), *bytes as int));
}

/// Whether every stored record of `bs` is counted at a size that fits in a
/// `usize`.
pub open spec fn sizes_fit(bs: Seq<Seq<EntryView>>) -> bool {
    forall|i: int, j: int| 0 <= i < bs.len() && 0 <= j < bs[i].len() ==> entry_size(#[trigger] bs[i][j]) <= usize::MAX
}

/// Serves the records one downloaded segment holds (its batches of stored
/// records), adding them to those gathered and the bytes counted, as
/// `serve_batches` says.
pub fn serve_segment_records(
    records: &mut Vec<Record>,
    bytes_fetched: &mut usize,
    batches: Vec<Vec<CanonicalEntry>>,
    fetch_offset: i64,
    high_watermark: i64,
    max_bytes: i32,
)
    requires
        sizes_fit(batches@.map_values(|b: Vec<CanonicalEntry>| batch_view(b))),
        old(records)@.len() == 0 ==> *old(bytes_fetched) == 0,
    ensures
        final(records)@.len() == 0 ==> *final(bytes_fetched) == 0,
        (records_view(final(records)@), *final(bytes_fetched) as int) == serve_batches(
            batches@.map_values(|b: Vec<CanonicalEntry>| batch_view(b)),
            0,
            (records_view(old(records)@), *old(bytes_fetched) as int),
            fetch_offset,
            high_watermark,
            max_bytes as usize as int,
        ),
{
    let ghost bs = batches@.map_values(|b: Vec<CanonicalEntry>| batch_view(b));
    let cap = max_bytes as usize;
    let ghost target = serve_batches(bs, 0, (records_view(records@), *bytes_fetched as int), fetch_offset, high_watermark, cap as int);
    for b in it: batches.into_iter()
        invariant
            it.seq() == batches@,
            bs == batches@.map_values(|b: Vec<CanonicalEntry>| batch_view(b)),
            sizes_fit(bs),
            records@.len() == 0 ==> *bytes_fetched == 0,
            serve_batches(bs, it.index() as int, (records_view(records@), *bytes_fetched as int), fetch_offset, high_watermark, cap as int) == target,
    {
        let ghost k = it.index() as int;
        assert(bs[k] == batch_view(b)) by {
            assert(it.seq()[k] == b);
        }
        assert forall|j: int| 0 <= j < batch_view(b).len() implies entry_size(#[trigger] batch_view(b)[j]) <= usize::MAX by {
            assert(bs[k][j] == batch_view(b)[j]);
        }
        serve_batch(records, bytes_fetched, b, fetch_offset, high_watermark, cap);
    }
}

/// The fetched record a stored record becomes (see `entry_record`).
fn entry_to_record(e: CanonicalEntry) -> (r: Record)
    ensures
        record_view(r) == entry_record(entry_view(e)),
{
    let ghost src = entry_view(e);
    let value: Vec<u8> = match e.value {
        Some(v) => v,
        None => Vec::new(),
    };
    let headers = present_headers_of(e.headers);
    let rec = Record { offset: e.offset, timestamp: e.timestamp, key: e.key, value, headers };
    assert(record_view(rec).4 =~= rec.headers@.map_values(|h: (String, Vec<u8>)| (h.0@, h.1@)));
    rec
}

/// The records of archived entries read for a fetch, as fetched records
/// (see `entry_record`), sorted by offset, stably.
pub fn archive_records(entries: Vec<CanonicalEntry>) -> (r: Vec<Record>)
    ensures
        stably_sorted(batch_view(entries).map_values(as_fetched()), records_view(r@)),
{
    let ghost es = batch_view(entries);
    let mut converted: Vec<Record> = Vec::new();
    for e in it: entries.into_iter()
        invariant
            it.seq() == entries@,
            es == batch_view(entries),
            records_view(converted@) == es.take(it.index() as int).map_values(as_fetched()),
    {
        let ghost k = it.index() as int;
        assert(es[k] == entry_view(e)) by {
            assert(it.seq()[k] == e);
        }
        let ghost before = records_view(converted@);
        converted.push(entry_to_record(e));
        assert(es.take(k + 1).map_values(as_fetched()) =~= es.take(k).map_values(as_fetched()).push(entry_record(es[k])));
        assert(records_view(converted@) =~= before.push(entry_record(es[k])));
    }
    assert(es.take(es.len() as int) =~= es);
    sort_by_offset(converted)
}

proof fn lemma_serve_entries_in_range(es: Seq<EntryView>, j: int, g: Served, fetch_offset: i64, high_watermark: i64, cap: int)
    requires
        all_in_range(g.0, fetch_offset, high_watermark),
    ensures
        all_in_range(serve_entries(es, j, g, fetch_offset, high_watermark, cap).0, fetch_offset, high_watermark),
    decreases es.len() - j,
{
    if 0 <= j < es.len() {
        if es[j].0 >= fetch_offset && es[j].0 < high_watermark {
            if !(g.1 + entry_size(es[j]) > cap && g.0.len() > 0) {
                let next = g.0.push(entry_record(es[j]));
                assert forall|i: int| 0 <= i < next.len() implies fetch_offset <= (#[trigger] next[i]).0 < high_watermark by {
                    if i < g.0.len() {
                        assert(next[i] == g.0[i]);
                    }
                }
                lemma_serve_entries_in_range(es, j + 1, (next, g.1 + entry_size(es[j])), fetch_offset, high_watermark, cap);
            }
        } else {
            lemma_serve_entries_in_range(es, j + 1, g, fetch_offset, high_watermark, cap);
        }
    }
}

/// Serving uploaded segments adds only records of the requested range:
/// when everything gathered before lies in `[fetch_offset,
/// high_watermark)`, so does everything gathered after.
pub proof fn lemma_segment_records_in_range(bs: Seq<Seq<EntryView>>, i: int, g: Served, fetch_offset: i64, high_watermark: i64, cap: int)
    requires
        all_in_range(g.0, fetch_offset, high_watermark),
    ensures
        all_in_range(serve_batches(bs, i, g, fetch_offset, high_watermark, cap).0, fetch_offset, high_watermark),
    decreases bs.len() - i,
{
    if 0 <= i < bs.len() {
        lemma_serve_entries_in_range(bs[i], 0, g, fetch_offset, high_watermark, cap);
        lemma_segment_records_in_range(bs, i + 1, serve_entries(bs[i], 0, g, fetch_offset, high_watermark, cap), fetch_offset, high_watermark, cap);
    }
}

} // verus!
