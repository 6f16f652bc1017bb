//! Where a segment lives in the object store, and which segments a fetch
//! of an offset range reads.
use vstd::prelude::*;

verus! {

/// A segment's id and its object-store key.
#[derive(Clone, Debug)]
pub struct SegmentInfo {
    pub segment_id: String,
    pub object_key: String,
}

impl SegmentInfo {
    /// A segment with the given id and key.
    pub fn new(segment_id: String, object_key: String) -> (s: Self)
        ensures
            s.segment_id@ == segment_id@,
            s.object_key@ == object_key@,
    {
        SegmentInfo { segment_id, object_key }
    }
}

/// A segment as the fetch path tracks it: id, first and last offset, and
/// object-store key.
#[derive(Clone, Debug)]
pub struct SegmentSpan {
    pub segment_id: String,
    pub base_offset: i64,
    pub last_offset: i64,
    pub object_key: String,
}

/// A segment span as plain values.
pub open spec fn span_view(s: SegmentSpan) -> (Seq<char>, i64, i64, Seq<char>) {
    (s.segment_id@, s.base_offset, s.last_offset, s.object_key@)
}

/// Whether a segment holds offsets of `[start_offset, end_offset)`.
pub open spec fn span_overlaps(start_offset: i64, end_offset: i64) -> spec_fn((Seq<char>, i64, i64, Seq<char>)) -> bool {
    |s: (Seq<char>, i64, i64, Seq<char>)| s.2 >= start_offset && s.1 < end_offset
}

/// The segments that hold offsets of `[start_offset, end_offset)`, in
/// their order.
pub fn segments_for_range(segments: Vec<SegmentSpan>, start_offset: i64, end_offset: i64) -> (r: Vec<SegmentSpan>)
    ensures
        r@.map_values(|s: SegmentSpan| span_view(s))
            == segments@.map_values(|s: SegmentSpan| span_view(s)).filter(span_overlaps(start_offset, end_offset)),
{
    let ghost all = segments@.map_values(|s: SegmentSpan| span_view(s));
    let ghost keep = span_overlaps(start_offset, end_offset);
    let mut r: Vec<SegmentSpan> = Vec::new();
    proof {
        reveal(Seq::filter);
        assert(all.take(0) =~= Seq::<(Seq<char>, i64, i64, Seq<char>)>::empty());
        assert(r@.map_values(|s: SegmentSpan| span_view(s)) =~= all.take(0).filter(keep));
    }
    for s in it: segments.into_iter()
        invariant
            it.seq() == segments@,
            all == segments@.map_values(|s: SegmentSpan| span_view(s)),
            keep == span_overlaps(start_offset, end_offset),
            r@.map_values(|s: SegmentSpan| span_view(s)) == all.take(it.index() as int).filter(keep),
    {
        let ghost k = it.index() as int;
        proof {
            reveal(Seq::filter);
            assert(all[k] == span_view(s)) by {
                assert(it.seq()[k] == s);
            }
            assert(all.take(k + 1).drop_last() =~= all.take(k));
            assert(all.take(k + 1).last() == all[k]);
        }
        if s.last_offset >= start_offset && s.base_offset < end_offset {
            let ghost before = r@.map_values(|s: SegmentSpan| span_view(s));
            r.push(s);
            assert(r@.map_values(|s: SegmentSpan| span_view(s)) =~= before.push(all[k]));
        }
    }
    proof {
        assert(all.take(all.len() as int) =~= all);
    }
    r
}

} // verus!
