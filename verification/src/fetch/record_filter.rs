//! Choosing the records of a fetch: those in an offset range, up to a byte
//! budget that the first chosen record may exceed on its own.
use vstd::prelude::*;
use crate::fetch::record::{Record, record_view, records_view};
use crate::fetch::raw_batch::RecordView;

verus! {

/// The bytes a record counts for: value, key (if any) and 24 of overhead.
pub open spec fn record_size(r: RecordView) -> int {
    r.3.len() + match r.2 {
        Some(k) => k.len() as int,
        None => 0,
    } + 24
}

/// The records of `rs` chosen after `acc` (holding `bytes`): those with an
/// offset in `[start, end)`, in order, stopping before the first that would
/// take the total over `limit` once something is chosen.
pub open spec fn choose_records(rs: Seq<RecordView>, start: i64, end: i64, limit: int, acc: Seq<RecordView>, bytes: int) -> Seq<RecordView>
    decreases rs.len(),
{
    if rs.len() == 0 {
        acc
    } else {
        let r = rs[0];
        if start <= r.0 && r.0 < end {
            if bytes + record_size(r) > limit && acc.len() > 0 {
                acc
            } else {
                choose_records(rs.drop_first(), start, end, limit, acc.push(r), bytes + record_size(r))
            }
        } else {
            choose_records(rs.drop_first(), start, end, limit, acc, bytes)
        }
    }
}

/// The records of `rs` with an offset in `[start, end)`, in order.
pub open spec fn in_range(rs: Seq<RecordView>, start: i64, end: i64) -> Seq<RecordView>
    decreases rs.len(),
{
    if rs.len() == 0 {
        Seq::empty()
    } else if start <= rs[0].0 && rs[0].0 < end {
        seq![rs[0]] + in_range(rs.drop_first(), start, end)
    } else {
        in_range(rs.drop_first(), start, end)
    }
}

/// The bytes records count for together.
pub open spec fn total_size(s: Seq<RecordView>) -> int
    decreases s.len(),
{
    if s.len() == 0 { 0 } else { total_size(s.drop_last()) + record_size(s.last()) }
}

/// What a fetch within a budget serves: a prefix of the in-range records,
/// within `limit` unless it is a single record, and cut only where the next
/// in-range record would take it over `limit`.
pub open spec fn budget_prefix(rs: Seq<RecordView>, start: i64, end: i64, limit: int, out: Seq<RecordView>) -> bool {
    let ir = in_range(rs, start, end);
    &&& out.len() <= ir.len()
    &&& out == ir.take(out.len() as int)
    &&& (out.len() <= 1 || total_size(out) <= limit)
    &&& out.len() < ir.len() ==> out.len() > 0 && total_size(out) + record_size(ir[out.len() as int]) > limit
}

proof fn lemma_choose_from(rs: Seq<RecordView>, start: i64, end: i64, limit: int, acc: Seq<RecordView>, bytes: int)
    requires
        bytes == total_size(acc),
        acc.len() <= 1 || bytes <= limit,
    ensures
        ({
            let out = choose_records(rs, start, end, limit, acc, bytes);
            let ir = in_range(rs, start, end);
            let k = out.len() - acc.len();
            &&& 0 <= k <= ir.len()
            &&& out == acc + ir.take(k)
            &&& (out.len() <= 1 || total_size(out) <= limit)
            &&& k < ir.len() ==> out.len() > 0 && total_size(out) + record_size(ir[k]) > limit
        }),
    decreases rs.len(),
{
    if rs.len() == 0 {
        assert(acc + Seq::<RecordView>::empty().take(0) =~= acc);
    } else {
        let r = rs[0];
        let tail = rs.drop_first();
        if start <= r.0 && r.0 < end {
            let ir = in_range(rs, start, end);
            assert(ir == seq![r] + in_range(tail, start, end));
            if bytes + record_size(r) > limit && acc.len() > 0 {
                assert(acc + ir.take(0) =~= acc);
            } else {
                let acc2 = acc.push(r);
                assert(acc2.drop_last() =~= acc);
                lemma_choose_from(tail, start, end, limit, acc2, bytes + record_size(r));
                let out = choose_records(tail, start, end, limit, acc2, bytes + record_size(r));
                let k = out.len() - acc.len();
                let it = in_range(tail, start, end);
                assert(out == acc2 + it.take(k - 1));
                assert(ir.take(k) =~= seq![r] + it.take(k - 1));
                assert(out =~= acc + ir.take(k));
                if k < ir.len() {
                    assert(ir[k] == it[k - 1]);
                }
            }
        } else {
            lemma_choose_from(tail, start, end, limit, acc, bytes);
        }
    }
}

/// The records a fetch serves within a budget are a prefix of those in the
/// range: nothing in range is skipped to serve a later one; they stay
/// within the budget unless one record alone exceeds it, and they stop
/// only where the next in-range record would go over it.
pub proof fn lemma_chosen_prefix(rs: Seq<RecordView>, start: i64, end: i64, limit: int)
    ensures
        budget_prefix(rs, start, end, limit, choose_records(rs, start, end, limit, Seq::empty(), 0)),
{
    lemma_choose_from(rs, start, end, limit, Seq::empty(), 0);
    let out = choose_records(rs, start, end, limit, Seq::empty(), 0);
    let ir = in_range(rs, start, end);
    assert(Seq::<RecordView>::empty() + ir.take(out.len() as int) =~= ir.take(out.len() as int));
}

/// Filters records by offset range and byte budget.
pub struct RecordFilter;

impl RecordFilter {
    /// The records with an offset in `[start_offset, end_offset)`, in order,
    /// stopping before the first whose size would take the total over
    /// `max_bytes` (read as `usize`) once at least one is chosen.
    pub fn filter_by_range(records: Vec<Record>, start_offset: i64, end_offset: i64, max_bytes: i32) -> (r: Vec<Record>)
        ensures
            records_view(r@) == choose_records(records_view(records@), start_offset, end_offset, (max_bytes as usize) as int, Seq::empty(), 0),
            budget_prefix(records_view(records@), start_offset, end_offset, (max_bytes as usize) as int, records_view(r@)),
    {
        proof {
            lemma_chosen_prefix(records_view(records@), start_offset, end_offset, (max_bytes as usize) as int);
        }
        let ghost all = records_view(records@);
        let ghost src = records@;
        let limit: u128 = (max_bytes as usize) as u128;
        let mut chosen: Vec<Record> = Vec::new();
        let mut bytes: u128 = 0;
        assert(records_view(chosen@) =~= Seq::<RecordView>::empty());
        assert(all.subrange(0, all.len() as int) =~= all);
        for rec in it: records.into_iter()
            invariant
                it.seq() == src,
                all == records_view(src),
                0 <= it.index() <= all.len(),
                choose_records(all.subrange(it.index(), all.len() as int), start_offset, end_offset, limit as int, records_view(chosen@), bytes as int)
                    == choose_records(all, start_offset, end_offset, (max_bytes as usize) as int, Seq::empty(), 0),
                limit == (max_bytes as usize) as u128,
                bytes <= 0x4_0000_0000_0000_0000u128,
                chosen@.len() == 0 ==> bytes == 0,
        {
            proof {
                let tail = all.subrange(it.index(), all.len() as int);
                assert(tail[0] == record_view(rec));
                assert(tail.drop_first() =~= all.subrange(it.index() + 1, all.len() as int));
            }
            if rec.offset >= start_offset && rec.offset < end_offset {
                let key_len: usize = match &rec.key {
                    Some(k) => k.len(),
                    None => 0,
                };
                let size: u128 = rec.value.len() as u128 + key_len as u128 + 24;
                if bytes + size > limit && chosen.len() > 0 {
                    proof {
                        lemma_chosen_prefix(all, start_offset, end_offset, (max_bytes as usize) as int);
                    }
                    return chosen;
                }
                let ghost cb = chosen@;
                chosen.push(rec);
                assert(records_view(chosen@) =~= records_view(cb).push(record_view(rec)));
                bytes = bytes + size;
            }
        }
        proof {
            assert(all.subrange(all.len() as int, all.len() as int) =~= Seq::<RecordView>::empty());
        }
        chosen
    }
}

} // verus!
