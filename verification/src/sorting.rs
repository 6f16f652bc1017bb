//! Ascending order on partition lists.
use vstd::prelude::*;
use vstd::relations::{sorted_by, total_ordering};
use vstd::seq_lib::{group_to_multiset_ensures, lemma_sorted_unique};

verus! {

/// The order partitions are listed in.
pub open spec fn i32_leq() -> spec_fn(i32, i32) -> bool {
    |x: i32, y: i32| x <= y
}

/// `s` in ascending order.
pub open spec fn sorted_i32s(s: Seq<i32>) -> Seq<i32> {
    s.sort_by(i32_leq())
}

pub proof fn lemma_i32_leq_total()
    ensures
        total_ordering(i32_leq()),
{
}

/// A sequence that is in ascending order and holds the same elements as `s`
/// is `sorted_i32s(s)`.
pub proof fn lemma_sorted_i32s_unique(s: Seq<i32>, t: Seq<i32>)
    requires
        sorted_by(t, i32_leq()),
        t.to_multiset() == s.to_multiset(),
    ensures
        t == sorted_i32s(s),
{
    lemma_i32_leq_total();
    s.lemma_sort_by_ensures(i32_leq());
    lemma_sorted_unique(t, sorted_i32s(s), i32_leq());
}

/// A copy of `v` in ascending order.
pub fn sorted_copy(v: &Vec<i32>) -> (r: Vec<i32>)
    ensures
        r@ == sorted_i32s(v@),
        r@.len() == v@.len(),
{
    broadcast use group_to_multiset_ensures;

    let mut r: Vec<i32> = Vec::new();
    let mut i: usize = 0;
    while i < v.len()
        invariant
            i <= v.len(),
            sorted_by(r@, i32_leq()),
            r@.to_multiset() == v@.take(i as int).to_multiset(),
        decreases v.len() - i,
    {
        let x = v[i];
        let mut k: usize = 0;
        while k < r.len() && r[k] <= x
            invariant
                k <= r.len(),
                forall|j: int| 0 <= j < k ==> r@[j] <= x,
            decreases r.len() - k,
        {
            k += 1;
        }
        proof {
            assert forall|j: int| k <= j < r@.len() implies x < r@[j] by {
                assert(r@[k as int] > x);
                assert(i32_leq()(r@[k as int], r@[j]) || j == k);
            }
        }
        let ghost old_r = r@;
        r.insert(k, x);
        proof {
            assert(v@.take(i as int + 1) == v@.take(i as int).push(x));
            assert(r@ == old_r.insert(k as int, x));
            vstd::seq_lib::to_multiset_insert(old_r, k as int, x);
            vstd::seq_lib::to_multiset_build(v@.take(i as int), x);
            assert forall|a: int, b: int| 0 <= a < b < r@.len() implies #[trigger] i32_leq()(
                r@[a],
                r@[b],
            ) by {
                if b < k {
                    assert(i32_leq()(old_r[a], old_r[b]));
                } else if b == k {
                } else if a < k {
                    assert(r@[b] == old_r[b - 1]);
                } else if a == k {
                    assert(r@[b] == old_r[b - 1]);
                } else {
                    assert(i32_leq()(old_r[a - 1], old_r[b - 1]));
                }
            }
        }
        i += 1;
    }
    proof {
        assert(v@.take(v@.len() as int) == v@);
        lemma_sorted_i32s_unique(v@, r@);
        assert(r@.len() == r@.to_multiset().len());
        assert(v@.len() == v@.to_multiset().len());
    }
    r
}

} // verus!
