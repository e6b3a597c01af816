//! Sorting slot numbers into ascending order.

use vstd::prelude::*;
use vstd::relations::{sorted_by, total_ordering};
use vstd::seq_lib::lemma_sorted_unique;

verus! {

broadcast use vstd::seq_lib::group_to_multiset_ensures;

/// The ascending order on slot numbers.
pub open spec fn slot_leq() -> spec_fn(u32, u32) -> bool {
    |a: u32, b: u32| a <= b
}

/// `s` in ascending order.
pub open spec fn ascending(s: Seq<u32>) -> Seq<u32> {
    s.sort_by(slot_leq())
}

pub(crate) proof fn lemma_slot_leq_total()
    ensures
        total_ordering(slot_leq()),
{
}

/// Returns the slot numbers of `v` in ascending order.
pub fn sort_slots(v: &Vec<u32>) -> (out: Vec<u32>)
    ensures
        out@ == ascending(v@),
{
    let mut out: Vec<u32> = Vec::new();
    let mut i: usize = 0;
    while i < v.len()
        invariant
            i <= v@.len(),
            sorted_by(out@, slot_leq()),
            out@.to_multiset() == v@.take(i as int).to_multiset(),
        decreases v@.len() - i,
    {
        let x = v[i];
        let mut pos: usize = 0;
        while pos < out.len() && out[pos] <= x
            invariant
                pos <= out@.len(),
                forall|j: int| 0 <= j < pos ==> out@[j] <= x,
            decreases out@.len() - pos,
        {
            pos = pos + 1;
        }
        let ghost before = out@;
        out.insert(pos, x);
        proof {
            assert forall|a: int, b: int| 0 <= a < b < out@.len() implies #[trigger] (slot_leq())(
                out@[a],
                out@[b],
            ) by {
                if a < pos as int && b < pos as int {
                    assert(slot_leq()(before[a], before[b]));
                } else if a < pos as int && b == pos as int {
                } else if a < pos as int {
                    assert(slot_leq()(before[a], before[b - 1]));
                } else if a == pos as int {
                    assert(pos < before.len());
                    assert(before[pos as int] > x);
                    if b - 1 > pos as int {
                        assert(slot_leq()(before[pos as int], before[b - 1]));
                    }
                } else {
                    assert(slot_leq()(before[a - 1], before[b - 1]));
                }
            }
            assert(v@.take(i + 1) =~= v@.take(i as int).push(x));
        }
        i = i + 1;
    }
    proof {
        assert(v@.take(i as int) =~= v@);
        lemma_slot_leq_total();
        v@.lemma_sort_by_ensures(slot_leq());
        lemma_sorted_unique(out@, ascending(v@), slot_leq());
    }
    out
}

} // verus!
