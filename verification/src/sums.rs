//! Sums over a list of vertices, and their independence of the order.

use vstd::prelude::*;

verus! {

/// The sum of `f` over the vertices of `order`.
pub open spec fn sum_over(order: Seq<u32>, f: spec_fn(u32) -> nat) -> nat
    decreases order.len(),
{
    if order.len() == 0 {
        0
    } else {
        sum_over(order.drop_last(), f) + f(order.last())
    }
}

/// Leaving one vertex out of the order takes its share out of the sum.
pub proof fn lemma_sum_without(order: Seq<u32>, f: spec_fn(u32) -> nat, j: int)
    requires
        0 <= j < order.len(),
    ensures
        sum_over(order, f) == sum_over(order.remove(j), f) + f(order[j]),
    decreases order.len(),
{
    if j == order.len() - 1 {
        assert(order.remove(j) =~= order.drop_last());
    } else {
        lemma_sum_without(order.drop_last(), f, j);
        assert(order.remove(j).drop_last() =~= order.drop_last().remove(j));
        assert(order.remove(j).last() == order.last());
    }
}

/// A sum over the same vertices, each taken once, does not depend on the
/// order in which they are taken.
pub proof fn lemma_sum_any_order(first: Seq<u32>, second: Seq<u32>, f: spec_fn(u32) -> nat)
    requires
        first.no_duplicates(),
        second.no_duplicates(),
        first.to_set() == second.to_set(),
    ensures
        sum_over(first, f) == sum_over(second, f),
    decreases first.len(),
{
    if first.len() == 0 {
        if second.len() > 0 {
            assert(second.contains(second[0]));
            assert(second.to_set().contains(second[0]));
            assert(first.contains(second[0]));
        }
    } else {
        let x = first.last();
        assert(first.contains(x));
        assert(first.to_set().contains(x));
        assert(second.contains(x));
        let j = choose|j: int| 0 <= j < second.len() && second[j] == x;
        let shorter = first.drop_last();
        let rest = second.remove(j);
        assert forall|v: u32| shorter.to_set().contains(v) <==> rest.to_set().contains(v) by {
            if shorter.contains(v) {
                let i = choose|i: int| 0 <= i < shorter.len() && shorter[i] == v;
                assert(first[i] == v);
                assert(first.contains(v));
                assert(second.to_set().contains(v));
                let k = choose|k: int| 0 <= k < second.len() && second[k] == v;
                if k < j {
                    assert(rest[k] == v);
                } else {
                    assert(rest[k - 1] == v);
                }
            }
            if rest.contains(v) {
                let k = choose|k: int| 0 <= k < rest.len() && rest[k] == v;
                if k < j {
                    assert(second[k] == v);
                } else {
                    assert(second[k + 1] == v);
                }
                assert(second.contains(v));
                assert(first.to_set().contains(v));
                let i = choose|i: int| 0 <= i < first.len() && first[i] == v;
                assert(shorter[i] == v);
            }
        }
        assert(shorter.to_set() =~= rest.to_set());
        lemma_sum_any_order(shorter, rest, f);
        lemma_sum_without(second, f, j);
    }
}

} // verus!
