use crate::order::{le, less, lemma_order_facts, sorted, swap, total_order};
use vstd::prelude::*;

verus! {

/// Sorts the slice in ascending order by insertion: each element in turn
/// sinks to its place in the sorted prefix before it.
pub fn insert_sort<T: Ord + Copy>(xs: &mut [T])
    requires
        total_order::<T>(),
    ensures
        sorted(final(xs)@),
        final(xs)@.to_multiset() == old(xs)@.to_multiset(),
{
    proof {
        lemma_order_facts::<T>();
    }
    let n = xs.len();
    let mut j: usize = 1;
    while j < n
        invariant
            total_order::<T>(),
            n == xs@.len(),
            1 <= j || n == 0,
            xs@.to_multiset() == old(xs)@.to_multiset(),
            forall|a: int, b: int| 0 <= a < b < j && b < n ==> le(#[trigger] xs@[a], #[trigger] xs@[b]),
        decreases n - j,
    {
        let mut i: usize = j;
        while i > 0 && less(&xs[i], &xs[i - 1])
            invariant
                total_order::<T>(),
                n == xs@.len(),
                0 <= i <= j < n,
                xs@.to_multiset() == old(xs)@.to_multiset(),
                forall|a: int, b: int|
                    0 <= a < b <= j && a != i && b != i ==> le(#[trigger] xs@[a], #[trigger] xs@[b]),
                forall|b: int| i < b <= j ==> le(xs@[i as int], #[trigger] xs@[b]),
            decreases i,
        {
            swap(xs, i - 1, i);
            i = i - 1;
        }
        proof {
            lemma_order_facts::<T>();
            assert forall|a: int, b: int| 0 <= a < b <= j implies le(#[trigger] xs@[a], #[trigger] xs@[b]) by {
                    if b == i && a < i - 1 {
                    assert(le(xs@[a], xs@[i - 1]));
                    assert(le(xs@[i - 1], xs@[b]));
                }
            }
        }
        j = j + 1;
    }
}

} // verus!
