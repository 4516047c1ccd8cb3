use crate::order::{le, less, lemma_order_facts, sorted, swap, total_order};
use vstd::prelude::*;

verus! {

/// Sorts the slice in ascending order by repeated passes that swap
/// neighbours out of order; each pass carries the largest remaining element
/// to the end.
pub fn bubble_sort<T: Ord + Copy>(xs: &mut [T])
    requires
        total_order::<T>(),
    ensures
        sorted(final(xs)@),
        final(xs)@.to_multiset() == old(xs)@.to_multiset(),
{
    let n = xs.len();
    let mut i: usize = 0;
    while i < n
        invariant
            total_order::<T>(),
            n == xs@.len(),
            i <= n,
            xs@.to_multiset() == old(xs)@.to_multiset(),
            forall|a: int, b: int| 0 <= a < b < n && b >= n - i ==> le(#[trigger] xs@[a], #[trigger] xs@[b]),
        decreases n - i,
    {
        let mut j: usize = 0;
        while j < n - i - 1
            invariant
                total_order::<T>(),
                n == xs@.len(),
                i < n,
                j <= n - i - 1,
                xs@.to_multiset() == old(xs)@.to_multiset(),
                forall|a: int, b: int| 0 <= a < b < n && b >= n - i ==> le(#[trigger] xs@[a], #[trigger] xs@[b]),
                forall|a: int| 0 <= a < j ==> le(#[trigger] xs@[a], xs@[j as int]),
            decreases n - i - 1 - j,
        {
            proof {
                lemma_order_facts::<T>();
            }
            if less(&xs[j + 1], &xs[j]) {
                swap(xs, j, j + 1);
            }
            j = j + 1;
        }
        proof {
            lemma_order_facts::<T>();
        }
        i = i + 1;
    }
}

} // verus!
