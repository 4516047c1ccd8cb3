use crate::order::{le, less, lemma_order_facts, sorted, swap, total_order};
use vstd::prelude::*;

verus! {

/// Sorts the slice in ascending order by selection: each position in turn
/// takes the smallest element of those not yet placed.
pub fn selection_sort<T: Ord + Copy>(xs: &mut [T])
    requires
        total_order::<T>(),
    ensures
        sorted(final(xs)@),
        final(xs)@.to_multiset() == old(xs)@.to_multiset(),
{
    let n = xs.len();
    if n == 0 {
        return;
    }
    let mut j: usize = 0;
    while j < n - 1
        invariant
            total_order::<T>(),
            n == xs@.len(),
            n >= 1,
            j <= n - 1,
            xs@.to_multiset() == old(xs)@.to_multiset(),
            forall|a: int, b: int| 0 <= a < b < n && a < j ==> le(#[trigger] xs@[a], #[trigger] xs@[b]),
        decreases n - j,
    {
        let mut min: usize = j;
        let mut i: usize = j;
        while i < n
            invariant
                total_order::<T>(),
                n == xs@.len(),
                j <= min < n,
                j <= i <= n,
                forall|k: int| j <= k < i ==> le(xs@[min as int], #[trigger] xs@[k]),
            decreases n - i,
        {
            proof {
                lemma_order_facts::<T>();
            }
            if less(&xs[i], &xs[min]) {
                min = i;
            }
            i = i + 1;
        }
        if min != j {
            swap(xs, min, j);
        }
        proof {
            lemma_order_facts::<T>();
        }
        j = j + 1;
    }
}

} // verus!
