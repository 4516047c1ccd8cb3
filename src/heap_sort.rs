use crate::heap_order::{heap_from, is_heap, lemma_heap_top, parent, sift_down};
use crate::order::{le, lemma_multiset_splice, lemma_order_facts, sorted, sorted_range, swap, total_order};
use vstd::prelude::*;

verus! {

/// Sorts the slice in ascending order: makes it a max-heap, then moves the
/// top of the heap to the end of the shrinking heap, one element at a time.
pub fn heap_sort<T: Ord + Copy>(xs: &mut [T])
    requires
        total_order::<T>(),
        2 * old(xs)@.len() + 2 <= usize::MAX,
    ensures
        sorted(final(xs)@),
        final(xs)@.to_multiset() == old(xs)@.to_multiset(),
{
    broadcast use vstd::seq_lib::group_to_multiset_ensures;

    let n = xs.len();
    if n <= 1 {
        return;
    }
    build_max_heap(xs);
    let mut heap_size: usize = n;
    let mut i: usize = n - 1;
    while i >= 1
        invariant
            total_order::<T>(),
            n == xs@.len(),
            2 * n + 2 <= usize::MAX,
            i < n,
            heap_size == i + 1,
            is_heap(xs@, i + 1, true),
            sorted_range(xs@, i + 1, n as int),
            i + 1 < n ==> le(xs@[0], xs@[i + 1]),
            xs@.to_multiset() == old(xs)@.to_multiset(),
        decreases i,
    {
        proof {
            lemma_order_facts::<T>();
        }
        let ghost before = xs@;
        swap(xs, 0, i);
        heap_size = heap_size - 1;
        let ghost swapped = xs@;
        proof {
            assert forall|a: int| 0 <= a < i implies le(#[trigger] swapped[a], swapped[i as int]) by {
                if a == 0 {
                    lemma_heap_top(before, i + 1, true, i as int);
                } else {
                    lemma_heap_top(before, i + 1, true, a);
                }
            }
        }
        sift_down(xs, 0, heap_size, true);
        proof {
            lemma_multiset_splice(xs@, swapped, 0, i as int);
            assert(xs@.subrange(0, i as int)[0] == xs@[0]);
            assert(xs@.subrange(0, i as int).contains(xs@[0]));
            vstd::seq_lib::to_multiset_contains(xs@.subrange(0, i as int), xs@[0]);
            vstd::seq_lib::to_multiset_contains(swapped.subrange(0, i as int), xs@[0]);
            assert(swapped.subrange(0, i as int).to_multiset().count(xs@[0]) > 0);
            assert(swapped.subrange(0, i as int).contains(xs@[0]));
            let a = choose|a: int| 0 <= a < i && swapped.subrange(0, i as int)[a] == xs@[0];
            assert(le(swapped[a], swapped[i as int]));
            lemma_heap_top(before, i + 1, true, 0);
        }
        i = i - 1;
    }
    proof {
        lemma_order_facts::<T>();
    }
}

/// Arranges the slice as a max-heap.
fn build_max_heap<T: Ord + Copy>(xs: &mut [T])
    requires
        total_order::<T>(),
        old(xs)@.len() >= 1,
        2 * old(xs)@.len() + 2 <= usize::MAX,
    ensures
        final(xs)@.len() == old(xs)@.len(),
        is_heap(final(xs)@, final(xs)@.len() as int, true),
        final(xs)@.to_multiset() == old(xs)@.to_multiset(),
{
    let n = xs.len();
    let mut i: usize = parent(n) + 1;
    proof {
        assert(xs@.subrange(0, n as int) =~= xs@);
    }
    while i > 0
        invariant
            total_order::<T>(),
            n == xs@.len(),
            n >= 1,
            2 * n + 2 <= usize::MAX,
            i <= n,
            heap_from(xs@, i as int, n as int, true),
            xs@.to_multiset() == old(xs)@.to_multiset(),
        decreases i,
    {
        i = i - 1;
        let ghost before = xs@;
        sift_down(xs, i, n, true);
        proof {
            assert(xs@.subrange(0, n as int) =~= xs@);
            assert(before.subrange(0, n as int) =~= before);
        }
    }
}

} // verus!
