use crate::order::{
    le, less, lemma_lower_bound_kept, lemma_order_facts, lemma_swap_multiset_range,
    lemma_upper_bound_kept, sorted, sorted_range, swap, total_order,
};
use vstd::prelude::*;

verus! {

/// Sorts the slice in ascending order: splits it around a pivot, then sorts
/// both sides.
pub fn quick_sort<T: Ord + Copy>(xs: &mut [T])
    requires
        total_order::<T>(),
    ensures
        sorted(final(xs)@),
        final(xs)@.to_multiset() == old(xs)@.to_multiset(),
{
    if xs.len() == 0 {
        return;
    }
    let high = xs.len() - 1;
    quick_sort2(xs, 0, high);
    proof {
        assert(xs@.subrange(0, xs@.len() as int) =~= xs@);
        assert(old(xs)@.subrange(0, xs@.len() as int) =~= old(xs)@);
    }
}

/// Sorts the part `low..=high` and leaves the rest as it was.
fn quick_sort2<T: Ord + Copy>(xs: &mut [T], low: usize, high: usize)
    requires
        total_order::<T>(),
        high < old(xs)@.len(),
        low <= high + 1,
    ensures
        final(xs)@.len() == old(xs)@.len(),
        sorted_range(final(xs)@, low as int, high + 1),
        final(xs)@.subrange(low as int, high + 1).to_multiset() == old(xs)@.subrange(
            low as int,
            high + 1,
        ).to_multiset(),
        forall|k: int|
            0 <= k < old(xs)@.len() && !(low <= k <= high) ==> final(xs)@[k] == old(xs)@[k],
    decreases high + 1 - low,
{
    if low >= high {
        return;
    }
    let n = xs.len();
    let j = partition(xs, low, high);
    let ghost parted = xs@;
    if j > low {
        quick_sort2(xs, low, j - 1);
    }
    let ghost left_done = xs@;
    quick_sort2(xs, j + 1, high);
    proof {
        lemma_order_facts::<T>();
        let p = parted[j as int];
        if j > low {
            lemma_upper_bound_kept(left_done, parted, low as int, j as int, p);
        }
        assert(left_done.subrange(j + 1, high + 1) =~= parted.subrange(j + 1, high + 1));
        lemma_lower_bound_kept(xs@, left_done, j + 1, high + 1, p);
        assert forall|a: int, b: int| low <= a < b <= high implies le(#[trigger] xs@[a], #[trigger] xs@[b]) by {
            if a < j && b > j {
                assert(le(xs@[a], p));
                assert(le(p, xs@[b]));
            } else if a == j && b > j {
                assert(le(p, xs@[b]));
            } else if a < j && b == j {
                assert(le(xs@[a], p));
            }
        }
        let s0 = old(xs)@;
        let whole = |s: Seq<T>| s.subrange(low as int, high + 1);
        assert(whole(xs@) =~= xs@.subrange(low as int, j as int) + xs@.subrange(j as int, j + 1) + xs@.subrange(j + 1, high + 1));
        assert(whole(parted) =~= parted.subrange(low as int, j as int) + parted.subrange(j as int, j + 1) + parted.subrange(j + 1, high + 1));
        assert(xs@.subrange(low as int, j as int) =~= left_done.subrange(low as int, j as int));
        assert(xs@.subrange(j as int, j + 1) =~= parted.subrange(j as int, j + 1));
        if j == low {
            assert(left_done.subrange(low as int, j as int) =~= parted.subrange(low as int, j as int));
        }
        vstd::seq_lib::lemma_multiset_commutative(xs@.subrange(low as int, j as int), xs@.subrange(j as int, j + 1));
        vstd::seq_lib::lemma_multiset_commutative(xs@.subrange(low as int, j as int) + xs@.subrange(j as int, j + 1), xs@.subrange(j + 1, high + 1));
        vstd::seq_lib::lemma_multiset_commutative(parted.subrange(low as int, j as int), parted.subrange(j as int, j + 1));
        vstd::seq_lib::lemma_multiset_commutative(parted.subrange(low as int, j as int) + parted.subrange(j as int, j + 1), parted.subrange(j + 1, high + 1));
    }
}

/// Splits the part `low..=high` around its first element: smaller or equal
/// elements before it, greater or equal ones after it. Returns the pivot's
/// final index.
fn partition<T: Ord + Copy>(xs: &mut [T], low: usize, high: usize) -> (j: usize)
    requires
        total_order::<T>(),
        low < high < old(xs)@.len(),
    ensures
        final(xs)@.len() == old(xs)@.len(),
        low <= j <= high,
        forall|k: int| low <= k < j ==> le(#[trigger] final(xs)@[k], final(xs)@[j as int]),
        forall|k: int| j < k <= high ==> le(final(xs)@[j as int], #[trigger] final(xs)@[k]),
        final(xs)@.subrange(low as int, high + 1).to_multiset() == old(xs)@.subrange(
            low as int,
            high + 1,
        ).to_multiset(),
        forall|k: int|
            0 <= k < old(xs)@.len() && !(low <= k <= high) ==> final(xs)@[k] == old(xs)@[k],
{
    let v = xs[low];
    let mut i: usize = low;
    let mut j: usize = high + 1;
    loop
        invariant_except_break
            low <= i < j <= high + 1,
            i < high,
            forall|k: int| low < k <= i ==> le(#[trigger] xs@[k], v),
            forall|k: int| j <= k <= high ==> le(v, #[trigger] xs@[k]),
        invariant
            total_order::<T>(),
            low < high < xs@.len(),
            xs@.len() == old(xs)@.len(),
            xs@[low as int] == v,
            low <= i <= high,
            low <= j <= high + 1,
            xs@.subrange(low as int, high + 1).to_multiset() == old(xs)@.subrange(
                low as int,
                high + 1,
            ).to_multiset(),
            forall|k: int|
                0 <= k < old(xs)@.len() && !(low <= k <= high) ==> xs@[k] == old(xs)@[k],
        ensures
            low <= j <= high,
            forall|k: int| low < k <= j ==> le(#[trigger] xs@[k], v),
            forall|k: int| j < k <= high ==> le(v, #[trigger] xs@[k]),
        decreases j - i,
    {
        proof {
            lemma_order_facts::<T>();
        }
        let ghost i0 = i;
        let ghost j0 = j;
        i = i + 1;
        while i < high && less(&xs[i], &v)
            invariant
                total_order::<T>(),
                i > i0,
                low < i <= high,
                xs@.len() == old(xs)@.len(),
                high < xs@.len(),
                forall|k: int| low < k < i ==> le(#[trigger] xs@[k], v),
            decreases high - i,
        {
            proof {
                lemma_order_facts::<T>();
            }
            i = i + 1;
        }
        j = j - 1;
        while j > low && less(&v, &xs[j])
            invariant
                total_order::<T>(),
                j < j0,
                low <= j <= high,
                xs@.len() == old(xs)@.len(),
                high < xs@.len(),
                forall|k: int| j < k <= high ==> le(v, #[trigger] xs@[k]),
            decreases j,
        {
            proof {
                lemma_order_facts::<T>();
            }
            j = j - 1;
        }
        proof {
            lemma_order_facts::<T>();
        }
        if i >= j {
            break;
        }
        let ghost before = xs@;
        swap(xs, i, j);
        proof {
            lemma_swap_multiset_range(before, i as int, j as int, low as int, high + 1);
        }
    }
    let ghost before = xs@;
    swap(xs, low, j);
    proof {
        lemma_swap_multiset_range(before, low as int, j as int, low as int, high + 1);
    }
    j
}

} // verus!
