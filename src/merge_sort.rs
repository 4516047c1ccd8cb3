use crate::order::{
    le, less, lemma_multiset_splice, lemma_order_facts, sorted, sorted_range, total_order,
};
use vstd::prelude::*;
use vstd::seq_lib::lemma_multiset_commutative;

verus! {

/// Sorts the slice in ascending order by merging sorted halves.
pub fn merge_sort<T: Ord + Copy>(xs: &mut [T])
    requires
        total_order::<T>(),
    ensures
        sorted(final(xs)@),
        final(xs)@.to_multiset() == old(xs)@.to_multiset(),
{
    if xs.len() == 0 {
        return;
    }
    let hi = xs.len() - 1;
    recursive_sort(xs, 0, hi);
}

/// Sorts the part `lo..=hi` and leaves the rest as it was.
fn recursive_sort<T: Ord + Copy>(xs: &mut [T], lo: usize, hi: usize)
    requires
        total_order::<T>(),
        lo <= hi < old(xs)@.len(),
    ensures
        final(xs)@.len() == old(xs)@.len(),
        sorted_range(final(xs)@, lo as int, hi + 1),
        final(xs)@.to_multiset() == old(xs)@.to_multiset(),
        forall|k: int|
            0 <= k < old(xs)@.len() && !(lo <= k <= hi) ==> final(xs)@[k] == old(xs)@[k],
    decreases hi - lo,
{
    if hi <= lo {
        return;
    }
    let mid = lo + (hi - lo) / 2;
    recursive_sort(xs, lo, mid);
    recursive_sort(xs, mid + 1, hi);
    merge(xs, lo, mid, hi);
}

/// Merges the sorted parts `lo..=mid` and `mid + 1..=hi` into one sorted part.
fn merge<T: Ord + Copy>(xs: &mut [T], lo: usize, mid: usize, hi: usize)
    requires
        total_order::<T>(),
        lo <= mid < hi < old(xs)@.len(),
        sorted_range(old(xs)@, lo as int, mid + 1),
        sorted_range(old(xs)@, mid + 1, hi + 1),
    ensures
        final(xs)@.len() == old(xs)@.len(),
        sorted_range(final(xs)@, lo as int, hi + 1),
        final(xs)@.to_multiset() == old(xs)@.to_multiset(),
        forall|k: int|
            0 <= k < old(xs)@.len() && !(lo <= k <= hi) ==> final(xs)@[k] == old(xs)@[k],
{
    broadcast use vstd::seq_lib::group_to_multiset_ensures;
    broadcast use vstd::multiset::group_multiset_axioms;

    let ghost orig = xs@;
    let mut temp: Vec<T> = Vec::new();
    let mut k: usize = lo;
    while k <= hi
        invariant
            lo <= k <= hi + 1,
            hi < xs@.len(),
            xs@ == orig,
            temp@ == orig.subrange(lo as int, k as int),
        decreases hi + 1 - k,
    {
        temp.push(xs[k]);
        k = k + 1;
    }
    let m: usize = mid - lo + 1;
    let len: usize = hi - lo + 1;
    let mut i: usize = 0;
    let mut j: usize = m;
    k = lo;
    while k <= hi
        invariant
            total_order::<T>(),
            lo <= mid < hi < xs@.len(),
            xs@.len() == orig.len(),
            m == mid - lo + 1,
            len == hi - lo + 1,
            temp@ == orig.subrange(lo as int, hi + 1),
            0 <= i <= m <= j <= len,
            k == lo + i + (j - m),
            forall|a: int, b: int| 0 <= a < b < m ==> le(#[trigger] temp@[a], #[trigger] temp@[b]),
            forall|a: int, b: int| m <= a < b < len ==> le(#[trigger] temp@[a], #[trigger] temp@[b]),
            sorted_range(xs@, lo as int, k as int),
            k > lo && i < m ==> le(xs@[k - 1], temp@[i as int]),
            k > lo && j < len ==> le(xs@[k - 1], temp@[j as int]),
            xs@.subrange(lo as int, k as int).to_multiset() == temp@.subrange(0, i as int).to_multiset().add(
                temp@.subrange(m as int, j as int).to_multiset(),
            ),
            forall|q: int| 0 <= q < orig.len() && !(lo <= q <= hi) ==> xs@[q] == orig[q],
        decreases hi + 1 - k,
    {
        proof {
            lemma_order_facts::<T>();
        }
        let ghost before = xs@;
        let ghost left_part = temp@.subrange(0, i as int).to_multiset();
        let ghost right_part = temp@.subrange(m as int, j as int).to_multiset();
        let take_right = if i >= m {
            true
        } else if j >= len {
            false
        } else {
            less(&temp[j], &temp[i])
        };
        if take_right {
            xs[k] = temp[j];
            proof {
                assert(temp@.subrange(m as int, j + 1) =~= temp@.subrange(m as int, j as int).push(temp@[j as int]));
                vstd::seq_lib::to_multiset_build(temp@.subrange(m as int, j as int), temp@[j as int]);
            }
            j = j + 1;
        } else {
            xs[k] = temp[i];
            proof {
                assert(temp@.subrange(0, i + 1) =~= temp@.subrange(0, i as int).push(temp@[i as int]));
                vstd::seq_lib::to_multiset_build(temp@.subrange(0, i as int), temp@[i as int]);
            }
            i = i + 1;
        }
        proof {
            assert(xs@.subrange(lo as int, k + 1) =~= before.subrange(lo as int, k as int).push(xs@[k as int]));
            let v = xs@[k as int];
            vstd::seq_lib::to_multiset_build(before.subrange(lo as int, k as int), v);
            assert(xs@.subrange(lo as int, k + 1).to_multiset() == left_part.add(right_part).insert(v));
            if take_right {
                assert(temp@.subrange(m as int, j as int).to_multiset() == right_part.insert(v));
                assert(left_part.add(right_part).insert(v) =~= left_part.add(right_part.insert(v)));
            } else {
                assert(temp@.subrange(0, i as int).to_multiset() == left_part.insert(v));
                assert(left_part.add(right_part).insert(v) =~= left_part.insert(v).add(right_part));
            }
        }
        k = k + 1;
    }
    proof {
        assert(temp@.subrange(0, m as int) + temp@.subrange(m as int, len as int) =~= temp@);
        lemma_multiset_commutative(temp@.subrange(0, m as int), temp@.subrange(m as int, len as int));
        assert(temp@.subrange(0, i as int) =~= temp@.subrange(0, m as int));
        assert(temp@.subrange(m as int, j as int) =~= temp@.subrange(m as int, len as int));
        lemma_multiset_splice(xs@, orig, lo as int, hi + 1);
    }
}

} // verus!
