use crate::order::{le, less, lemma_order_facts, sorted, swap, total_order};
use vstd::prelude::*;

verus! {

/// The factor between two gaps.
const STEP: usize = 3;

/// The gaps of the sort: 1, 4, 13, 40, ..., each three times the one
/// before plus one.
pub open spec fn is_gap(h: nat) -> bool
    decreases h,
{
    if h <= 1 {
        h == 1
    } else {
        h % 3 == 1 && is_gap(h / 3)
    }
}

/// Sorts the slice in ascending order by insertion over shrinking gaps,
/// ending with gap one.
pub fn shell_sort<T: Ord + Copy>(xs: &mut [T])
    requires
        total_order::<T>(),
    ensures
        sorted(final(xs)@),
        final(xs)@.to_multiset() == old(xs)@.to_multiset(),
{
    let n = xs.len();
    if n == 0 {
        return;
    }
    let mut h: usize = 1;
    let mut temp: usize = 1;
    loop
        invariant
            n == xs@.len(),
            n >= 1,
            temp == h,
            1 <= h <= n,
            is_gap(h as nat),
        ensures
            1 <= h <= n,
            is_gap(h as nat),
        decreases n - h,
    {
        if temp > (n - 1) / STEP {
            break;
        }
        temp = STEP * temp + 1;
        proof {
            assert(temp / 3 == h);
        }
        h = temp;
    }
    while h >= 1
        invariant
            total_order::<T>(),
            n == xs@.len(),
            h == 0 ==> sorted(xs@),
            h >= 1 ==> is_gap(h as nat),
            xs@.to_multiset() == old(xs)@.to_multiset(),
        decreases h,
    {
        gap_pass(xs, h);
        h = h / STEP;
    }
}

/// One pass of insertion over gap `h`: each element sinks, `h` places at a
/// time, past the larger ones before it.
fn gap_pass<T: Ord + Copy>(xs: &mut [T], h: usize)
    requires
        total_order::<T>(),
        h >= 1,
    ensures
        final(xs)@.len() == old(xs)@.len(),
        final(xs)@.to_multiset() == old(xs)@.to_multiset(),
        h == 1 ==> sorted(final(xs)@),
{
    let n = xs.len();
    let mut i: usize = h;
    while i < n
        invariant
            total_order::<T>(),
            h >= 1,
            n == xs@.len(),
            h <= i || n < h,
            xs@.to_multiset() == old(xs)@.to_multiset(),
            h == 1 ==> forall|a: int, b: int|
                0 <= a < b < i && b < n ==> le(#[trigger] xs@[a], #[trigger] xs@[b]),
        decreases n - i,
    {
        let mut j: usize = i;
        while j >= h && less(&xs[j], &xs[j - h])
            invariant
                total_order::<T>(),
                h >= 1,
                n == xs@.len(),
                j <= i < n,
                xs@.to_multiset() == old(xs)@.to_multiset(),
                h == 1 ==> forall|a: int, b: int|
                    0 <= a < b <= i && a != j && b != j ==> le(#[trigger] xs@[a], #[trigger] xs@[b]),
                h == 1 ==> forall|b: int| j < b <= i ==> le(xs@[j as int], #[trigger] xs@[b]),
            decreases j,
        {
            swap(xs, j, j - h);
            j = j - h;
        }
        proof {
            lemma_order_facts::<T>();
            if h == 1 {
                assert forall|a: int, b: int| 0 <= a < b <= i implies le(#[trigger] xs@[a], #[trigger] xs@[b]) by {
                    if b == j && a < j - 1 {
                        assert(le(xs@[a], xs@[j - 1]));
                        assert(le(xs@[j - 1], xs@[b]));
                    }
                }
            }
        }
        i = i + 1;
    }
    proof {
        lemma_order_facts::<T>();
    }
}

} // verus!
