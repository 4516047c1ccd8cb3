//! Heap order on a slice laid out as a complete binary tree, for either
//! direction: with `max_first` the largest element sits on top, else the
//! smallest.
use crate::order::{le, less, lemma_order_facts, lemma_swap_multiset, lt, slice_swap, total_order};
use vstd::prelude::*;

verus! {

/// The largest number of elements a heap may hold, so that child indices fit in `usize`.
pub const MAX_HEAP_LEN: usize = (usize::MAX - 2) / 2;

/// The index of the parent of node `i`.
pub open spec fn parent_of(i: int) -> int {
    (i - 1) / 2
}

/// `a` may stand above `b` in the heap.
pub open spec fn above<T: Ord>(a: T, b: T, max_first: bool) -> bool {
    if max_first {
        le(b, a)
    } else {
        le(a, b)
    }
}

/// `a` must stand above `b`: it comes strictly first in the heap's direction.
pub open spec fn first<T: Ord>(a: T, b: T, max_first: bool) -> bool {
    if max_first {
        lt(b, a)
    } else {
        lt(a, b)
    }
}

/// Each node of `0..n` whose parent is at `lo` or beyond may stand below it.
pub open spec fn heap_from<T: Ord>(s: Seq<T>, lo: int, n: int, max_first: bool) -> bool {
    forall|k: int|
        0 < k < n && parent_of(k) >= lo ==> above(s[parent_of(k)], #[trigger] s[k], max_first)
}

/// The part `0..n` is a heap.
pub open spec fn is_heap<T: Ord>(s: Seq<T>, n: int, max_first: bool) -> bool {
    heap_from(s, 0, n, max_first)
}

pub(crate) fn parent(i: usize) -> (r: usize)
    requires
        i > 0,
    ensures
        r == parent_of(i as int),
        r < i,
{
    (i - 1) / 2
}

pub(crate) fn left(i: usize) -> (r: usize)
    requires
        2 * i + 1 <= usize::MAX,
    ensures
        r == 2 * i + 1,
{
    2 * i + 1
}

pub(crate) fn right(i: usize) -> (r: usize)
    requires
        2 * i + 2 <= usize::MAX,
    ensures
        r == 2 * i + 2,
{
    2 * i + 2
}

/// Whether `a` comes strictly first in the heap's direction.
fn comes_first<T: Ord>(a: &T, b: &T, max_first: bool) -> (r: bool)
    requires
        total_order::<T>(),
    ensures
        r == first(*a, *b, max_first),
{
    if max_first {
        less(b, a)
    } else {
        less(a, b)
    }
}

/// The facts of the heap's direction that the proofs use.
pub proof fn lemma_above_facts<T: Ord>(max_first: bool)
    requires
        total_order::<T>(),
    ensures
        forall|a: T, b: T, c: T|
            #[trigger] above(a, b, max_first) && #[trigger] above(b, c, max_first) ==> above(
                a,
                c,
                max_first,
            ),
        forall|a: T, b: T| #[trigger] first(a, b, max_first) ==> above(a, b, max_first),
        forall|a: T, b: T| !(#[trigger] first(a, b, max_first)) ==> above(b, a, max_first),
        forall|a: T| #[trigger] above(a, a, max_first),
{
    lemma_order_facts::<T>();
}

/// The top of a heap may stand above every element of it.
pub proof fn lemma_heap_top<T: Ord>(s: Seq<T>, n: int, max_first: bool, k: int)
    requires
        total_order::<T>(),
        is_heap(s, n, max_first),
        0 <= k < n,
    ensures
        above(s[0], s[k], max_first),
    decreases k,
{
    lemma_above_facts::<T>(max_first);
    if k > 0 {
        lemma_heap_top(s, n, max_first, parent_of(k));
        assert(above(s[parent_of(k)], s[k], max_first));
    }
}

/// Moves the element at `i` down until the part `i..n` is a heap, given
/// that it was one below `i`.
pub(crate) fn sift_down<T: Ord>(xs: &mut [T], i: usize, n: usize, max_first: bool)
    requires
        total_order::<T>(),
        i < n <= old(xs)@.len(),
        2 * n + 2 <= usize::MAX,
        heap_from(old(xs)@, i + 1, n as int, max_first),
    ensures
        final(xs)@.len() == old(xs)@.len(),
        heap_from(final(xs)@, i as int, n as int, max_first),
        final(xs)@.subrange(0, n as int).to_multiset() == old(xs)@.subrange(0, n as int).to_multiset(),
        forall|k: int|
            0 <= k < old(xs)@.len() && !(i <= k < n) ==> final(xs)@[k] == old(xs)@[k],
{
    let ghost orig = xs@;
    let mut p: usize = i;
    while p < n
        invariant
            total_order::<T>(),
            i <= p,
            i < n <= xs@.len(),
            2 * n + 2 <= usize::MAX,
            xs@.len() == orig.len(),
            orig == old(xs)@,
            forall|k: int|
                0 < k < n && parent_of(k) >= i && parent_of(k) != p ==> above(
                    xs@[parent_of(k)],
                    #[trigger] xs@[k],
                    max_first,
                ),
            p > i ==> forall|c: int|
                0 < c < n && parent_of(c) == p ==> above(
                    xs@[parent_of(p as int)],
                    #[trigger] xs@[c],
                    max_first,
                ),
            p > i ==> parent_of(p as int) >= i,
            xs@.subrange(0, n as int).to_multiset() == orig.subrange(0, n as int).to_multiset(),
            forall|k: int| 0 <= k < orig.len() && !(i <= k < n) ==> xs@[k] == orig[k],
        decreases n - p,
    {
        proof {
            lemma_above_facts::<T>(max_first);
        }
        let l = left(p);
        let r = right(p);
        let mut top = p;
        if l < n && comes_first(&xs[l], &xs[top], max_first) {
            top = l;
        }
        if r < n && comes_first(&xs[r], &xs[top], max_first) {
            top = r;
        }
        if top != p {
            let ghost before = xs@;
            slice_swap(xs, p, top);
            proof {
                assert(xs@.subrange(0, n as int) =~= before.subrange(0, n as int).update(
                    p as int,
                    before[top as int],
                ).update(top as int, before[p as int]));
                lemma_swap_multiset(before.subrange(0, n as int), p as int, top as int);
                assert forall|k: int|
                    0 < k < n && parent_of(k) >= i && parent_of(k) != top implies above(
                        xs@[parent_of(k)],
                        #[trigger] xs@[k],
                        max_first,
                    ) by {
                    if parent_of(k) == p {
                        assert(above(before[top as int], before[k], max_first));
                    } else if k == p {
                        assert(above(before[parent_of(p as int)], before[top as int], max_first));
                    }
                }
            }
            p = top;
        } else {
            proof {
                assert forall|k: int|
                    0 < k < n && parent_of(k) >= i implies above(
                        xs@[parent_of(k)],
                        #[trigger] xs@[k],
                        max_first,
                    ) by {
                    if parent_of(k) == p {
                        assert(k == l || k == r);
                    }
                }
            }
            return;
        }
    }
}

/// Moves the element at `i` up until the part `0..n` is a heap, given that
/// it was one but for the link from `i` to its parent.
pub(crate) fn sift_up<T: Ord>(xs: &mut [T], i: usize, n: usize, max_first: bool)
    requires
        total_order::<T>(),
        i < n <= old(xs)@.len(),
        forall|k: int|
            0 < k < n && k != i ==> above(
                old(xs)@[parent_of(k)],
                #[trigger] old(xs)@[k],
                max_first,
            ),
        forall|c: int|
            0 < c < n && parent_of(c) == i && i > 0 ==> above(
                old(xs)@[parent_of(i as int)],
                #[trigger] old(xs)@[c],
                max_first,
            ),
    ensures
        final(xs)@.len() == old(xs)@.len(),
        is_heap(final(xs)@, n as int, max_first),
        final(xs)@.subrange(0, n as int).to_multiset() == old(xs)@.subrange(0, n as int).to_multiset(),
        forall|k: int| n <= k < old(xs)@.len() ==> final(xs)@[k] == old(xs)@[k],
{
    let ghost orig = xs@;
    let mut c: usize = i;
    while c > 0
        invariant
            total_order::<T>(),
            c < n <= xs@.len(),
            xs@.len() == orig.len(),
            orig == old(xs)@,
            forall|k: int|
                0 < k < n && k != c ==> above(xs@[parent_of(k)], #[trigger] xs@[k], max_first),
            forall|d: int|
                0 < d < n && parent_of(d) == c && c > 0 ==> above(
                    xs@[parent_of(c as int)],
                    #[trigger] xs@[d],
                    max_first,
                ),
            xs@.subrange(0, n as int).to_multiset() == orig.subrange(0, n as int).to_multiset(),
            forall|k: int| n <= k < orig.len() ==> xs@[k] == orig[k],
        decreases c,
    {
        proof {
            lemma_above_facts::<T>(max_first);
        }
        let p = parent(c);
        if !comes_first(&xs[c], &xs[p], max_first) {
            return;
        }
        let ghost before = xs@;
        slice_swap(xs, c, p);
        proof {
            assert(xs@.subrange(0, n as int) =~= before.subrange(0, n as int).update(
                c as int,
                before[p as int],
            ).update(p as int, before[c as int]));
            lemma_swap_multiset(before.subrange(0, n as int), c as int, p as int);
            assert forall|k: int| 0 < k < n && k != p implies above(
                xs@[parent_of(k)],
                #[trigger] xs@[k],
                max_first,
            ) by {
                if parent_of(k) == p && k != c {
                    assert(above(before[p as int], before[k], max_first));
                } else if parent_of(k) == c {
                    assert(above(before[p as int], before[k], max_first));
                }
            }
            assert forall|d: int|
                0 < d < n && parent_of(d) == p && p > 0 implies above(
                    xs@[parent_of(p as int)],
                    #[trigger] xs@[d],
                    max_first,
                ) by {
                assert(above(before[parent_of(p as int)], before[p as int], max_first));
                if d != c {
                    assert(above(before[p as int], before[d], max_first));
                }
            }
        }
        c = p;
    }
}

} // verus!
