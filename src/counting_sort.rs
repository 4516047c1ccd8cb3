use crate::order::ascending;
use vstd::prelude::*;

verus! {

/// The sum of `ys[0..i]`.
pub open spec fn total(ys: Seq<usize>, i: int) -> int
    decreases i,
{
    if i <= 0 {
        0
    } else {
        total(ys, i - 1) + ys[i - 1]
    }
}

proof fn lemma_total_update(ys: Seq<usize>, v: int, i: int)
    requires
        0 <= v < ys.len(),
        0 <= i <= ys.len(),
        ys[v] < usize::MAX,
    ensures
        total(ys.update(v, (ys[v] + 1) as usize), i) == total(ys, i) + if v < i {
            1int
        } else {
            0int
        },
    decreases i,
{
    if i > 0 {
        lemma_total_update(ys, v, i - 1);
    }
}

proof fn lemma_total_monotonic(ys: Seq<usize>, i: int, j: int)
    requires
        0 <= i <= j <= ys.len(),
    ensures
        total(ys, i) <= total(ys, j),
    decreases j - i,
{
    if i < j {
        lemma_total_monotonic(ys, i, j - 1);
    }
}

/// Sorts the integers in ascending order by counting how often each value
/// occurs, then writing each value that many times.
pub fn counting_sort(xs: &mut [usize])
    requires
        forall|k: int| 0 <= k < old(xs)@.len() ==> old(xs)@[k] < usize::MAX,
    ensures
        ascending(final(xs)@),
        final(xs)@.to_multiset() == old(xs)@.to_multiset(),
{
    broadcast use vstd::seq_lib::group_to_multiset_ensures;

    let n = xs.len();
    if n <= 1 {
        return;
    }
    let ghost orig = xs@;
    let mut max: usize = xs[0];
    let mut k: usize = 1;
    while k < n
        invariant
            n == xs@.len(),
            xs@ == orig,
            1 <= k <= n,
            max < usize::MAX,
            forall|a: int| 0 <= a < k ==> xs@[a] <= max,
            forall|a: int| 0 <= a < n ==> orig[a] < usize::MAX,
        decreases n - k,
    {
        if xs[k] > max {
            max = xs[k];
        }
        k = k + 1;
    }
    let size = max + 1;
    let mut ys: Vec<usize> = Vec::new();
    while ys.len() < size
        invariant
            forall|v: int| 0 <= v < ys@.len() ==> ys@[v] == 0,
            ys@.len() <= size,
        decreases size - ys@.len(),
    {
        ys.push(0);
    }
    proof {
        assert(total(ys@, size as int) == 0) by {
            assert forall|i: int| 0 <= i <= size implies #[trigger] total(ys@, i) == 0 by {
                lemma_total_zero(ys@, i);
            }
        }
    }
    k = 0;
    while k < n
        invariant
            n == xs@.len(),
            xs@ == orig,
            k <= n,
            ys@.len() == size,
            size == max + 1,
            forall|a: int| 0 <= a < n ==> xs@[a] <= max,
            forall|v: int| 0 <= v < size ==> #[trigger] ys@[v] == orig.subrange(0, k as int).to_multiset().count(v as usize),
            forall|v: int| 0 <= v < size ==> #[trigger] ys@[v] <= k,
            total(ys@, size as int) == k,
        decreases n - k,
    {
        let x = xs[k];
        let ghost before = ys@;
        ys[x] = ys[x] + 1;
        proof {
            assert(ys@ == before.update(x as int, (before[x as int] + 1) as usize));
            lemma_total_update(before, x as int, size as int);
            assert(orig.subrange(0, k + 1) =~= orig.subrange(0, k as int).push(x));
            vstd::seq_lib::to_multiset_build(orig.subrange(0, k as int), x);
            assert forall|v: int| 0 <= v < size implies #[trigger] ys@[v] == orig.subrange(0, k + 1).to_multiset().count(v as usize) by {
                if v != x {
                    assert(ys@[v] == before[v]);
                }
            }
        }
        k = k + 1;
    }
    proof {
        assert(orig.subrange(0, n as int) =~= orig);
    }
    let mut i: usize = 0;
    let mut w: usize = 0;
    while i < size
        invariant
            n == xs@.len(),
            ys@.len() == size,
            size == max + 1,
            i <= size,
            forall|a: int| 0 <= a < n ==> orig[a] <= max,
            forall|v: int| 0 <= v < size ==> #[trigger] ys@[v] == orig.to_multiset().count(v as usize),
            total(ys@, size as int) == n,
            w == total(ys@, i as int),
            forall|v: usize| #[trigger] xs@.subrange(0, w as int).to_multiset().count(v) == if v < i {
                ys@[v as int] as int
            } else {
                0
            },
            forall|a: int, b: int| 0 <= a < b < w ==> xs@[a] <= xs@[b],
            forall|a: int| 0 <= a < w ==> xs@[a] < i,
        decreases size - i,
    {
        let mut c: usize = 0;
        proof {
            lemma_total_monotonic(ys@, i + 1, size as int);
        }
        while c < ys[i]
            invariant
                n == xs@.len(),
                ys@.len() == size,
                i < size,
                w == total(ys@, i as int) + c,
                total(ys@, i + 1) <= n,
                c <= ys@[i as int],
                forall|v: usize| #[trigger] xs@.subrange(0, w as int).to_multiset().count(v) == if v < i {
                    ys@[v as int] as int
                } else if v == i {
                    c as int
                } else {
                    0
                },
                forall|a: int, b: int| 0 <= a < b < w ==> xs@[a] <= xs@[b],
                forall|a: int| 0 <= a < w ==> xs@[a] <= i,
            decreases ys@[i as int] - c,
        {
            let ghost before = xs@;
            xs[w] = i;
            proof {
                assert(xs@.subrange(0, w + 1) =~= before.subrange(0, w as int).push(i));
                assert(xs@.subrange(0, w as int) =~= before.subrange(0, w as int));
                vstd::seq_lib::to_multiset_build(before.subrange(0, w as int), i);
            }
            w = w + 1;
            c = c + 1;
        }
        i = i + 1;
    }
    proof {
        assert(xs@.subrange(0, n as int) =~= xs@);
        assert forall|v: usize| #[trigger] xs@.to_multiset().count(v) == orig.to_multiset().count(v) by {
            if v >= size {
                vstd::seq_lib::to_multiset_contains(orig, v);
                if orig.contains(v) {
                    let a = choose|a: int| 0 <= a < orig.len() && orig[a] == v;
                    assert(orig[a] <= max);
                }
            }
        }
        assert(xs@.to_multiset() =~= orig.to_multiset());
    }
}

proof fn lemma_total_zero(ys: Seq<usize>, i: int)
    requires
        i <= ys.len(),
        forall|v: int| 0 <= v < ys.len() ==> ys[v] == 0,
    ensures
        total(ys, i) == 0,
    decreases i,
{
    if i > 0 {
        lemma_total_zero(ys, i - 1);
    }
}

} // verus!
