use crate::insert_sort::insert_sort;
use crate::order::{ascending, lemma_usize_total_order};
use vstd::prelude::*;

verus! {

/// The width of the range of values that one bucket takes.
const BUCKET_STEP: usize = 3;

/// The number of elements in `bs[0..i]`, all buckets together.
pub open spec fn lens_total(bs: Seq<Vec<usize>>, i: int) -> int
    decreases i,
{
    if i <= 0 {
        0
    } else {
        lens_total(bs, i - 1) + bs[i - 1]@.len()
    }
}

pub(crate) proof fn lemma_lens_total_change(bs: Seq<Vec<usize>>, cs: Seq<Vec<usize>>, b: int, d: int, i: int)
    requires
        bs.len() == cs.len(),
        0 <= i <= bs.len(),
        forall|j: int| 0 <= j < bs.len() && j != b ==> cs[j]@.len() == bs[j]@.len(),
        0 <= b < bs.len() ==> cs[b]@.len() == bs[b]@.len() + d,
    ensures
        lens_total(cs, i) == lens_total(bs, i) + if 0 <= b < i {
            d
        } else {
            0
        },
    decreases i,
{
    if i > 0 {
        lemma_lens_total_change(bs, cs, b, d, i - 1);
    }
}

pub(crate) proof fn lemma_lens_total_monotonic(bs: Seq<Vec<usize>>, i: int, j: int)
    requires
        0 <= i <= j <= bs.len(),
    ensures
        lens_total(bs, i) <= lens_total(bs, j),
    decreases j - i,
{
    if i < j {
        lemma_lens_total_monotonic(bs, i, j - 1);
    }
}

/// Sorts the integers in ascending order: deals them into buckets of
/// consecutive values, sorts each bucket, then reads the buckets in order.
pub fn bucket_sort(xs: &mut [usize])
    requires
        forall|k: int| 0 <= k < old(xs)@.len() ==> old(xs)@[k] < usize::MAX,
    ensures
        ascending(final(xs)@),
        final(xs)@.to_multiset() == old(xs)@.to_multiset(),
{
    broadcast use vstd::seq_lib::group_to_multiset_ensures;

    let n = xs.len();
    if n == 0 {
        return;
    }
    let ghost orig = xs@;
    let mut max: usize = xs[0];
    let mut k: usize = 1;
    while k < n
        invariant
            n == xs@.len(),
            xs@ == orig,
            1 <= k <= n,
            forall|a: int| 0 <= a < k ==> xs@[a] <= max,
        decreases n - k,
    {
        if xs[k] > max {
            max = xs[k];
        }
        k = k + 1;
    }
    let buckets_size = max / BUCKET_STEP + 1;
    let mut buckets: Vec<Vec<usize>> = Vec::new();
    while buckets.len() < buckets_size
        invariant
            buckets@.len() <= buckets_size,
            forall|b: int| 0 <= b < buckets@.len() ==> (#[trigger] buckets@[b])@.len() == 0,
        decreases buckets_size - buckets@.len(),
    {
        buckets.push(Vec::new());
    }
    proof {
        assert forall|i: int| 0 <= i <= buckets_size implies #[trigger] lens_total(buckets@, i) == 0 by {
            lemma_lens_total_zero(buckets@, i);
        }
    }
    k = 0;
    while k < n
        invariant
            n == xs@.len(),
            xs@ == orig,
            k <= n,
            forall|a: int| 0 <= a < n ==> xs@[a] <= max,
            buckets_size == max / 3 + 1,
            buckets@.len() == buckets_size,
            forall|b: int, c: int|
                0 <= b < buckets_size && 0 <= c < buckets@[b]@.len() ==> #[trigger] buckets@[b]@[c]
                    / 3 == b,
            forall|v: usize|
                v / 3 < buckets_size ==> #[trigger] buckets@[(v / 3) as int]@.to_multiset().count(v)
                    == orig.subrange(0, k as int).to_multiset().count(v),
            lens_total(buckets@, buckets_size as int) == k,
        decreases n - k,
    {
        let x = xs[k];
        let ghost before = buckets@;
        buckets[x / BUCKET_STEP].push(x);
        proof {
            let b0 = x / 3;
            assert(buckets@ == before.update(b0 as int, buckets@[b0 as int]));
            assert(buckets@[b0 as int]@ == before[b0 as int]@.push(x));
            lemma_lens_total_change(before, buckets@, b0 as int, 1, buckets_size as int);
            assert(orig.subrange(0, k + 1) =~= orig.subrange(0, k as int).push(x));
            vstd::seq_lib::to_multiset_build(orig.subrange(0, k as int), x);
            vstd::seq_lib::to_multiset_build(before[b0 as int]@, x);
        }
        k = k + 1;
    }
    proof {
        assert(orig.subrange(0, n as int) =~= orig);
        lemma_usize_total_order();
    }
    let mut i: usize = 0;
    while i < buckets_size
        invariant
            buckets_size == max / 3 + 1,
            buckets@.len() == buckets_size,
            i <= buckets_size,
            forall|b: int, c: int|
                0 <= b < buckets_size && 0 <= c < buckets@[b]@.len() ==> #[trigger] buckets@[b]@[c]
                    / 3 == b,
            forall|v: usize|
                v / 3 < buckets_size ==> #[trigger] buckets@[(v / 3) as int]@.to_multiset().count(v)
                    == orig.to_multiset().count(v),
            lens_total(buckets@, buckets_size as int) == n,
            forall|b: int| 0 <= b < i ==> ascending(#[trigger] buckets@[b]@),
        decreases buckets_size - i,
    {
        let ghost before = buckets@;
        insert_sort(buckets[i].as_mut_slice());
        proof {
            lemma_usize_total_order();
            let s = buckets@[i as int]@;
            let t = before[i as int]@;
            assert(buckets@ == before.update(i as int, buckets@[i as int]));
            vstd::seq_lib::to_multiset_len(s);
            vstd::seq_lib::to_multiset_len(t);
            assert(s.len() == t.len());
            lemma_lens_total_change(before, buckets@, i as int, 0, buckets_size as int);
            assert forall|c: int| 0 <= c < s.len() implies #[trigger] s[c] / 3 == i by {
                vstd::seq_lib::to_multiset_contains(s, s[c]);
                vstd::seq_lib::to_multiset_contains(t, s[c]);
                let d = choose|d: int| 0 <= d < t.len() && t[d] == s[c];
                assert(before[i as int]@[d] / 3 == i);
            }
        }
        i = i + 1;
    }
    let mut b: usize = 0;
    let mut w: usize = 0;
    while b < buckets_size
        invariant
            n == xs@.len(),
            buckets_size == max / 3 + 1,
            buckets@.len() == buckets_size,
            b <= buckets_size,
            forall|bb: int, c: int|
                0 <= bb < buckets_size && 0 <= c < buckets@[bb]@.len() ==> #[trigger] buckets@[bb]@[c]
                    / 3 == bb,
            forall|v: usize|
                v / 3 < buckets_size ==> #[trigger] buckets@[(v / 3) as int]@.to_multiset().count(v)
                    == orig.to_multiset().count(v),
            lens_total(buckets@, buckets_size as int) == n,
            forall|bb: int| 0 <= bb < buckets_size ==> ascending(#[trigger] buckets@[bb]@),
            w == lens_total(buckets@, b as int),
            ascending(xs@.subrange(0, w as int)),
            forall|a: int| 0 <= a < w ==> xs@[a] / 3 < b,
            forall|v: usize| #[trigger] xs@.subrange(0, w as int).to_multiset().count(v) == if v / 3 < b {
                buckets@[(v / 3) as int]@.to_multiset().count(v) as int
            } else {
                0
            },
        decreases buckets_size - b,
    {
        let len = buckets[b].len();
        let mut c: usize = 0;
        proof {
            lemma_lens_total_monotonic(buckets@, b + 1, buckets_size as int);
            lemma_lens_total_monotonic(buckets@, 0, b as int);
            let e = buckets@[b as int]@.subrange(0, 0);
            assert(e =~= Seq::<usize>::empty());
            assert forall|v: usize| #[trigger] e.to_multiset().count(v) == 0 by {
                vstd::seq_lib::to_multiset_contains(e, v);
            }
        }
        while c < len
            invariant
                n == xs@.len(),
                buckets@.len() == buckets_size,
                b < buckets_size,
                len == buckets@[b as int]@.len(),
                c <= len,
                c <= w,
                w == lens_total(buckets@, b as int) + c,
                lens_total(buckets@, b + 1) <= n,
                forall|cc: int| 0 <= cc < len ==> #[trigger] buckets@[b as int]@[cc] / 3 == b,
                ascending(buckets@[b as int]@),
                ascending(xs@.subrange(0, w as int)),
                forall|a: int| 0 <= a < w - c ==> xs@[a] / 3 < b,
                forall|a: int| w - c <= a < w ==> xs@[a] == buckets@[b as int]@[a - (w - c)],
                forall|v: usize| #[trigger] xs@.subrange(0, w as int).to_multiset().count(v) == if v / 3 < b {
                    buckets@[(v / 3) as int]@.to_multiset().count(v) as int
                } else if v / 3 == b {
                    buckets@[b as int]@.subrange(0, c as int).to_multiset().count(v) as int
                } else {
                    0
                },
            decreases len - c,
        {
            let y = buckets[b][c];
            let ghost before = xs@;
            xs[w] = y;
            proof {
                assert(xs@ == before.update(w as int, y));
                assert forall|a: int| w + 1 - (c + 1) <= a < w + 1 implies xs@[a] == buckets@[b as int]@[a - (w + 1 - (c + 1))] by {
                    if a < w {
                        assert(xs@[a] == before[a]);
                    }
                }
                assert(xs@.subrange(0, w + 1) =~= before.subrange(0, w as int).push(y));
                vstd::seq_lib::to_multiset_build(before.subrange(0, w as int), y);
                let bs = buckets@[b as int]@;
                assert(bs.subrange(0, c + 1) =~= bs.subrange(0, c as int).push(y));
                vstd::seq_lib::to_multiset_build(bs.subrange(0, c as int), y);
                assert forall|a: int, a2: int| 0 <= a < a2 < w + 1 implies xs@[a] <= xs@[a2] by {
                    if a2 == w {
                        if a >= w - c {
                            assert(before[a] == bs[a - (w - c)]);
                        } else {
                            assert(before[a] / 3 < b);
                        }
                    } else {
                        assert(before.subrange(0, w as int)[a] == before[a]);
                        assert(before.subrange(0, w as int)[a2] == before[a2]);
                    }
                }
            }
            w = w + 1;
            c = c + 1;
        }
        proof {
            assert(buckets@[b as int]@.subrange(0, len as int) =~= buckets@[b as int]@);
        }
        b = b + 1;
    }
    proof {
        assert(xs@.subrange(0, n as int) =~= xs@);
        assert forall|v: usize| #[trigger] xs@.to_multiset().count(v) == orig.to_multiset().count(v) by {
            if v / 3 >= buckets_size {
                vstd::seq_lib::to_multiset_contains(orig, v);
                if orig.contains(v) {
                    let a = choose|a: int| 0 <= a < orig.len() && orig[a] == v;
                    assert(orig[a] <= max);
                }
            }
        }
        assert(xs@.to_multiset() =~= orig.to_multiset());
    }
}

pub(crate) proof fn lemma_lens_total_zero(bs: Seq<Vec<usize>>, i: int)
    requires
        i <= bs.len(),
        forall|b: int| 0 <= b < bs.len() ==> (#[trigger] bs[b])@.len() == 0,
    ensures
        lens_total(bs, i) == 0,
    decreases i,
{
    if i > 0 {
        lemma_lens_total_zero(bs, i - 1);
    }
}

} // verus!
