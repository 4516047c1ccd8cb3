use crate::bucket_sort::{
    lemma_lens_total_change, lemma_lens_total_monotonic, lemma_lens_total_zero, lens_total,
};
use crate::order::{ascending, lemma_upper_bound_kept, lemma_usize_total_order};
use vstd::arithmetic::div_mod::{lemma_mod_bound, lemma_mod_breakdown, lemma_small_mod};
use vstd::arithmetic::mul::lemma_mul_inequality;
use vstd::prelude::*;

verus! {

/// The base of the digits.
const RADIX: usize = 10;

/// The digit of `x` at `place`.
pub open spec fn digit(x: usize, place: int) -> int {
    (x as int / place) % 10
}

/// The value of the digits of `x` below `place`.
pub open spec fn low_part(x: usize, place: int) -> int {
    x as int % place
}

/// The sequence ascends in the digits below `place`.
pub open spec fn sorted_below(s: Seq<usize>, place: int) -> bool {
    forall|i: int, j: int| 0 <= i < j < s.len() ==> low_part(s[i], place) <= low_part(s[j], place)
}

proof fn lemma_next_place(x: usize, y: usize, place: int)
    requires
        place > 0,
    ensures
        digit(x, place) < digit(y, place) ==> low_part(x, place * 10) < low_part(y, place * 10),
        digit(x, place) == digit(y, place) && low_part(x, place) <= low_part(y, place) ==> low_part(
            x,
            place * 10,
        ) <= low_part(y, place * 10),
{
    lemma_mod_breakdown(x as int, place, 10);
    lemma_mod_breakdown(y as int, place, 10);
    lemma_mod_bound(x as int, place);
    lemma_mod_bound(y as int, place);
    let dx = digit(x, place);
    let dy = digit(y, place);
    if dx < dy {
        lemma_mul_inequality(dx + 1, dy, place);
        assert(place * dx + place == (dx + 1) * place) by (nonlinear_arith);
        assert(place * dy == dy * place) by (nonlinear_arith);
    }
}

/// Sorts the integers in ascending order, one decimal digit at a time from
/// the lowest: each pass deals them into buckets by one digit, keeping the
/// order within a bucket.
pub fn radix_sort(xs: &mut [usize])
    ensures
        ascending(final(xs)@),
        final(xs)@.to_multiset() == old(xs)@.to_multiset(),
{
    let n = xs.len();
    if n == 0 {
        return;
    }
    let mut max: usize = xs[0];
    let mut k: usize = 1;
    while k < n
        invariant
            n == xs@.len(),
            xs@ == old(xs)@,
            1 <= k <= n,
            forall|a: int| 0 <= a < k ==> xs@[a] <= max,
        decreases n - k,
    {
        if xs[k] > max {
            max = xs[k];
        }
        k = k + 1;
    }
    let mut place: usize = 1;
    proof {
        assert forall|x: usize| #[trigger] low_part(x, 1) == 0 by {}
    }
    loop
        invariant_except_break
            sorted_below(xs@, place as int),
        invariant
            n == xs@.len(),
            1 <= place,
            place == 1 || place <= max,
            forall|a: int| 0 <= a < n ==> xs@[a] <= max,
            xs@.to_multiset() == old(xs)@.to_multiset(),
        ensures
            n == xs@.len(),
            sorted_below(xs@, place * 10),
            place * 10 > max,
            forall|a: int| 0 <= a < n ==> xs@[a] <= max,
            xs@.to_multiset() == old(xs)@.to_multiset(),
        decreases max - place + 1,
    {
        let ghost before = xs@;
        radix_pass(xs, place);
        proof {
            lemma_usize_total_order();
            assert(xs@.subrange(0, n as int) =~= xs@);
            assert(before.subrange(0, n as int) =~= before);
            lemma_upper_bound_kept(xs@, before, 0, n as int, max);
        }
        if place > max / RADIX {
            break;
        }
        place = place * RADIX;
    }
    proof {
        assert forall|a: int| 0 <= a < n implies #[trigger] low_part(xs@[a], place * 10) == xs@[a] by {
            lemma_small_mod(xs@[a] as nat, (place * 10) as nat);
        }
    }
}

/// One pass: orders the integers by the digit at `place`, keeping the order
/// of those with the same digit.
fn radix_pass(xs: &mut [usize], place: usize)
    requires
        place >= 1,
        sorted_below(old(xs)@, place as int),
    ensures
        final(xs)@.len() == old(xs)@.len(),
        sorted_below(final(xs)@, place * 10),
        final(xs)@.to_multiset() == old(xs)@.to_multiset(),
{
    broadcast use vstd::seq_lib::group_to_multiset_ensures;

    let n = xs.len();
    let ghost orig = xs@;
    let ghost p = place as int;
    let mut buckets: Vec<Vec<usize>> = Vec::new();
    while buckets.len() < RADIX
        invariant
            buckets@.len() <= 10,
            forall|b: int| 0 <= b < buckets@.len() ==> (#[trigger] buckets@[b])@.len() == 0,
        decreases 10 - buckets@.len(),
    {
        buckets.push(Vec::new());
    }
    proof {
        lemma_lens_total_zero(buckets@, 10);
    }
    let mut k: usize = 0;
    while k < n
        invariant
            n == xs@.len(),
            xs@ == orig,
            k <= n,
            p == place,
            p >= 1,
            sorted_below(orig, p),
            buckets@.len() == 10,
            forall|b: int, c: int|
                0 <= b < 10 && 0 <= c < buckets@[b]@.len() ==> digit(#[trigger] buckets@[b]@[c], p) == b,
            forall|b: int, c1: int, c2: int|
                0 <= b < 10 && 0 <= c1 < c2 < buckets@[b]@.len() ==> low_part(
                    #[trigger] buckets@[b]@[c1],
                    p,
                ) <= low_part(#[trigger] buckets@[b]@[c2], p),
            k < n ==> forall|b: int, c: int|
                0 <= b < 10 && 0 <= c < buckets@[b]@.len() ==> low_part(#[trigger] buckets@[b]@[c], p)
                    <= low_part(orig[k as int], p),
            forall|v: usize| #[trigger] buckets@[digit(v, p)]@.to_multiset().count(v)
                == orig.subrange(0, k as int).to_multiset().count(v),
            lens_total(buckets@, 10) == k,
        decreases n - k,
    {
        let x = xs[k];
        let d = x / place % RADIX;
        let ghost before = buckets@;
        buckets[d].push(x);
        proof {
            assert(d == digit(x, p));
            assert(buckets@ == before.update(d as int, buckets@[d as int]));
            assert(buckets@[d as int]@ == before[d as int]@.push(x));
            lemma_lens_total_change(before, buckets@, d as int, 1, 10);
            assert(orig.subrange(0, k + 1) =~= orig.subrange(0, k as int).push(x));
            vstd::seq_lib::to_multiset_build(orig.subrange(0, k as int), x);
            vstd::seq_lib::to_multiset_build(before[d as int]@, x);
            assert forall|v: usize| #[trigger] buckets@[digit(v, p)]@.to_multiset().count(v)
                == orig.subrange(0, k + 1).to_multiset().count(v) by {
                lemma_mod_bound(v as int / p, 10);
            }
            if k + 1 < n {
                assert(low_part(orig[k as int], p) <= low_part(orig[k + 1], p));
            }
        }
        k = k + 1;
    }
    proof {
        assert(orig.subrange(0, n as int) =~= orig);
    }
    let mut b: usize = 0;
    let mut w: usize = 0;
    while b < RADIX
        invariant
            n == xs@.len(),
            p == place,
            p >= 1,
            buckets@.len() == 10,
            b <= 10,
            forall|bb: int, c: int|
                0 <= bb < 10 && 0 <= c < buckets@[bb]@.len() ==> digit(#[trigger] buckets@[bb]@[c], p) == bb,
            forall|bb: int, c1: int, c2: int|
                0 <= bb < 10 && 0 <= c1 < c2 < buckets@[bb]@.len() ==> low_part(
                    #[trigger] buckets@[bb]@[c1],
                    p,
                ) <= low_part(#[trigger] buckets@[bb]@[c2], p),
            forall|v: usize| #[trigger] buckets@[digit(v, p)]@.to_multiset().count(v)
                == orig.to_multiset().count(v),
            lens_total(buckets@, 10) == n,
            w == lens_total(buckets@, b as int),
            sorted_below(xs@.subrange(0, w as int), p * 10),
            forall|a: int| 0 <= a < w ==> digit(#[trigger] xs@[a], p) < b,
            forall|v: usize| #[trigger] xs@.subrange(0, w as int).to_multiset().count(v) == if digit(v, p) < b {
                buckets@[digit(v, p)]@.to_multiset().count(v) as int
            } else {
                0
            },
        decreases 10 - b,
    {
        let len = buckets[b].len();
        let mut c: usize = 0;
        proof {
            lemma_lens_total_monotonic(buckets@, b + 1, 10);
            lemma_lens_total_monotonic(buckets@, 0, b as int);
            let e = buckets@[b as int]@.subrange(0, 0);
            assert(e =~= Seq::<usize>::empty());
            assert forall|v: usize| #[trigger] e.to_multiset().count(v) == 0 by {
                vstd::seq_lib::to_multiset_contains(e, v);
            }
        }
        while c < len
            invariant
                n == xs@.len(),
                p == place,
                p >= 1,
                buckets@.len() == 10,
                b < 10,
                len == buckets@[b as int]@.len(),
                c <= len,
                c <= w,
                w == lens_total(buckets@, b as int) + c,
                lens_total(buckets@, b + 1) <= n,
                forall|cc: int| 0 <= cc < len ==> digit(#[trigger] buckets@[b as int]@[cc], p) == b,
                forall|c1: int, c2: int|
                    0 <= c1 < c2 < len ==> low_part(#[trigger] buckets@[b as int]@[c1], p) <= low_part(
                        #[trigger] buckets@[b as int]@[c2],
                        p,
                    ),
                sorted_below(xs@.subrange(0, w as int), p * 10),
                forall|a: int| 0 <= a < w - c ==> digit(#[trigger] xs@[a], p) < b,
                forall|a: int| w - c <= a < w ==> xs@[a] == buckets@[b as int]@[a - (w - c)],
                forall|v: usize| #[trigger] xs@.subrange(0, w as int).to_multiset().count(v) == if digit(v, p) < b {
                    buckets@[digit(v, p)]@.to_multiset().count(v) as int
                } else if digit(v, p) == b {
                    buckets@[b as int]@.subrange(0, c as int).to_multiset().count(v) as int
                } else {
                    0
                },
            decreases len - c,
        {
            let y = buckets[b][c];
            let ghost before = xs@;
            xs[w] = y;
            proof {
                let bs = buckets@[b as int]@;
                assert(xs@ == before.update(w as int, y));
                assert forall|a: int| w + 1 - (c + 1) <= a < w + 1 implies xs@[a] == bs[a - (w + 1 - (c + 1))] by {
                    if a < w {
                        assert(xs@[a] == before[a]);
                    }
                }
                assert(xs@.subrange(0, w + 1) =~= before.subrange(0, w as int).push(y));
                vstd::seq_lib::to_multiset_build(before.subrange(0, w as int), y);
                assert(bs.subrange(0, c + 1) =~= bs.subrange(0, c as int).push(y));
                vstd::seq_lib::to_multiset_build(bs.subrange(0, c as int), y);
                assert forall|a: int, a2: int| 0 <= a < a2 < w + 1 implies low_part(
                    #[trigger] xs@.subrange(0, w + 1)[a],
                    p * 10,
                ) <= low_part(#[trigger] xs@.subrange(0, w + 1)[a2], p * 10) by {
                    if a2 == w {
                        lemma_next_place(before[a], y, p);
                        if a >= w - c {
                            assert(before[a] == bs[a - (w - c)]);
                        } else {
                            assert(digit(before[a], p) < b);
                        }
                    } else {
                        assert(before.subrange(0, w as int)[a] == before[a]);
                        assert(before.subrange(0, w as int)[a2] == before[a2]);
                    }
                }
            }
            w = w + 1;
            c = c + 1;
        }
        proof {
            assert(buckets@[b as int]@.subrange(0, len as int) =~= buckets@[b as int]@);
        }
        b = b + 1;
    }
    proof {
        assert(xs@.subrange(0, n as int) =~= xs@);
        assert forall|v: usize| #[trigger] xs@.to_multiset().count(v) == orig.to_multiset().count(v) by {
            lemma_mod_bound(v as int / p, 10);
        }
        assert(xs@.to_multiset() =~= orig.to_multiset());
    }
}

} // verus!
