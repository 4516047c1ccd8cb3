use core::cmp::Ordering;
use vstd::laws_cmp::{
    obeys_cmp, obeys_cmp_ord, obeys_partial_cmp_spec_properties,
};
use vstd::prelude::*;
use vstd::seq_lib::lemma_multiset_commutative;
use vstd::std_specs::cmp::{OrdSpec, PartialOrdSpec};

verus! {

/// `K`'s `Ord` is a total order whose `Equal` is equality of values.
pub open spec fn total_order<K: Ord>() -> bool {
    &&& obeys_cmp::<K>()
    &&& forall|a: K, b: K| #[trigger] a.cmp_spec(&b) == Ordering::Equal <==> a == b
}

/// `a` comes strictly before `b`.
pub open spec fn lt<K: Ord>(a: K, b: K) -> bool {
    a.cmp_spec(&b) == Ordering::Less
}

/// `a` comes before `b` or equals it.
pub open spec fn le<K: Ord>(a: K, b: K) -> bool {
    a.cmp_spec(&b) != Ordering::Greater
}

/// What `cmp` returns is what `cmp_spec` says.
pub proof fn lemma_cmp_obeys_spec<K: Ord>()
    requires
        total_order::<K>(),
    ensures
        K::obeys_cmp_spec(),
{
    reveal(obeys_cmp_ord);
}

/// Exactly one of `a < b`, `a == b`, `b < a` holds.
pub proof fn lemma_trichotomy<K: Ord>(a: K, b: K)
    requires
        total_order::<K>(),
    ensures
        lt(a, b) || a == b || lt(b, a),
        !(lt(a, b) && a == b),
        !(lt(a, b) && lt(b, a)),
        a.cmp_spec(&b) == Ordering::Greater <==> lt(b, a),
        le(a, b) <==> (lt(a, b) || a == b),
{
    reveal(obeys_partial_cmp_spec_properties);
    reveal(obeys_cmp_ord);
    assert(a.partial_cmp_spec(&b) == Some(a.cmp_spec(&b)));
    assert(b.partial_cmp_spec(&a) == Some(b.cmp_spec(&a)));
    if a.cmp_spec(&b) == Ordering::Less {
        assert(b.partial_cmp_spec(&a) == Some(Ordering::Greater));
    }
    if b.cmp_spec(&a) == Ordering::Less {
        assert(a.partial_cmp_spec(&b) == Some(Ordering::Greater));
    }
    if a.cmp_spec(&b) == Ordering::Greater {
        assert(a.partial_cmp_spec(&b) == Some(Ordering::Greater));
        assert(b.partial_cmp_spec(&a) == Some(Ordering::Less));
    }
}

/// `<` is transitive.
pub proof fn lemma_lt_trans<K: Ord>(a: K, b: K, c: K)
    requires
        total_order::<K>(),
        lt(a, b),
        lt(b, c),
    ensures
        lt(a, c),
{
    reveal(obeys_partial_cmp_spec_properties);
    reveal(obeys_cmp_ord);
    assert(a.partial_cmp_spec(&b) == Some(a.cmp_spec(&b)));
    assert(b.partial_cmp_spec(&c) == Some(b.cmp_spec(&c)));
    assert(a.partial_cmp_spec(&c) == Some(a.cmp_spec(&c)));
}

/// `<=` is transitive.
pub proof fn lemma_le_trans<K: Ord>(a: K, b: K, c: K)
    requires
        total_order::<K>(),
        le(a, b),
        le(b, c),
    ensures
        le(a, c),
{
    lemma_trichotomy(a, b);
    lemma_trichotomy(b, c);
    lemma_trichotomy(a, c);
    if lt(a, b) && lt(b, c) {
        lemma_lt_trans(a, b, c);
    }
}

/// `<=` then `<` gives `<`.
pub proof fn lemma_le_lt_trans<K: Ord>(a: K, b: K, c: K)
    requires
        total_order::<K>(),
        le(a, b),
        lt(b, c),
    ensures
        lt(a, c),
{
    lemma_trichotomy(a, b);
    if lt(a, b) {
        lemma_lt_trans(a, b, c);
    }
}

/// `<` then `<=` gives `<`.
pub proof fn lemma_lt_le_trans<K: Ord>(a: K, b: K, c: K)
    requires
        total_order::<K>(),
        lt(a, b),
        le(b, c),
    ensures
        lt(a, c),
{
    lemma_trichotomy(b, c);
    if lt(b, c) {
        lemma_lt_trans(a, b, c);
    }
}

/// The facts of a strict total order, stated for all values at once.
pub proof fn lemma_order_facts<K: Ord>()
    requires
        total_order::<K>(),
    ensures
        forall|a: K, b: K, c: K| #[trigger] lt(a, b) && #[trigger] lt(b, c) ==> lt(a, c),
        forall|a: K| !(#[trigger] lt(a, a)),
        forall|a: K, b: K| #[trigger] lt(a, b) ==> !lt(b, a),
        forall|a: K, b: K, c: K| #[trigger] le(a, b) && #[trigger] le(b, c) ==> le(a, c),
        forall|a: K, b: K| #[trigger] lt(a, b) ==> le(a, b),
        forall|a: K, b: K| !(#[trigger] lt(a, b)) ==> le(b, a),
        forall|a: K, b: K| !(#[trigger] le(a, b)) ==> lt(b, a),
        forall|a: K| #[trigger] le(a, a),
{
    assert forall|a: K, b: K, c: K| #[trigger] lt(a, b) && #[trigger] lt(b, c) implies lt(a, c) by {
        lemma_lt_trans(a, b, c);
    }
    assert forall|a: K| !(#[trigger] lt(a, a)) by {
        lemma_trichotomy(a, a);
    }
    assert forall|a: K, b: K| #[trigger] lt(a, b) implies !lt(b, a) by {
        lemma_trichotomy(a, b);
    }
    assert forall|a: K, b: K, c: K| #[trigger] le(a, b) && #[trigger] le(b, c) implies le(a, c) by {
        lemma_le_trans(a, b, c);
    }
    assert forall|a: K, b: K| #[trigger] lt(a, b) implies le(a, b) by {
        lemma_trichotomy(a, b);
    }
    assert forall|a: K, b: K| !(#[trigger] lt(a, b)) implies le(b, a) by {
        lemma_trichotomy(a, b);
        lemma_trichotomy(b, a);
    }
    assert forall|a: K, b: K| !(#[trigger] le(a, b)) implies lt(b, a) by {
        lemma_trichotomy(a, b);
    }
    assert forall|a: K| #[trigger] le(a, a) by {
        lemma_trichotomy(a, a);
    }
}

/// Whether `a` comes strictly before `b`.
pub fn less<T: Ord>(a: &T, b: &T) -> (r: bool)
    requires
        total_order::<T>(),
    ensures
        r == lt(*a, *b),
{
    proof {
        lemma_cmp_obeys_spec::<T>();
    }
    match a.cmp(b) {
        Ordering::Less => true,
        _ => false,
    }
}

/// The sequence is in ascending order.
pub open spec fn sorted<T: Ord>(s: Seq<T>) -> bool {
    forall|i: int, j: int| 0 <= i < j < s.len() ==> le(#[trigger] s[i], #[trigger] s[j])
}

/// Relies on `<[T]>::swap`: the elements at `i` and `j` trade places.
#[verifier::external_body]
pub(crate) fn slice_swap<T>(xs: &mut [T], i: usize, j: usize)
    requires
        i < old(xs)@.len(),
        j < old(xs)@.len(),
    ensures
        final(xs)@ == old(xs)@.update(i as int, old(xs)@[j as int]).update(j as int, old(xs)@[i as int]),
{
    xs.swap(i, j)
}

/// Swapping two elements keeps the multiset of elements.
pub proof fn lemma_swap_multiset<T>(s: Seq<T>, i: int, j: int)
    requires
        0 <= i < s.len(),
        0 <= j < s.len(),
    ensures
        s.update(i, s[j]).update(j, s[i]).to_multiset() == s.to_multiset(),
{
    broadcast use vstd::seq_lib::group_to_multiset_ensures;

    let a = s[i];
    let b = s[j];
    let s1 = s.update(i, b);
    vstd::seq_lib::to_multiset_update(s, i, b);
    vstd::seq_lib::to_multiset_update(s1, j, a);
    assert(s1[j] == b);
    assert(s.to_multiset().insert(b).remove(a).insert(a).remove(b) =~= s.to_multiset());
}

/// Swaps the elements at `i` and `j`.
pub fn swap<T>(xs: &mut [T], i: usize, j: usize)
    requires
        i < old(xs)@.len(),
        j < old(xs)@.len(),
    ensures
        final(xs)@ == old(xs)@.update(i as int, old(xs)@[j as int]).update(j as int, old(xs)@[i as int]),
        final(xs)@.to_multiset() == old(xs)@.to_multiset(),
{
    slice_swap(xs, i, j);
    proof {
        lemma_swap_multiset(old(xs)@, i as int, j as int);
    }
}

/// The part `lo..hi` of the sequence is in ascending order.
pub open spec fn sorted_range<T: Ord>(s: Seq<T>, lo: int, hi: int) -> bool {
    forall|i: int, j: int| lo <= i < j < hi ==> le(#[trigger] s[i], #[trigger] s[j])
}

/// Two sequences that agree outside `lo..hi` and hold the same elements
/// inside it hold the same elements overall.
pub proof fn lemma_multiset_splice<T>(s: Seq<T>, t: Seq<T>, lo: int, hi: int)
    requires
        s.len() == t.len(),
        0 <= lo <= hi <= s.len(),
        forall|k: int| 0 <= k < s.len() && !(lo <= k < hi) ==> s[k] == t[k],
        s.subrange(lo, hi).to_multiset() == t.subrange(lo, hi).to_multiset(),
    ensures
        s.to_multiset() == t.to_multiset(),
{
    let n = s.len() as int;
    assert(s.subrange(0, lo) =~= t.subrange(0, lo));
    assert(s.subrange(hi, n) =~= t.subrange(hi, n));
    assert(s =~= s.subrange(0, lo) + s.subrange(lo, hi) + s.subrange(hi, n));
    assert(t =~= t.subrange(0, lo) + t.subrange(lo, hi) + t.subrange(hi, n));
    lemma_multiset_commutative(s.subrange(0, lo), s.subrange(lo, hi));
    lemma_multiset_commutative(t.subrange(0, lo), t.subrange(lo, hi));
    lemma_multiset_commutative(s.subrange(0, lo) + s.subrange(lo, hi), s.subrange(hi, n));
    lemma_multiset_commutative(t.subrange(0, lo) + t.subrange(lo, hi), t.subrange(hi, n));
}

/// Rearranging the part `lo..hi` keeps an upper bound of its elements.
pub proof fn lemma_upper_bound_kept<T: Ord>(s: Seq<T>, t: Seq<T>, lo: int, hi: int, b: T)
    requires
        0 <= lo <= hi <= s.len(),
        hi <= t.len(),
        s.subrange(lo, hi).to_multiset() == t.subrange(lo, hi).to_multiset(),
        forall|k: int| lo <= k < hi ==> le(#[trigger] t[k], b),
    ensures
        forall|k: int| lo <= k < hi ==> le(#[trigger] s[k], b),
{
    assert forall|k: int| lo <= k < hi implies le(#[trigger] s[k], b) by {
        let x = s[k];
        assert(s.subrange(lo, hi)[k - lo] == x);
        vstd::seq_lib::to_multiset_contains(s.subrange(lo, hi), x);
        vstd::seq_lib::to_multiset_contains(t.subrange(lo, hi), x);
        let m = choose|m: int| 0 <= m < hi - lo && t.subrange(lo, hi)[m] == x;
        assert(t[lo + m] == x);
    }
}

/// Rearranging the part `lo..hi` keeps a lower bound of its elements.
pub proof fn lemma_lower_bound_kept<T: Ord>(s: Seq<T>, t: Seq<T>, lo: int, hi: int, b: T)
    requires
        0 <= lo <= hi <= s.len(),
        hi <= t.len(),
        s.subrange(lo, hi).to_multiset() == t.subrange(lo, hi).to_multiset(),
        forall|k: int| lo <= k < hi ==> le(b, #[trigger] t[k]),
    ensures
        forall|k: int| lo <= k < hi ==> le(b, #[trigger] s[k]),
{
    assert forall|k: int| lo <= k < hi implies le(b, #[trigger] s[k]) by {
        let x = s[k];
        assert(s.subrange(lo, hi)[k - lo] == x);
        vstd::seq_lib::to_multiset_contains(s.subrange(lo, hi), x);
        vstd::seq_lib::to_multiset_contains(t.subrange(lo, hi), x);
        let m = choose|m: int| 0 <= m < hi - lo && t.subrange(lo, hi)[m] == x;
        assert(t[lo + m] == x);
    }
}

/// Swapping two elements of the part `lo..hi` keeps the multiset of that part.
pub proof fn lemma_swap_multiset_range<T>(s: Seq<T>, i: int, j: int, lo: int, hi: int)
    requires
        0 <= lo <= i < hi <= s.len(),
        lo <= j < hi,
    ensures
        s.update(i, s[j]).update(j, s[i]).subrange(lo, hi).to_multiset() == s.subrange(lo, hi).to_multiset(),
{
    let r = s.subrange(lo, hi);
    assert(s.update(i, s[j]).update(j, s[i]).subrange(lo, hi) =~= r.update(i - lo, r[j - lo]).update(j - lo, r[i - lo]));
    lemma_swap_multiset(r, i - lo, j - lo);
}

/// The integers are in ascending order.
pub open spec fn ascending(s: Seq<usize>) -> bool {
    forall|i: int, j: int| 0 <= i < j < s.len() ==> s[i] <= s[j]
}

/// The integers of `usize` are totally ordered.
pub proof fn lemma_usize_total_order()
    ensures
        total_order::<usize>(),
{
    broadcast use vstd::laws_cmp::group_laws_cmp;

}

} // verus!
