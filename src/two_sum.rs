//! Finding two entries of a sequence that add up to a given sum.
use std::collections::BTreeMap;
use vstd::prelude::*;

verus! {

/// Two different positions of `xs` whose entries add up to `sum`, if there
/// are any.
pub fn two_sum(xs: &[i32], sum: i32) -> (r: Option<(usize, usize)>)
    ensures
        r matches Some((i, j)) ==> i < xs@.len() && j < xs@.len() && i != j && xs@[i as int]
            + xs@[j as int] == sum,
        r is None ==> forall|i: int, j: int|
            0 <= i < xs@.len() && 0 <= j < xs@.len() && i != j ==> #[trigger] xs@[i] + #[trigger] xs@[j]
                != sum,
{
    broadcast use vstd::laws_cmp::group_laws_cmp;
    broadcast use vstd::std_specs::btree::group_btree_axioms;

    let n = xs.len();
    let mut map: BTreeMap<i32, usize> = BTreeMap::new();
    let mut k: usize = 0;
    while k < n
        invariant
            n == xs@.len(),
            k <= n,
            forall|v: i32| #[trigger] map@.contains_key(v) <==> exists|a: int| 0 <= a < k && xs@[a] == v,
            forall|v: i32|
                #[trigger] map@.contains_key(v) ==> map@[v] < k && xs@[map@[v] as int] == v && forall|
                    a: int,
                | map@[v] < a < k ==> xs@[a] != v,
        decreases n - k,
    {
        map.insert(xs[k], k);
        k = k + 1;
    }
    let mut i: usize = 0;
    while i < n
        invariant
            n == xs@.len(),
            i <= n,
            forall|v: i32| #[trigger] map@.contains_key(v) <==> exists|a: int| 0 <= a < n && xs@[a] == v,
            forall|v: i32|
                #[trigger] map@.contains_key(v) ==> map@[v] < n && xs@[map@[v] as int] == v && forall|
                    a: int,
                | map@[v] < a < n ==> xs@[a] != v,
            forall|a: int, b: int|
                0 <= a < i && 0 <= b < n && a != b ==> #[trigger] xs@[a] + #[trigger] xs@[b] != sum,
        decreases n - i,
    {
        let searched: i64 = sum as i64 - xs[i] as i64;
        if i32::MIN as i64 <= searched && searched <= i32::MAX as i64 {
            let s = searched as i32;
            match map.get(&s) {
                Some(j) => {
                    let j = *j;
                    if j != i {
                        return Some((i, j));
                    }
                },
                None => {},
            }
        }
        proof {
            assert forall|a: int, b: int|
                0 <= a < i + 1 && 0 <= b < n && a != b implies #[trigger] xs@[a] + #[trigger] xs@[b] != sum by {
                if a == i && xs@[a] + xs@[b] == sum {
                    let v = xs@[b];
                    assert(map@.contains_key(v));
                    if b < i {
                        assert(xs@[b] + xs@[a] != sum);
                    }
                }
            }
        }
        i = i + 1;
    }
    None
}

} // verus!
