//! An ordered map kept as a left-leaning red-black tree.
use crate::order::{lemma_cmp_obeys_spec, lemma_lt_trans, lemma_order_facts, lemma_trichotomy, lt, total_order};
use core::cmp::Ordering;
use vstd::prelude::*;
use vstd::set_lib::lemma_set_disjoint_lens;

verus! {

/// The color of the link from a node's parent to the node.
#[derive(PartialEq, Eq, Structural, Clone, Copy, Debug)]
pub enum Color {
    Red,
    Black,
}

/// One key/value slot with its two subtrees, the color of its incoming link
/// and the number of nodes in the subtree it roots.
pub struct Node<K, V> {
    pub key: K,
    pub value: V,
    pub left: Option<Box<Node<K, V>>>,
    pub right: Option<Box<Node<K, V>>>,
    pub color: Color,
    pub count: usize,
}

/// A subtree: a node that owns its children, or absent.
pub type Link<K, V> = Option<Box<Node<K, V>>>;

/// The key/value pairs that a subtree holds.
pub open spec fn link_map<K, V>(l: Link<K, V>) -> Map<K, V>
    decreases l,
{
    match l {
        None => Map::empty(),
        Some(n) => link_map(n.left).union_prefer_right(link_map(n.right)).insert(n.key, n.value),
    }
}

/// The keys of a subtree in in-order (left, node, right).
pub open spec fn inorder<K, V>(l: Link<K, V>) -> Seq<K>
    decreases l,
{
    match l {
        None => Seq::empty(),
        Some(n) => inorder(n.left).push(n.key) + inorder(n.right),
    }
}

/// The number of nodes of a subtree.
pub open spec fn size<K, V>(l: Link<K, V>) -> nat
    decreases l,
{
    match l {
        None => 0,
        Some(n) => 1 + size(n.left) + size(n.right),
    }
}

/// The link to this subtree is red; an absent subtree counts as black.
pub open spec fn is_red<K, V>(l: Link<K, V>) -> bool {
    match l {
        Some(n) => n.color == Color::Red,
        None => false,
    }
}

/// The number of black links on the leftmost path, the link to the subtree included.
pub open spec fn black_height<K, V>(l: Link<K, V>) -> nat
    decreases l,
{
    match l {
        None => 0,
        Some(n) => black_height(n.left) + if n.color == Color::Black {
            1nat
        } else {
            0nat
        },
    }
}

/// Every key in the subtree is smaller than `k`.
pub open spec fn keys_below<K: Ord, V>(l: Link<K, V>, k: K) -> bool {
    forall|x: K| #[trigger] link_map(l).contains_key(x) ==> lt(x, k)
}

/// Every key in the subtree is greater than `k`.
pub open spec fn keys_above<K: Ord, V>(l: Link<K, V>, k: K) -> bool {
    forall|x: K| #[trigger] link_map(l).contains_key(x) ==> lt(k, x)
}

/// Search-tree order: left keys smaller, right keys greater, at every node.
pub open spec fn ordered<K: Ord, V>(l: Link<K, V>) -> bool
    decreases l,
{
    match l {
        None => true,
        Some(n) => {
            &&& keys_below(n.left, n.key)
            &&& keys_above(n.right, n.key)
            &&& ordered(n.left)
            &&& ordered(n.right)
        },
    }
}

/// Every node's `count` is the number of nodes of its subtree.
pub open spec fn counted<K, V>(l: Link<K, V>) -> bool
    decreases l,
{
    match l {
        None => true,
        Some(n) => {
            &&& n.count == 1 + size(n.left) + size(n.right)
            &&& counted(n.left)
            &&& counted(n.right)
        },
    }
}

/// Every path from a node down to an absent child meets as many black links.
pub open spec fn balanced<K, V>(l: Link<K, V>) -> bool
    decreases l,
{
    match l {
        None => true,
        Some(n) => {
            &&& black_height(n.left) == black_height(n.right)
            &&& balanced(n.left)
            &&& balanced(n.right)
        },
    }
}

/// No right link is red, and no red link is followed by another.
pub open spec fn left_leaning<K, V>(l: Link<K, V>) -> bool
    decreases l,
{
    match l {
        None => true,
        Some(n) => {
            &&& !is_red(n.right)
            &&& !(n.color == Color::Red && is_red(n.left))
            &&& left_leaning(n.left)
            &&& left_leaning(n.right)
        },
    }
}

/// Left-leaning below the top; the top may be red over a red left child.
pub open spec fn near_left_leaning<K, V>(l: Link<K, V>) -> bool {
    match l {
        None => true,
        Some(n) => {
            &&& !is_red(n.right)
            &&& left_leaning(n.left)
            &&& left_leaning(n.right)
        },
    }
}

/// All the invariants that a tree's root satisfies between operations.
pub open spec fn tree_invariant<K: Ord, V>(l: Link<K, V>) -> bool {
    &&& ordered(l)
    &&& counted(l)
    &&& balanced(l)
    &&& left_leaning(l)
    &&& !is_red(l)
}

/// Keys strictly increase along the sequence.
pub open spec fn strictly_ascending<K: Ord>(s: Seq<K>) -> bool {
    forall|i: int, j: int| 0 <= i < j < s.len() ==> lt(#[trigger] s[i], #[trigger] s[j])
}

fn link_is_red<K, V>(l: &Link<K, V>) -> (r: bool)
    ensures
        r == is_red(*l),
{
    match l {
        Some(n) => n.color == Color::Red,
        None => false,
    }
}

fn link_count<K, V>(l: &Link<K, V>) -> (r: usize)
    requires
        counted(*l),
    ensures
        r == size(*l),
{
    match l {
        Some(n) => n.count,
        None => 0,
    }
}

/// The left child of the subtree is red and so is its own left child.
fn left_red_red<K, V>(l: &Link<K, V>) -> (r: bool)
    ensures
        r == (is_red(*l) && is_red(l.unwrap().left)),
{
    match l {
        Some(n) => n.color == Color::Red && link_is_red(&n.left),
        None => false,
    }
}

/// The two shapes that a rotation turns into each other hold the same pairs.
proof fn lemma_rotated_maps<K: Ord, V>(a: Map<K, V>, k1: K, v1: V, b: Map<K, V>, k2: K, v2: V, c: Map<K, V>)
    requires
        total_order::<K>(),
        lt(k1, k2),
        forall|k: K| #[trigger] a.contains_key(k) ==> lt(k, k1),
        forall|k: K| #[trigger] c.contains_key(k) ==> lt(k2, k),
    ensures
        a.union_prefer_right(b.union_prefer_right(c).insert(k2, v2)).insert(k1, v1)
            == a.union_prefer_right(b).insert(k1, v1).union_prefer_right(c).insert(k2, v2),
{
    lemma_order_facts::<K>();
    assert(!c.contains_key(k1));
    assert(!a.contains_key(k2));
    assert(a.union_prefer_right(b.union_prefer_right(c).insert(k2, v2)).insert(k1, v1)
        =~= a.union_prefer_right(b).insert(k1, v1).union_prefer_right(c).insert(k2, v2));
}

/// Turns a right-leaning link to the left: `h.right` becomes the top.
fn rotate_left<K: Ord, V>(h: Box<Node<K, V>>) -> (x: Box<Node<K, V>>)
    requires
        total_order::<K>(),
        ordered(Some(h)),
        h.right.is_some(),
        counted(h.left),
        counted(h.right.unwrap().left),
        1 + size(h.left) + size(h.right.unwrap().left) <= usize::MAX,
    ensures
        x.key == h.right.unwrap().key,
        x.value == h.right.unwrap().value,
        x.right == h.right.unwrap().right,
        x.color == h.color,
        x.count == h.count,
        x.left.is_some(),
        x.left.unwrap().key == h.key,
        x.left.unwrap().value == h.value,
        x.left.unwrap().left == h.left,
        x.left.unwrap().right == h.right.unwrap().left,
        x.left.unwrap().color == Color::Red,
        x.left.unwrap().count == 1 + size(h.left) + size(h.right.unwrap().left),
        ordered(Some(x)),
        link_map(Some(x)) == link_map(Some(h)),
        size(Some(x)) == size(Some(h)),
{
    let ghost h0 = h;
    let mut h = h;
    let mut x = h.right.take().unwrap();
    h.right = x.left.take();
    x.color = h.color;
    x.count = h.count;
    h.color = Color::Red;
    h.count = 1 + link_count(&h.left) + link_count(&h.right);
    x.left = Some(h);
    proof {
        lemma_order_facts::<K>();
        reveal_with_fuel(ordered, 2);
        reveal_with_fuel(link_map, 2);
        reveal_with_fuel(size, 2);
        let x0 = h0.right.unwrap();
        assert(link_map(h0.right).contains_key(x0.key));
        assert forall|k: K| #[trigger] link_map(x0.left).contains_key(k) implies lt(h0.key, k) by {
            assert(link_map(h0.right).contains_key(k));
        }
        assert forall|k: K| #[trigger] link_map(x.left).contains_key(k) implies lt(k, x0.key) by {
            assert(lt(h0.key, x0.key));
            if link_map(h0.left).contains_key(k) {
                lemma_lt_trans(k, h0.key, x0.key);
            } else if k != h0.key {
                assert(link_map(x0.left).contains_key(k));
            }
        }
        lemma_rotated_maps(
            link_map(h0.left),
            h0.key,
            h0.value,
            link_map(x0.left),
            x0.key,
            x0.value,
            link_map(x0.right),
        );
    }
    x
}

/// Turns a left-leaning link to the right: `h.left` becomes the top.
fn rotate_right<K: Ord, V>(h: Box<Node<K, V>>) -> (x: Box<Node<K, V>>)
    requires
        total_order::<K>(),
        ordered(Some(h)),
        h.left.is_some(),
        counted(h.right),
        counted(h.left.unwrap().right),
        1 + size(h.right) + size(h.left.unwrap().right) <= usize::MAX,
    ensures
        x.key == h.left.unwrap().key,
        x.value == h.left.unwrap().value,
        x.left == h.left.unwrap().left,
        x.color == h.color,
        x.count == h.count,
        x.right.is_some(),
        x.right.unwrap().key == h.key,
        x.right.unwrap().value == h.value,
        x.right.unwrap().right == h.right,
        x.right.unwrap().left == h.left.unwrap().right,
        x.right.unwrap().color == Color::Red,
        x.right.unwrap().count == 1 + size(h.left.unwrap().right) + size(h.right),
        ordered(Some(x)),
        link_map(Some(x)) == link_map(Some(h)),
        size(Some(x)) == size(Some(h)),
{
    let ghost h0 = h;
    let mut h = h;
    let mut x = h.left.take().unwrap();
    h.left = x.right.take();
    x.color = h.color;
    x.count = h.count;
    h.color = Color::Red;
    h.count = 1 + link_count(&h.left) + link_count(&h.right);
    x.right = Some(h);
    proof {
        lemma_order_facts::<K>();
        reveal_with_fuel(ordered, 2);
        reveal_with_fuel(link_map, 2);
        reveal_with_fuel(size, 2);
        let x0 = h0.left.unwrap();
        assert(link_map(h0.left).contains_key(x0.key));
        assert forall|k: K| #[trigger] link_map(x0.right).contains_key(k) implies lt(k, h0.key) by {
            assert(link_map(h0.left).contains_key(k));
        }
        assert forall|k: K| #[trigger] link_map(x.right).contains_key(k) implies lt(x0.key, k) by {
            assert(lt(x0.key, h0.key));
            if link_map(h0.right).contains_key(k) {
                lemma_lt_trans(x0.key, h0.key, k);
            } else if k != h0.key {
                assert(link_map(x0.right).contains_key(k));
            }
        }
        lemma_rotated_maps(
            link_map(x0.left),
            x0.key,
            x0.value,
            link_map(x0.right),
            h0.key,
            h0.value,
            link_map(h0.right),
        );
    }
    x
}

/// Splits a node whose two links are red: the node turns red, its children black.
fn flip_colors<K, V>(h: &mut Box<Node<K, V>>)
    requires
        old(h).left.is_some(),
        old(h).right.is_some(),
    ensures
        final(h).key == old(h).key,
        final(h).value == old(h).value,
        final(h).count == old(h).count,
        final(h).color == Color::Red,
        final(h).left.is_some(),
        final(h).right.is_some(),
        final(h).left.unwrap().color == Color::Black,
        final(h).right.unwrap().color == Color::Black,
        final(h).left.unwrap() == (Node { color: Color::Black, ..*old(h).left.unwrap() }),
        final(h).right.unwrap() == (Node { color: Color::Black, ..*old(h).right.unwrap() }),
{
    h.color = Color::Red;
    let mut l = h.left.take().unwrap();
    l.color = Color::Black;
    h.left = Some(l);
    let mut r = h.right.take().unwrap();
    r.color = Color::Black;
    h.right = Some(r);
}

/// Two subtrees whose tops differ only in color or count hold the same pairs
/// in the same order.
proof fn lemma_same_pairs<K: Ord, V>(a: Link<K, V>, b: Link<K, V>)
    requires
        a.is_some() == b.is_some(),
        a.is_some() ==> a.unwrap().key == b.unwrap().key && a.unwrap().value == b.unwrap().value
            && a.unwrap().left == b.unwrap().left && a.unwrap().right == b.unwrap().right,
    ensures
        link_map(a) == link_map(b),
        ordered(a) == ordered(b),
        size(a) == size(b),
{
}

/// A left-leaning subtree is in particular near left-leaning.
proof fn lemma_left_leaning_is_near<K, V>(l: Link<K, V>)
    requires
        left_leaning(l),
    ensures
        near_left_leaning(l),
        !(is_red(l) && is_red(l.unwrap().left)),
{
}

/// Restores the invariants at a node after one of its subtrees took a new key:
/// leans a red right link to the left, splits two red links in a row, then
/// passes a node with two red links up as a red one.
fn fix_up<K: Ord, V>(h: Box<Node<K, V>>) -> (r: Box<Node<K, V>>)
    requires
        total_order::<K>(),
        ordered(Some(h)),
        counted(h.left),
        counted(h.right),
        size(Some(h)) <= usize::MAX,
        black_height(h.left) == black_height(h.right),
        balanced(h.left),
        balanced(h.right),
        near_left_leaning(h.left),
        left_leaning(h.right),
        is_red(h.right) ==> left_leaning(h.left),
        is_red(h.left) && is_red(h.left.unwrap().left) ==> !is_red(h.right) && h.color
            == Color::Black,
        h.color == Color::Red ==> !(is_red(h.left) && is_red(h.right)),
    ensures
        link_map(Some(r)) == link_map(Some(h)),
        size(Some(r)) == size(Some(h)),
        ordered(Some(r)),
        counted(Some(r)),
        balanced(Some(r)),
        black_height(Some(r)) == black_height(Some(h)),
        near_left_leaning(Some(r)),
        h.color == Color::Black ==> left_leaning(Some(r)),
        h.color == Color::Red ==> r.color == Color::Red,
{
    let ghost h0 = h;
    let mut h = h;
    proof {
        reveal_with_fuel(size, 2);
        reveal_with_fuel(left_leaning, 2);
        reveal_with_fuel(black_height, 2);
        reveal_with_fuel(balanced, 2);
        reveal_with_fuel(counted, 2);
    }
    if link_is_red(&h.right) && !link_is_red(&h.left) {
        h = rotate_left(h);
    }
    if left_red_red(&h.left) {
        h = rotate_right(h);
    }
    if link_is_red(&h.left) && link_is_red(&h.right) {
        let ghost before = h;
        flip_colors(&mut h);
        proof {
            lemma_same_pairs(h.left, before.left);
            lemma_same_pairs(h.right, before.right);
        }
    }
    let ghost before = h;
    h.count = 1 + link_count(&h.left) + link_count(&h.right);
    proof {
        lemma_same_pairs(Some(h), Some(before));
    }
    h
}

/// Puts the pair into the subtree and returns the subtree's new top.
fn put_link<K: Ord, V>(h: Link<K, V>, key: K, value: V) -> (r: Box<Node<K, V>>)
    requires
        total_order::<K>(),
        ordered(h),
        counted(h),
        balanced(h),
        left_leaning(h),
        size(h) < usize::MAX,
    ensures
        link_map(Some(r)) == link_map(h).insert(key, value),
        size(Some(r)) == size(h) + if link_map(h).contains_key(key) {
            0nat
        } else {
            1nat
        },
        ordered(Some(r)),
        counted(Some(r)),
        balanced(Some(r)),
        black_height(Some(r)) == black_height(h),
        near_left_leaning(Some(r)),
        !is_red(h) ==> left_leaning(Some(r)),
        is_red(h) ==> r.color == Color::Red,
    decreases h,
{
    match h {
        None => Box::new(
            Node { key, value, left: None, right: None, color: Color::Red, count: 1 },
        ),
        Some(node) => {
            let ghost n0 = node;
            let mut node = node;
            proof {
                lemma_cmp_obeys_spec::<K>();
                lemma_order_facts::<K>();
                lemma_trichotomy(key, n0.key);
                lemma_left_leaning_is_near(n0.left);
            }
            match key.cmp(&node.key) {
                Ordering::Less => {
                    let left = node.left.take();
                    let ghost k = key;
                    node.left = Some(put_link(left, key, value));
                    proof {
                        assert(!link_map(n0.right).contains_key(k));
                        assert(link_map(Some(node)) =~= link_map(h).insert(k, value));
                    }
                },
                Ordering::Greater => {
                    let right = node.right.take();
                    let ghost k = key;
                    node.right = Some(put_link(right, key, value));
                    proof {
                        assert(!link_map(n0.left).contains_key(k));
                        assert(link_map(Some(node)) =~= link_map(h).insert(k, value));
                    }
                },
                Ordering::Equal => {
                    node.value = value;
                    proof {
                        assert(!link_map(n0.left).contains_key(n0.key));
                        assert(!link_map(n0.right).contains_key(n0.key));
                        assert(link_map(Some(node)) =~= link_map(h).insert(n0.key, value));
                    }
                },
            }
            fix_up(node)
        },
    }
}

/// A search-ordered subtree holds as many distinct keys as it has nodes.
pub proof fn lemma_size_is_len<K: Ord, V>(l: Link<K, V>)
    requires
        total_order::<K>(),
        ordered(l),
    ensures
        link_map(l).dom().finite(),
        link_map(l).len() == size(l),
    decreases l,
{
    if let Some(n) = l {
        lemma_size_is_len(n.left);
        lemma_size_is_len(n.right);
        lemma_order_facts::<K>();
        let a = link_map(n.left).dom();
        let b = link_map(n.right).dom();
        assert(link_map(n.left).union_prefer_right(link_map(n.right)).dom() =~= a + b);
        assert(a.disjoint(b)) by {
            assert forall|x: K| a.contains(x) implies !b.contains(x) by {
                if b.contains(x) {
                    assert(lt(x, n.key) && lt(n.key, x));
                }
            }
        }
        lemma_set_disjoint_lens(a, b);
        assert(!(a + b).contains(n.key));
    }
}

/// The keys of a subtree, read in in-order, are its keys, one per node.
pub proof fn lemma_inorder_keys<K, V>(l: Link<K, V>)
    ensures
        inorder(l).len() == size(l),
        forall|i: int|
            0 <= i < inorder(l).len() ==> link_map(l).contains_key(#[trigger] inorder(l)[i]),
    decreases l,
{
    if let Some(n) = l {
        lemma_inorder_keys(n.left);
        lemma_inorder_keys(n.right);
        let s = inorder(n.left).push(n.key) + inorder(n.right);
        assert forall|i: int| 0 <= i < s.len() implies link_map(l).contains_key(#[trigger] s[i]) by {
            if i < inorder(n.left).len() {
                assert(s[i] == inorder(n.left)[i]);
            } else if i > inorder(n.left).len() {
                assert(s[i] == inorder(n.right)[i - inorder(n.left).len() - 1]);
            }
        }
    }
}

/// In a search-ordered subtree the in-order keys strictly ascend.
pub proof fn lemma_inorder_ascending<K: Ord, V>(l: Link<K, V>)
    requires
        total_order::<K>(),
        ordered(l),
    ensures
        strictly_ascending(inorder(l)),
    decreases l,
{
    if let Some(n) = l {
        lemma_inorder_ascending(n.left);
        lemma_inorder_ascending(n.right);
        lemma_inorder_keys(n.left);
        lemma_inorder_keys(n.right);
        lemma_order_facts::<K>();
        let a = inorder(n.left);
        let b = inorder(n.right);
        let s = a.push(n.key) + b;
        assert forall|i: int, j: int| 0 <= i < j < s.len() implies lt(
            #[trigger] s[i],
            #[trigger] s[j],
        ) by {
            let m = a.len() as int;
            if j < m {
                assert(s[i] == a[i] && s[j] == a[j]);
            } else if i > m {
                assert(s[i] == b[i - m - 1] && s[j] == b[j - m - 1]);
            } else if j == m {
                assert(s[i] == a[i]);
                assert(link_map(n.left).contains_key(a[i]));
            } else if i == m {
                assert(s[j] == b[j - m - 1]);
                assert(link_map(n.right).contains_key(b[j - m - 1]));
            } else {
                assert(s[i] == a[i] && s[j] == b[j - m - 1]);
                assert(link_map(n.left).contains_key(a[i]));
                assert(link_map(n.right).contains_key(b[j - m - 1]));
                assert(lt(a[i], n.key) && lt(n.key, b[j - m - 1]));
            }
        }
    }
}

/// Every path from the top of the subtree down to an absent child meets
/// exactly `h` black links.
pub open spec fn paths_black<K, V>(l: Link<K, V>, h: nat) -> bool
    decreases l,
{
    match l {
        None => h == 0,
        Some(n) => {
            let d: nat = if n.color == Color::Black {
                1
            } else {
                0
            };
            &&& h >= d
            &&& paths_black(n.left, (h - d) as nat)
            &&& paths_black(n.right, (h - d) as nat)
        },
    }
}

proof fn lemma_balanced_paths<K, V>(l: Link<K, V>)
    requires
        balanced(l),
    ensures
        paths_black(l, black_height(l)),
    decreases l,
{
    if let Some(n) = l {
        lemma_balanced_paths(n.left);
        lemma_balanced_paths(n.right);
    }
}

/// Looks the key up in a search-ordered subtree.
fn get_link<'a, K: Ord, V>(l: &'a Link<K, V>, key: &K) -> (r: Option<&'a V>)
    requires
        total_order::<K>(),
        ordered(*l),
    ensures
        r.is_some() == link_map(*l).contains_key(*key),
        r.is_some() ==> *r.unwrap() == link_map(*l)[*key],
    decreases *l,
{
    match l {
        None => None,
        Some(node) => {
            proof {
                lemma_cmp_obeys_spec::<K>();
                lemma_order_facts::<K>();
                lemma_trichotomy(*key, node.key);
            }
            match key.cmp(&node.key) {
                Ordering::Less => {
                    proof {
                        assert(!link_map(node.right).contains_key(*key));
                    }
                    get_link(&node.left, key)
                },
                Ordering::Greater => {
                    proof {
                        assert(!link_map(node.left).contains_key(*key));
                    }
                    get_link(&node.right, key)
                },
                Ordering::Equal => Some(&node.value),
            }
        },
    }
}

/// An ordered map from `K` to `V`, kept as a left-leaning red-black tree.
pub struct RedBlackTree<K: Ord, V> {
    root: Link<K, V>,
}

impl<K: Ord, V> View for RedBlackTree<K, V> {
    type V = Map<K, V>;

    open spec fn view(&self) -> Map<K, V> {
        link_map(self.root_link())
    }
}

impl<K: Ord, V> RedBlackTree<K, V> {
    /// The root of the tree.
    pub closed spec fn root_link(&self) -> Link<K, V> {
        self.root
    }

    /// The tree keeps search order, exact counts, black balance, no red right
    /// link, no two red links in a row, and a black root.
    pub open spec fn wf(&self) -> bool {
        tree_invariant(self.root_link())
    }

    /// An empty tree.
    pub fn new() -> (t: Self)
        ensures
            t.wf(),
            t@ == Map::<K, V>::empty(),
    {
        RedBlackTree { root: None }
    }

    /// The number of keys in the tree.
    pub fn len(&self) -> (n: usize)
        requires
            total_order::<K>(),
            self.wf(),
        ensures
            n == self@.len(),
    {
        proof {
            lemma_size_is_len(self.root);
        }
        link_count(&self.root)
    }

    /// The value stored under `key`, if any.
    pub fn get(&self, key: &K) -> (r: Option<&V>)
        requires
            total_order::<K>(),
            self.wf(),
        ensures
            r.is_some() == self@.contains_key(*key),
            r.is_some() ==> *r.unwrap() == self@[*key],
    {
        get_link(&self.root, key)
    }

    /// Stores `value` under `key`, replacing the value that was there.
    pub fn put(&mut self, key: K, value: V)
        requires
            total_order::<K>(),
            old(self).wf(),
            old(self)@.len() < usize::MAX,
        ensures
            final(self).wf(),
            final(self)@ == old(self)@.insert(key, value),
    {
        proof {
            lemma_size_is_len(self.root);
        }
        let root = self.root.take();
        let mut top = put_link(root, key, value);
        let ghost before = top;
        top.color = Color::Black;
        proof {
            lemma_same_pairs(Some(top), Some(before));
        }
        self.root = Some(top);
    }

    /// The root of the tree, to read its shape.
    pub fn root(&self) -> (r: &Link<K, V>)
        ensures
            *r == self.root_link(),
    {
        &self.root
    }
}

/// Between operations, an in-order walk of a tree meets its keys in strictly
/// ascending order.
pub proof fn lemma_keys_ascend<K: Ord, V>(t: &RedBlackTree<K, V>)
    requires
        total_order::<K>(),
        t.wf(),
    ensures
        strictly_ascending(inorder(t.root_link())),
{
    lemma_inorder_ascending(t.root_link());
}

/// Between operations, every path from the root to an absent child meets the
/// same number of black links.
pub proof fn lemma_black_balanced<K: Ord, V>(t: &RedBlackTree<K, V>)
    requires
        t.wf(),
    ensures
        paths_black(t.root_link(), black_height(t.root_link())),
{
    lemma_balanced_paths(t.root_link());
}

/// Between operations, no right link is red and no two red links follow
/// each other on a downward path.
pub proof fn lemma_leans_left<K: Ord, V>(t: &RedBlackTree<K, V>)
    requires
        t.wf(),
    ensures
        left_leaning(t.root_link()),
{
}

/// Between operations, the root is black.
pub proof fn lemma_root_black<K: Ord, V>(t: &RedBlackTree<K, V>)
    requires
        t.wf(),
    ensures
        t.root_link().is_some() ==> t.root_link().unwrap().color == Color::Black,
{
}

/// Between operations, each node counts the nodes of its subtree, and the
/// root's count is the number of distinct keys.
pub proof fn lemma_sizes<K: Ord, V>(t: &RedBlackTree<K, V>)
    requires
        total_order::<K>(),
        t.wf(),
    ensures
        counted(t.root_link()),
        size(t.root_link()) == t@.len(),
{
    lemma_size_is_len(t.root_link());
}

/// Putting a key grows the number of keys by one exactly when the key is new.
pub proof fn lemma_len_after_put<K: Ord, V>(t: &RedBlackTree<K, V>, key: K, value: V)
    requires
        total_order::<K>(),
        t.wf(),
    ensures
        t@.insert(key, value).len() == t@.len() + if t@.contains_key(key) {
            0int
        } else {
            1int
        },
{
    lemma_size_is_len(t.root_link());
    if t@.contains_key(key) {
        assert(t@.insert(key, value).dom() =~= t@.dom());
    }
}

/// Putting one key twice leaves one entry, with the later value.
pub proof fn lemma_overwrite<K: Ord, V>(t: &RedBlackTree<K, V>, key: K, first: V, second: V)
    requires
        total_order::<K>(),
        t.wf(),
    ensures
        t@.insert(key, first).insert(key, second) == t@.insert(key, second),
        t@.insert(key, first).insert(key, second).len() == t@.insert(key, first).len(),
        t@.insert(key, first).insert(key, second)[key] == second,
{
    lemma_size_is_len(t.root_link());
    assert(t@.insert(key, first).insert(key, second) =~= t@.insert(key, second));
    assert(t@.insert(key, first).insert(key, second).dom() =~= t@.insert(key, first).dom());
}

/// Looking a key up twice in an unchanged tree gives the same answer: any two
/// results that `get` may return for one tree and one key are equal. (`get`
/// takes the tree by shared reference, so it changes nothing.)
pub proof fn lemma_get_repeatable<K: Ord, V>(
    t: &RedBlackTree<K, V>,
    key: K,
    first: Option<V>,
    second: Option<V>,
)
    requires
        first.is_some() == t@.contains_key(key),
        first.is_some() ==> first.unwrap() == t@[key],
        second.is_some() == t@.contains_key(key),
        second.is_some() ==> second.unwrap() == t@[key],
    ensures
        first == second,
{
}

/// A tree that holds no pair, as `new` returns it, has length zero and
/// holds no key.
pub proof fn lemma_empty_tree<K: Ord, V>(t: &RedBlackTree<K, V>, key: K)
    requires
        t@ == Map::<K, V>::empty(),
    ensures
        t@.len() == 0,
        !t@.contains_key(key),
{
}

} // verus!
