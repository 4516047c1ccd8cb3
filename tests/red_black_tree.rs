use algorithms::red_black_tree::{Color, Link, RedBlackTree};

/// Writes a subtree as `(key:value:color(left)(right))`, `()` when absent.
fn walk(link: &Link<char, i32>) -> String {
    let mut result = String::from("(");
    if let Some(node) = link {
        result.push_str(&node.key.to_string());
        result.push(':');
        result.push_str(&node.value.to_string());
        result.push(':');
        result.push_str(if node.color == Color::Red { "r" } else { "b" });
        result.push_str(&walk(&node.left));
        result.push_str(&walk(&node.right));
    }
    result.push(')');
    result
}

fn inorder_tree_walk_string(tree: &RedBlackTree<char, i32>) -> String {
    walk(tree.root())
}

#[test]
fn test_get() {
    let mut rbtree: RedBlackTree<char, i32> = RedBlackTree::new();
    assert_eq!(rbtree.get(&'S'), None);
    assert_eq!(rbtree.len(), 0);
    rbtree.put('S', 1);
    rbtree.put('E', 2);
    rbtree.put('A', 3);
    rbtree.put('R', 4);
    rbtree.put('C', 5);
    rbtree.put('H', 6);
    rbtree.put('X', 7);
    rbtree.put('M', 8);
    rbtree.put('P', 9);
    rbtree.put('L', 10);
    assert_eq!(rbtree.get(&'S'), Some(&1));
    assert_eq!(rbtree.get(&'E'), Some(&2));
    assert_eq!(rbtree.get(&'A'), Some(&3));
    assert_eq!(rbtree.get(&'R'), Some(&4));
    assert_eq!(rbtree.get(&'C'), Some(&5));
    assert_eq!(rbtree.get(&'H'), Some(&6));
    assert_eq!(rbtree.get(&'X'), Some(&7));
    assert_eq!(rbtree.get(&'M'), Some(&8));
    assert_eq!(rbtree.get(&'P'), Some(&9));
    assert_eq!(rbtree.get(&'L'), Some(&10));
    assert_eq!(rbtree.get(&'Z'), None);
    assert_eq!(rbtree.len(), 10);
}

#[test]
fn test_inorder_tree_walk_1() {
    let mut rbtree: RedBlackTree<char, i32> = RedBlackTree::new();
    assert_eq!(inorder_tree_walk_string(&rbtree), "()");
    rbtree.put('S', 1);
    assert_eq!(inorder_tree_walk_string(&rbtree), "(S:1:b()())");
    rbtree.put('E', 2);
    assert_eq!(inorder_tree_walk_string(&rbtree), "(S:1:b(E:2:r()())())");
    rbtree.put('A', 3);
    assert_eq!(inorder_tree_walk_string(&rbtree), "(E:2:b(A:3:b()())(S:1:b()()))");
    rbtree.put('R', 4);
    assert_eq!(inorder_tree_walk_string(&rbtree), "(E:2:b(A:3:b()())(S:1:b(R:4:r()())()))");
    rbtree.put('C', 5);
    assert_eq!(inorder_tree_walk_string(&rbtree), "(E:2:b(C:5:b(A:3:r()())())(S:1:b(R:4:r()())()))");
    rbtree.put('H', 6);
    assert_eq!(inorder_tree_walk_string(&rbtree), "(R:4:b(E:2:r(C:5:b(A:3:r()())())(H:6:b()()))(S:1:b()()))");
    rbtree.put('X', 7);
    assert_eq!(inorder_tree_walk_string(&rbtree), "(R:4:b(E:2:r(C:5:b(A:3:r()())())(H:6:b()()))(X:7:b(S:1:r()())()))");
    rbtree.put('M', 8);
    assert_eq!(inorder_tree_walk_string(&rbtree), "(R:4:b(E:2:r(C:5:b(A:3:r()())())(M:8:b(H:6:r()())()))(X:7:b(S:1:r()())()))");
    rbtree.put('P', 9);
    assert_eq!(inorder_tree_walk_string(&rbtree), "(M:8:b(E:2:b(C:5:b(A:3:r()())())(H:6:b()()))(R:4:b(P:9:b()())(X:7:b(S:1:r()())())))");
    rbtree.put('L', 10);
    assert_eq!(inorder_tree_walk_string(&rbtree), "(M:8:b(E:2:b(C:5:b(A:3:r()())())(L:10:b(H:6:r()())()))(R:4:b(P:9:b()())(X:7:b(S:1:r()())())))");
}

#[test]
fn test_inorder_tree_walk_2() {
    let mut rbtree: RedBlackTree<char, i32> = RedBlackTree::new();
    assert_eq!(inorder_tree_walk_string(&rbtree), "()");
    rbtree.put('A', 1);
    assert_eq!(inorder_tree_walk_string(&rbtree), "(A:1:b()())");
    rbtree.put('C', 2);
    assert_eq!(inorder_tree_walk_string(&rbtree), "(C:2:b(A:1:r()())())");
    rbtree.put('E', 3);
    assert_eq!(inorder_tree_walk_string(&rbtree), "(C:2:b(A:1:b()())(E:3:b()()))");
    rbtree.put('H', 4);
    assert_eq!(inorder_tree_walk_string(&rbtree), "(C:2:b(A:1:b()())(H:4:b(E:3:r()())()))");
    rbtree.put('L', 5);
    assert_eq!(inorder_tree_walk_string(&rbtree), "(H:4:b(C:2:r(A:1:b()())(E:3:b()()))(L:5:b()()))");
    rbtree.put('M', 6);
    assert_eq!(inorder_tree_walk_string(&rbtree), "(H:4:b(C:2:r(A:1:b()())(E:3:b()()))(M:6:b(L:5:r()())()))");
    rbtree.put('P', 7);
    assert_eq!(inorder_tree_walk_string(&rbtree), "(H:4:b(C:2:b(A:1:b()())(E:3:b()()))(M:6:b(L:5:b()())(P:7:b()())))");
    rbtree.put('R', 8);
    assert_eq!(inorder_tree_walk_string(&rbtree), "(H:4:b(C:2:b(A:1:b()())(E:3:b()()))(M:6:b(L:5:b()())(R:8:b(P:7:r()())())))");
    rbtree.put('S', 9);
    assert_eq!(inorder_tree_walk_string(&rbtree), "(H:4:b(C:2:b(A:1:b()())(E:3:b()()))(R:8:b(M:6:r(L:5:b()())(P:7:b()()))(S:9:b()())))");
    rbtree.put('X', 10);
    assert_eq!(inorder_tree_walk_string(&rbtree), "(H:4:b(C:2:b(A:1:b()())(E:3:b()()))(R:8:b(M:6:r(L:5:b()())(P:7:b()()))(X:10:b(S:9:r()())())))");
}

fn check_node(link: &Link<char, i32>, low: Option<char>, high: Option<char>) -> (usize, usize) {
    // Returns (size, black height) and checks order, counts, colors on the way.
    match link {
        None => (0, 0),
        Some(node) => {
            if let Some(l) = low {
                assert!(l < node.key);
            }
            if let Some(h) = high {
                assert!(node.key < h);
            }
            let right_red = matches!(&node.right, Some(r) if r.color == Color::Red);
            assert!(!right_red);
            let left_red = matches!(&node.left, Some(l) if l.color == Color::Red);
            assert!(!(node.color == Color::Red && left_red));
            let (ls, lb) = check_node(&node.left, low, Some(node.key));
            let (rs, rb) = check_node(&node.right, Some(node.key), high);
            assert_eq!(lb, rb);
            assert_eq!(node.count, 1 + ls + rs);
            (1 + ls + rs, lb + if node.color == Color::Black { 1 } else { 0 })
        }
    }
}

fn inorder_keys(link: &Link<char, i32>, out: &mut Vec<char>) {
    if let Some(node) = link {
        inorder_keys(&node.left, out);
        out.push(node.key);
        inorder_keys(&node.right, out);
    }
}

#[test]
fn invariants_hold_after_every_put() {
    let mut rbtree: RedBlackTree<char, i32> = RedBlackTree::new();
    let keys = "SEARCHEXAMPLEZYXWVUTSRQPONMLKJIHGFEDCBA";
    let mut distinct: Vec<char> = Vec::new();
    for (i, k) in keys.chars().enumerate() {
        rbtree.put(k, i as i32);
        if !distinct.contains(&k) {
            distinct.push(k);
        }
        let (size, _) = check_node(rbtree.root(), None, None);
        assert_eq!(size, distinct.len());
        assert_eq!(rbtree.len(), distinct.len());
        if let Some(root) = rbtree.root() {
            assert_eq!(root.color, Color::Black);
        }
        let mut walked = Vec::new();
        inorder_keys(rbtree.root(), &mut walked);
        let mut sorted = distinct.clone();
        sorted.sort();
        assert_eq!(walked, sorted);
    }
}

#[test]
fn overwrite_keeps_len_and_takes_latest() {
    let mut rbtree: RedBlackTree<char, i32> = RedBlackTree::new();
    rbtree.put('K', 1);
    rbtree.put('B', 2);
    rbtree.put('K', 3);
    assert_eq!(rbtree.len(), 2);
    assert_eq!(rbtree.get(&'K'), Some(&3));
    rbtree.put('K', 4);
    assert_eq!(rbtree.len(), 2);
    assert_eq!(rbtree.get(&'K'), Some(&4));
}

#[test]
fn get_does_not_change_the_tree() {
    let mut rbtree: RedBlackTree<char, i32> = RedBlackTree::new();
    for (i, k) in "HELLOWORLD".chars().enumerate() {
        rbtree.put(k, i as i32);
    }
    let before = inorder_tree_walk_string(&rbtree);
    let first = rbtree.get(&'L').copied();
    let second = rbtree.get(&'L').copied();
    assert_eq!(first, second);
    assert_eq!(first, Some(8));
    assert_eq!(rbtree.get(&'Q'), None);
    assert_eq!(inorder_tree_walk_string(&rbtree), before);
    assert_eq!(rbtree.len(), 7);
}

#[test]
fn empty_tree() {
    let rbtree: RedBlackTree<u64, u64> = RedBlackTree::new();
    assert_eq!(rbtree.len(), 0);
    assert_eq!(rbtree.get(&0), None);
    assert_eq!(rbtree.get(&u64::MAX), None);
    assert!(rbtree.root().is_none());
}
