use treers::rbtree::RedBlackTree;
use treers::{SedgewickMap, Traversals, TreeTraversal};

#[test]
fn rbtree_test_is_empty() {
    let r: RedBlackTree<i32, i32> = RedBlackTree::new();
    assert_eq!(r.is_empty(), true);
}

#[test]
fn rbtree_test_is_not_empty() {
    let mut rbtree: RedBlackTree<i32, i32> = RedBlackTree::new();
    rbtree.put(1, 2);
    rbtree.put(2, 3);
    assert_eq!(rbtree.is_empty(), false);
}

#[test]
fn rbtree_test_size_zero() {
    let rbtree: RedBlackTree<i32, i32> = RedBlackTree::new();
    assert_eq!(rbtree.size(), 0_usize);
    assert_eq!(rbtree.height(), None);
}

#[test]
fn rbtree_test_put() {
    let mut rbtree: RedBlackTree<u32, Vec<i32>> = RedBlackTree::new();
    let v = vec![1, 2, 3];
    rbtree.put(1, v);
    assert_eq!(rbtree.get(&1_u32), Some(&vec![1_i32, 2, 3]));
}

#[test]
fn rbtree_test_get() {
    let mut rbtree: RedBlackTree<u32, i32> = RedBlackTree::new();
    rbtree.put(1_u32, -1_i32);
    assert_eq!(rbtree.get(&1_u32), Some(&-1_i32));
}

#[test]
fn rbtree_test_contains() {
    let mut rbtree: RedBlackTree<i32, i32> = RedBlackTree::new();
    rbtree.put(1_i32, -1_i32);
    assert_eq!(rbtree.contains(&1_i32), true);
    assert_eq!(rbtree.contains(&-1_i32), false);
}

#[test]
fn test_left_rotate_min() {
    let mut rbtree: RedBlackTree<u32, u32> = RedBlackTree::new();
    for i in vec![1_u32, 2, 3, 4, 5, 6] {
        rbtree.put(i, i);
    }
    assert_eq!(rbtree.min(), Some(&1_u32));
    assert_eq!(rbtree.get(rbtree.min().unwrap()), rbtree.min());
}

#[test]
fn test_right_rotate_min() {
    let mut rbtree: RedBlackTree<u32, u32> = RedBlackTree::new();
    for i in (1..=6).rev() {
        rbtree.put(i, i);
    }
    assert_eq!(rbtree.min(), Some(&1_u32));
    assert_eq!(rbtree.get(rbtree.min().unwrap()), rbtree.min());
}

#[test]
fn test_shuffle_max() {
    let mut rbtree: RedBlackTree<u32, u32> = RedBlackTree::new();
    for i in vec![6_u32, 4, 5, 2, 1, 3] {
        rbtree.put(i, i);
    }
    assert_eq!(rbtree.max(), Some(&6_u32));
    assert_eq!(rbtree.get(rbtree.max().unwrap()), rbtree.max());
}

#[test]
fn test_right_rotate_max() {
    let mut rbtree: RedBlackTree<u32, u32> = RedBlackTree::new();
    for i in (1..=6).rev() {
        rbtree.put(i, i);
    }
    assert_eq!(rbtree.max(), Some(&6_u32));
    assert_eq!(rbtree.get(rbtree.max().unwrap()), rbtree.max());
}

#[test]
fn test_random_in_order() {
    let mut rbtree: RedBlackTree<char, i32> = RedBlackTree::new();
    let res = vec!['a', 'b', 'c', 'd'];
    let mut it = res.iter();
    rbtree.put('c', 3);
    rbtree.put('d', 4);
    rbtree.put('b', 2);
    rbtree.put('a', 1);
    assert_eq!(rbtree.size(), res.len());
    for (a, _) in rbtree.traverse(&Traversals::InOrder) {
        assert_eq!(a, *it.next().unwrap());
    }
}

#[test]
fn test_random_pre_order() {
    let mut rbtree: RedBlackTree<char, i32> = RedBlackTree::new();
    let res = vec!['c', 'b', 'a', 'd'];
    let mut it = res.iter();
    rbtree.put('c', 3);
    rbtree.put('d', 4);
    rbtree.put('b', 2);
    rbtree.put('a', 1);
    assert_eq!(rbtree.size(), res.len());
    for (a, _) in rbtree.traverse(&Traversals::PreOrder) {
        assert_eq!(a, *it.next().unwrap());
    }
}

#[test]
fn test_random_post_order() {
    let mut rbtree: RedBlackTree<char, i32> = RedBlackTree::new();
    let res = vec!['a', 'b', 'd', 'c'];
    let mut it = res.iter();
    rbtree.put('c', 3);
    rbtree.put('d', 4);
    rbtree.put('b', 2);
    rbtree.put('a', 1);
    assert_eq!(rbtree.size(), res.len());
    for (a, _) in rbtree.traverse(&Traversals::PostOrder) {
        assert_eq!(a, *it.next().unwrap());
    }
}

#[test]
fn test_random_level_order() {
    let mut rbtree: RedBlackTree<char, i32> = RedBlackTree::new();
    let res = vec!['c', 'b', 'd', 'a'];
    let mut it = res.iter();
    rbtree.put('c', 3);
    rbtree.put('d', 4);
    rbtree.put('b', 2);
    rbtree.put('a', 1);
    assert_eq!(rbtree.size(), res.len());
    for (a, _) in rbtree.traverse(&Traversals::LevelOrder) {
        assert_eq!(a, *it.next().unwrap());
    }
}

#[test]
fn test_left_rotate_size_and_height() {
    let mut rbtree: RedBlackTree<char, i32> = RedBlackTree::new();
    let mut i = 1;
    for c in 'a'..='i' {
        rbtree.put(c, i);
        i += 1;
    }
    assert_eq!(rbtree.size(), 9_usize);
    assert_eq!(rbtree.height(), Some(3_usize));
}

#[test]
fn test_left_rotate_pre_order() {
    let mut rbtree: RedBlackTree<char, i32> = RedBlackTree::new();
    let res = vec!['d', 'b', 'a', 'c', 'h', 'f', 'e', 'g', 'i'];
    let mut it = res.iter();
    let mut i = 1;
    for c in 'a'..='i' {
        rbtree.put(c, i);
        i += 1;
    }
    assert_eq!(rbtree.size(), res.len());
    for (a, _) in rbtree.traverse(&Traversals::PreOrder) {
        assert_eq!(a, *it.next().unwrap());
    }
}

#[test]
fn test_left_rotate_in_order() {
    let mut rbtree: RedBlackTree<char, i32> = RedBlackTree::new();
    let res = vec!['a', 'b', 'c', 'd', 'e', 'f', 'g', 'h', 'i'];
    let mut it = res.iter();
    let mut i = 1;
    for c in 'a'..='i' {
        rbtree.put(c, i);
        i += 1;
    }
    assert_eq!(rbtree.size(), res.len());
    for (a, _) in rbtree.traverse(&Traversals::InOrder) {
        assert_eq!(a, *it.next().unwrap());
    }
}

#[test]
fn test_left_rotate_post_order() {
    let mut rbtree: RedBlackTree<char, i32> = RedBlackTree::new();
    let res = vec!['a', 'c', 'b', 'e', 'g', 'f', 'i', 'h', 'd'];
    let mut it = res.iter();
    let mut i = 1;
    for c in 'a'..='i' {
        rbtree.put(c, i);
        i += 1;
    }
    assert_eq!(rbtree.size(), res.len());
    for (a, _) in rbtree.traverse(&Traversals::PostOrder) {
        assert_eq!(a, *it.next().unwrap());
    }
}

#[test]
fn test_left_rotate_level_order() {
    let mut rbtree: RedBlackTree<char, i32> = RedBlackTree::new();
    let res = vec!['d', 'b', 'h', 'a', 'c', 'f', 'i', 'e', 'g'];
    let mut it = res.iter();
    let mut i = 1;
    for c in 'a'..='i' {
        rbtree.put(c, i);
        i += 1;
    }
    assert_eq!(rbtree.size(), res.len());
    for (a, _) in rbtree.traverse(&Traversals::LevelOrder) {
        assert_eq!(a, *it.next().unwrap());
    }
}

#[test]
fn test_right_rotate_size_and_height() {
    let mut rbtree: RedBlackTree<char, i32> = RedBlackTree::new();
    let mut i = 1;
    for c in ('a'..='i').rev() {
        rbtree.put(c, i);
        i += 1;
    }
    assert_eq!(rbtree.size(), 9_usize);
    assert_eq!(rbtree.height(), Some(3_usize));
}

#[test]
fn test_right_rotate_pre_order() {
    let mut rbtree: RedBlackTree<char, i32> = RedBlackTree::new();
    let res = vec!['f', 'd', 'b', 'a', 'c', 'e', 'h', 'g', 'i'];
    let mut it = res.iter();
    let mut i = 1;
    for c in ('a'..='i').rev() {
        rbtree.put(c, i);
        i += 1;
    }
    assert_eq!(rbtree.size(), res.len());
    for (a, _) in rbtree.traverse(&Traversals::PreOrder) {
        assert_eq!(a, *it.next().unwrap());
    }
}

#[test]
fn test_right_rotate_in_order() {
    let mut rbtree: RedBlackTree<char, i32> = RedBlackTree::new();
    let res = vec!['a', 'b', 'c', 'd', 'e', 'f', 'g', 'h', 'i'];
    let mut it = res.iter();
    let mut i = 1;
    for c in ('a'..='i').rev() {
        rbtree.put(c, i);
        i += 1;
    }
    assert_eq!(rbtree.size(), res.len());
    for (a, _) in rbtree.traverse(&Traversals::InOrder) {
        assert_eq!(a, *it.next().unwrap());
    }
}

#[test]
fn test_right_rotate_post_order() {
    let mut rbtree: RedBlackTree<char, i32> = RedBlackTree::new();
    let res = vec!['a', 'c', 'b', 'e', 'd', 'g', 'i', 'h', 'f'];
    let mut it = res.iter();
    let mut i = 1;
    for c in ('a'..='i').rev() {
        rbtree.put(c, i);
        i += 1;
    }
    assert_eq!(rbtree.size(), res.len());
    for (a, _) in rbtree.traverse(&Traversals::PostOrder) {
        assert_eq!(a, *it.next().unwrap());
    }
}

#[test]
fn test_right_rotate_level_order() {
    let mut rbtree: RedBlackTree<char, i32> = RedBlackTree::new();
    let res = vec!['f', 'd', 'h', 'b', 'e', 'g', 'i', 'a', 'c'];
    let mut it = res.iter();
    let mut i = 1;
    for c in ('a'..='i').rev() {
        rbtree.put(c, i);
        i += 1;
    }
    assert_eq!(rbtree.size(), res.len());
    for (a, _) in rbtree.traverse(&Traversals::LevelOrder) {
        assert_eq!(a, *it.next().unwrap());
    }
}

#[test]
fn test_left_rotate_thousand() {
    let mut rbtree = RedBlackTree::new();
    for i in 1..=1_000_u32 {
        rbtree.put(i, i);
    }
    let cnt = rbtree.traverse(&Traversals::InOrder).len();
    assert_eq!(cnt, 1_000_usize);
    assert_eq!(rbtree.size(), 1_000_usize);
    assert_eq!(rbtree.size(), cnt);
    assert_eq!(rbtree.height(), Some(9_usize));
    assert_eq!(rbtree.min(), Some(&1_u32));
    assert_eq!(rbtree.max(), Some(&1000_u32));
    assert_eq!(rbtree.get(&501_u32), Some(&501_u32));
}

#[test]
fn test_right_rotate_thousand() {
    let mut rbtree = RedBlackTree::new();
    for i in (1..=1_000_u32).rev() {
        rbtree.put(i, i);
    }
    let cnt = rbtree.traverse(&Traversals::InOrder).len();
    assert_eq!(cnt, 1_000_usize);
    assert_eq!(rbtree.size(), 1_000_usize);
    assert_eq!(rbtree.size(), cnt);
    assert_eq!(rbtree.height(), Some(14_usize));
    assert_eq!(rbtree.min(), Some(&1_u32));
    assert_eq!(rbtree.max(), Some(&1000_u32));
    assert_eq!(rbtree.get(&501_u32), Some(&501_u32));
}
