use treers::bst::BST;
use treers::{SedgewickMap, Traversals, TreeTraversal};

#[test]
fn bst_test_is_empty() {
    let bst: BST<i32, i32> = BST::new();
    assert!(bst.is_empty());
}

#[test]
fn bst_test_is_not_empty() {
    let mut bst: BST<i32, i32> = BST::new();
    bst.put(1, 2);
    bst.put(2, 3);
    assert_eq!(bst.is_empty(), false);
}

#[test]
fn bst_test_size_zero() {
    let bst: BST<i32, i32> = BST::new();
    assert_eq!(bst.size(), 0);
    assert_eq!(bst.height(), None);
}

#[test]
fn bst_test_put() {
    let mut bst: BST<u32, Vec<i32>> = BST::new();
    let v = vec![1, 2, 3];
    bst.put(1, v);
    assert_eq!(bst.get(&1_u32), Some(&vec![1_i32, 2, 3]));
}

#[test]
fn bst_test_get() {
    let mut bst: BST<u32, i32> = BST::new();
    bst.put(1_u32, -1_i32);
    assert_eq!(bst.get(&1_u32), Some(&-1_i32));
    assert_eq!(bst.get(&10_u32), None);
    assert_eq!(*bst.index(&1_u32), -1_i32);
}

#[test]
fn bst_test_contains() {
    let mut bst: BST<i32, i32> = BST::new();
    bst.put(1_i32, -1_i32);
    assert!(bst.contains(&1_i32));
    assert_eq!(bst.contains(&-1_i32), false);
}

#[test]
fn test_size_two() {
    let mut bst: BST<i32, i32> = BST::new();
    bst.put(1, 2);
    bst.put(2, 3);
    assert_eq!(bst.size(), 2);
}

#[test]
fn test_size_and_height_one_thousand() {
    let mut bst: BST<u64, u64> = BST::new();
    for i in 1..=1_000_u64 {
        bst.put(i, i + 1);
    }
    assert_eq!(bst.size(), 1_000);
    assert_eq!(bst.height(), Some(999));
}

#[test]
fn test_min() {
    let mut bst: BST<u32, u32> = BST::new();
    assert_eq!(bst.min(), None);
    for i in vec![6_u32, 4, 5, 2, 1, 3] {
        bst.put(i, i);
    }
    assert_eq!(bst.min(), Some(&1_u32));
    assert_eq!(bst.get(bst.min().unwrap()), bst.min());
}

#[test]
fn test_max() {
    let mut bst: BST<u32, u32> = BST::new();
    assert_eq!(bst.max(), None);
    for i in vec![6_u32, 4, 5, 2, 1, 3] {
        bst.put(i, i);
    }
    assert_eq!(bst.max(), Some(&6_u32));
    assert_eq!(bst.get(bst.max().unwrap()), bst.max());
}

#[test]
fn test_in_order() {
    let mut bst: BST<char, i32> = BST::new();
    let res = vec!['a', 'b', 'c', 'd'];
    let mut it = res.iter();
    bst.put('c', 3);
    bst.put('d', 4);
    bst.put('b', 2);
    bst.put('a', 1);
    assert_eq!(bst.size(), res.len());
    for (a, _) in bst.traverse(&Traversals::InOrder) {
        assert_eq!(a, *it.next().unwrap());
    }
}

#[test]
fn test_pre_order() {
    let mut bst: BST<char, i32> = BST::new();
    let res = vec!['c', 'b', 'a', 'd'];
    let mut it = res.iter();
    bst.put('c', 3);
    bst.put('d', 4);
    bst.put('b', 2);
    bst.put('a', 1);
    assert_eq!(bst.size(), res.len());
    for (a, _) in bst.traverse(&Traversals::PreOrder) {
        assert_eq!(a, *it.next().unwrap());
    }
}

#[test]
fn test_post_order() {
    let mut bst: BST<char, i32> = BST::new();
    let res = vec!['a', 'b', 'd', 'c'];
    let mut it = res.iter();
    bst.put('c', 3);
    bst.put('d', 4);
    bst.put('b', 2);
    bst.put('a', 1);
    assert_eq!(bst.size(), res.len());
    for (a, _) in bst.traverse(&Traversals::PostOrder) {
        assert_eq!(a, *it.next().unwrap());
    }
}

#[test]
fn test_level_order() {
    //     c
    //    / \
    //   b   d
    //  /
    // a
    //
    // Inverted BST
    //     c
    //    / \
    //   d   b
    //    \
    //     a
    let mut bst: BST<char, i32> = BST::new();
    let res = vec!['c', 'b', 'd', 'a'];
    let mut it = res.iter();
    bst.put('c', 3);
    bst.put('d', 4);
    bst.put('b', 2);
    bst.put('a', 1);
    assert_eq!(bst.size(), res.len());
    for (a, _) in bst.traverse(&Traversals::LevelOrder) {
        assert_eq!(a, *it.next().unwrap());
    }
    bst.invert();
    let res = vec!['c', 'd', 'b', 'a'];
    it = res.iter();
    assert_eq!(bst.size(), res.len());
    for (a, _) in bst.traverse(&Traversals::LevelOrder) {
        assert_eq!(a, *it.next().unwrap());
    }
}
