//! Behaviour the specification calls out beyond the per-structure cases:
//! insert-if-absent on duplicate keys, in-order sortedness after shuffled
//! insertion, count agreement across every traversal order, round-trip
//! lookups, and the worked unbalanced-tree example.

use treers::bst::BST;
use treers::btree::BalancedTree;
use treers::rbtree::RedBlackTree;
use treers::{SedgewickMap, Traversals, TreeTraversal};

#[test]
fn bst_duplicate_keeps_first_value() {
    let mut bst: BST<u32, u32> = BST::new();
    bst.put(7, 70);
    bst.put(7, 71);
    assert_eq!(bst.size(), 1);
    assert_eq!(bst.get(&7), Some(&70));
}

#[test]
fn btree_duplicate_keeps_first_value() {
    let mut btree: BalancedTree<u32, u32> = BalancedTree::new();
    btree.put(7, 70);
    btree.put(7, 71);
    assert_eq!(btree.size(), 1);
    assert_eq!(btree.get(&7), Some(&70));
}

#[test]
fn rbtree_duplicate_keeps_first_value() {
    let mut rbtree: RedBlackTree<u32, u32> = RedBlackTree::new();
    rbtree.put(7, 70);
    rbtree.put(7, 71);
    assert_eq!(rbtree.size(), 1);
    assert_eq!(rbtree.get(&7), Some(&70));
}

#[test]
fn btree_duplicates_under_split_pressure() {
    let mut btree: BalancedTree<u32, u32> = BalancedTree::new();
    for i in 0..50_u32 {
        btree.put(i % 10, i);
    }
    assert_eq!(btree.size(), 10);
    for k in 0..10_u32 {
        assert_eq!(btree.get(&k), Some(&k));
    }
}

#[test]
fn bst_in_order_sorted_after_shuffle() {
    let mut bst: BST<u32, u32> = BST::new();
    for i in vec![8_u32, 3, 11, 1, 6, 9, 14, 2, 5, 7, 10, 13, 4, 12] {
        bst.put(i, i * 2);
    }
    let pairs = bst.traverse(&Traversals::InOrder);
    assert_eq!(pairs.len(), bst.size());
    for w in pairs.windows(2) {
        assert!(w[0].0 < w[1].0);
    }
}

#[test]
fn rbtree_in_order_sorted_after_shuffle() {
    let mut rbtree: RedBlackTree<u32, u32> = RedBlackTree::new();
    for i in vec![8_u32, 3, 11, 1, 6, 9, 14, 2, 5, 7, 10, 13, 4, 12] {
        rbtree.put(i, i * 2);
    }
    let pairs = rbtree.traverse(&Traversals::InOrder);
    assert_eq!(pairs.len(), rbtree.size());
    for w in pairs.windows(2) {
        assert!(w[0].0 < w[1].0);
    }
}

#[test]
fn bst_every_traversal_counts_all_entries() {
    let mut bst: BST<u32, u32> = BST::new();
    for i in vec![8_u32, 3, 11, 1, 6, 9, 14] {
        bst.put(i, i);
    }
    assert_eq!(bst.traverse(&Traversals::PreOrder).len(), 7);
    assert_eq!(bst.traverse(&Traversals::InOrder).len(), 7);
    assert_eq!(bst.traverse(&Traversals::PostOrder).len(), 7);
    assert_eq!(bst.traverse(&Traversals::LevelOrder).len(), 7);
}

#[test]
fn rbtree_every_traversal_counts_all_entries() {
    let mut rbtree: RedBlackTree<u32, u32> = RedBlackTree::new();
    for i in vec![8_u32, 3, 11, 1, 6, 9, 14] {
        rbtree.put(i, i);
    }
    assert_eq!(rbtree.traverse(&Traversals::PreOrder).len(), 7);
    assert_eq!(rbtree.traverse(&Traversals::InOrder).len(), 7);
    assert_eq!(rbtree.traverse(&Traversals::PostOrder).len(), 7);
    assert_eq!(rbtree.traverse(&Traversals::LevelOrder).len(), 7);
}

#[test]
fn round_trip_lookup_all_three() {
    let mut bst: BST<i32, i32> = BST::new();
    let mut rbtree: RedBlackTree<i32, i32> = RedBlackTree::new();
    let mut btree: BalancedTree<i32, i32> = BalancedTree::new();
    for i in vec![5_i32, -3, 12, 0, 7, -8, 2] {
        bst.put(i, i * 10);
        rbtree.put(i, i * 10);
        btree.put(i, i * 10);
    }
    for i in vec![5_i32, -3, 12, 0, 7, -8, 2] {
        assert_eq!(bst.get(&i), Some(&(i * 10)));
        assert_eq!(rbtree.get(&i), Some(&(i * 10)));
        assert_eq!(btree.get(&i), Some(&(i * 10)));
    }
    assert_eq!(bst.get(&99), None);
    assert_eq!(rbtree.get(&99), None);
    assert_eq!(btree.get(&99), None);
}

#[test]
fn unbalanced_example_scenario() {
    let mut bst: BST<char, i32> = BST::new();
    bst.put('c', 3);
    bst.put('d', 4);
    bst.put('b', 2);
    bst.put('a', 1);
    assert_eq!(bst.min(), Some(&'a'));
    assert_eq!(bst.max(), Some(&'d'));
    assert_eq!(bst.height(), Some(2));
    let pre: Vec<char> = bst.traverse(&Traversals::PreOrder).into_iter().map(|p| p.0).collect();
    assert_eq!(pre, vec!['c', 'b', 'a', 'd']);
    let ord: Vec<char> = bst.traverse(&Traversals::InOrder).into_iter().map(|p| p.0).collect();
    assert_eq!(ord, vec!['a', 'b', 'c', 'd']);
}

#[test]
fn rbtree_empty_min_max() {
    let rbtree: RedBlackTree<u32, u32> = RedBlackTree::new();
    assert_eq!(rbtree.min(), None);
    assert_eq!(rbtree.max(), None);
    assert_eq!(rbtree.get(&1), None);
}

#[test]
fn char_keys_across_structures() {
    let mut bst: BST<char, u32> = BST::new();
    let mut rbtree: RedBlackTree<char, u32> = RedBlackTree::new();
    let mut btree: BalancedTree<char, u32> = BalancedTree::new();
    bst.put('a', 2);
    rbtree.put('a', 2);
    btree.put('a', 2);
    assert!(bst.contains(&'a'));
    assert_eq!(bst.contains(&'b'), false);
    assert!(rbtree.contains(&'a'));
    assert_eq!(rbtree.contains(&'b'), false);
    assert!(btree.contains(&'a'));
    assert_eq!(btree.contains(&'b'), false);
}
