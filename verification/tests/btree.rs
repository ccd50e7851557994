use treers::btree::BalancedTree;
use treers::SedgewickMap;

#[test]
fn btree_test_is_empty() {
    let btree: BalancedTree<i32, i32> = BalancedTree::new();
    assert_eq!(btree.is_empty(), true);
}

#[test]
fn btree_test_is_not_empty() {
    let mut btree = BalancedTree::new();
    btree.put(1, 2);
    btree.put(2, 4);
    assert_eq!(btree.is_empty(), false);
}

#[test]
fn btree_test_size_zero() {
    let btree: BalancedTree<i32, i32> = BalancedTree::new();
    assert_eq!(btree.size(), 0_usize);
    assert_eq!(btree.height(), Some(0));
}

#[test]
fn btree_test_put() {
    let mut btree: BalancedTree<u32, Vec<i32>> = BalancedTree::new();
    let v = vec![1, 2, 3];
    btree.put(1, v);
    assert_eq!(btree.get(&1_u32), Some(&vec![1_i32, 2, 3]));
}

#[test]
fn btree_test_get() {
    let mut btree: BalancedTree<u32, i32> = BalancedTree::new();
    btree.put(1_u32, -1_i32);
    assert_eq!(btree.get(&1_u32), Some(&-1_i32));
    assert_eq!(btree.get(&10_u32), None);
    assert_eq!(*btree.index(&1_u32), -1_i32);
}

#[test]
fn btree_test_contains() {
    let mut btree: BalancedTree<i32, i32> = BalancedTree::new();
    btree.put(1_i32, -1_i32);
    assert_eq!(btree.contains(&1_i32), true);
    assert_eq!(btree.contains(&-1_i32), false);
}

#[test]
fn test_left_rotate_one_thousand() {
    let mut btree: BalancedTree<i32, i32> = BalancedTree::new();
    assert_eq!(btree.min(), None);
    assert_eq!(btree.max(), None);
    for i in 1..=1_000_i32 {
        btree.put(i, i + 1);
    }
    assert_eq!(btree.size(), 1_000_usize);
    assert_eq!(btree.height(), Some(8_usize));
    assert_eq!(btree.min(), Some(&1_i32));
    assert_eq!(btree.max(), Some(&1_000_i32));
    assert_eq!(btree.get(&501_i32), Some(&502_i32));
    assert_eq!(btree.contains(&501_i32), true);
}

#[test]
fn test_right_rotate_one_thousand() {
    let mut btree: BalancedTree<i32, i32> = BalancedTree::new();
    for i in (1..=1_000_i32).rev() {
        btree.put(i, i + 1);
    }
    assert_eq!(btree.size(), 1_000_usize);
    assert_eq!(btree.height(), Some(8_usize));
    assert_eq!(btree.min(), Some(&1_i32));
    assert_eq!(btree.max(), Some(&1_000_i32));
    assert_eq!(btree.get(&501_i32), Some(&502_i32));
    assert_eq!(btree.contains(&501_i32), true);
}
