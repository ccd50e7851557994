use treers::bst::BST;
use treers::btree::BalancedTree;
use treers::rbtree::RedBlackTree;
use treers::key::TreeKey;
use treers::SedgewickMap;

#[test]
fn its_42() {
    assert_eq!(20 + 22, 42);
}

fn is_empty<K: TreeKey, V>(map: &impl SedgewickMap<K, V>) -> bool {
    map.is_empty()
}

#[test]
fn test_empty() {
    let bst: BST<i32, i32> = BST::new();
    let rbt: RedBlackTree<i32, i32> = RedBlackTree::new();
    let btree: BalancedTree<i32, i32> = BalancedTree::new();

    assert!(is_empty(&bst));
    assert!(is_empty(&rbt));
    assert!(is_empty(&btree));
}
