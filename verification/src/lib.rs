//! Ordered key-value maps backed by three tree structures: an unbalanced
//! binary search tree, a 2-3-4 style multiway balanced tree, and a
//! left-leaning red-black tree. All three satisfy one ordered-map contract,
//! specified against the in-order key-value sequence model of `kv`, and the
//! two binary trees share a traversal capability producing pre-, in-, post-
//! and level-order sequences.

use vstd::prelude::*;

pub mod bst;
pub mod btree;
pub mod key;
pub mod kv;
pub mod rbtree;

verus! {

use crate::key::TreeKey;
use crate::kv::{kv_contains, kv_get, kv_insert};

/// The ordered-map capability: create, count, point lookup, insert-if-absent,
/// height, emptiness, membership, and extreme keys.
///
/// A map's content is its in-order key-value sequence `kvs`; `inv` is the
/// structure's full well-formedness invariant, and `size_inv` the part of it
/// that the size and height bookkeeping relies on.
pub trait SedgewickMap<K: TreeKey, V>: Sized {
    /// Full well-formedness invariant, established by `new` and preserved by
    /// `put`.
    spec fn inv(&self) -> bool;

    /// The counting part of the invariant: enough for `size`, `is_empty` and
    /// `height`.
    spec fn size_inv(&self) -> bool;

    /// The map's content: its key-value pairs in ascending key order.
    spec fn kvs(&self) -> Seq<(K, V)>;

    /// Structural height: the edge count of the longest root-to-leaf path,
    /// or `None` where the structure reports no height.
    spec fn height_opt(&self) -> Option<int>;

    /// The full invariant contains the counting invariant.
    proof fn lemma_inv_size_inv(&self)
        requires
            self.inv(),
        ensures
            self.size_inv(),
    ;

    /// An empty map.
    fn new() -> (r: Self)
        ensures
            r.inv(),
            r.kvs() == Seq::<(K, V)>::empty(),
    ;

    /// The number of entries.
    fn size(&self) -> (r: usize)
        requires
            self.size_inv(),
        ensures
            r as int == self.kvs().len(),
    ;

    /// The value stored under `key`, if any.
    fn get<'a>(&'a self, key: &K) -> (r: Option<&'a V>)
        requires
            self.inv(),
        ensures
            (match r {
                Some(v) => kv_get(self.kvs(), key.ord()) == Some(*v),
                None => kv_get(self.kvs(), key.ord()) is None,
            }),
    ;

    /// Insert `key` with `value`; a key already present keeps its first value.
    fn put(&mut self, key: K, value: V)
        requires
            old(self).inv(),
            old(self).kvs().len() < usize::MAX,
        ensures
            final(self).inv(),
            final(self).kvs() == kv_insert(old(self).kvs(), key, value),
    ;

    /// The structure's height.
    fn height(&self) -> (r: Option<usize>)
        requires
            self.size_inv(),
        ensures
            (match r {
                Some(h) => self.height_opt() == Some(h as int),
                None => self.height_opt() is None,
            }),
    ;

    /// True exactly of a map with no entries.
    fn is_empty(&self) -> (r: bool)
        requires
            self.size_inv(),
        ensures
            r <==> self.kvs().len() == 0,
    {
        self.size() == 0
    }

    /// Does `key` have an entry?
    fn contains(&self, key: &K) -> (r: bool)
        requires
            self.inv(),
        ensures
            r == kv_contains(self.kvs(), key.ord()),
    {
        proof {
            crate::kv::lemma_kv_get_is_some(self.kvs(), key.ord());
        }
        self.get(key).is_some()
    }

    /// The least key, `None` exactly when the map is empty.
    fn min(&self) -> (r: Option<&K>)
        requires
            self.inv(),
        ensures
            (match r {
                Some(k) => self.kvs().len() > 0 && *k == self.kvs()[0].0,
                None => self.kvs().len() == 0,
            }),
    ;

    /// The greatest key, `None` exactly when the map is empty.
    fn max(&self) -> (r: Option<&K>)
        requires
            self.inv(),
        ensures
            (match r {
                Some(k) => self.kvs().len() > 0 && *k == self.kvs().last().0,
                None => self.kvs().len() == 0,
            }),
    ;
}

/// The four traversal orders.
pub enum Traversals {
    PreOrder,
    InOrder,
    PostOrder,
    LevelOrder,
}

/// Immutable traversals over binary trees, producing the key-value pairs in
/// pre-, in-, post- or level order as a materialized vector.
pub trait TreeTraversal<K: TreeKey + Copy, V: Copy>: SedgewickMap<K, V> {
    /// Pre-order sequence: each node before its subtrees.
    spec fn pre_seq(&self) -> Seq<(K, V)>;

    /// Post-order sequence: each node after its subtrees.
    spec fn post_seq(&self) -> Seq<(K, V)>;

    /// The pairs whose nodes sit exactly `level` edges below the root.
    spec fn level_seq(&self, level: int) -> Seq<(K, V)>;

    /// Concatenation of the first `n` levels, top to bottom.
    spec fn levels_seq(&self, n: int) -> Seq<(K, V)>;

    /// The number of node levels: one more than the height, zero for an empty
    /// tree.
    spec fn level_count(&self) -> int;

    /// Append the pre-order pairs to `vec`.
    fn pre_order(&self, vec: &mut Vec<(K, V)>)
        ensures
            final(vec)@ == old(vec)@ + self.pre_seq(),
    ;

    /// Append the in-order pairs to `vec`.
    fn in_order(&self, vec: &mut Vec<(K, V)>)
        ensures
            final(vec)@ == old(vec)@ + self.kvs(),
    ;

    /// Append the post-order pairs to `vec`.
    fn post_order(&self, vec: &mut Vec<(K, V)>)
        ensures
            final(vec)@ == old(vec)@ + self.post_seq(),
    ;

    /// Append the pairs that sit exactly `level` edges below the root.
    fn level_order(&self, vec: &mut Vec<(K, V)>, level: usize)
        ensures
            final(vec)@ == old(vec)@ + self.level_seq(level as int),
    ;

    /// The whole traversal in the chosen order. Every node is visited exactly
    /// once: the result has one pair per entry of the map.
    fn traverse(&self, order: &Traversals) -> (r: Vec<(K, V)>)
        requires
            self.size_inv(),
        ensures
            r@ == (match *order {
                Traversals::PreOrder => self.pre_seq(),
                Traversals::InOrder => self.kvs(),
                Traversals::PostOrder => self.post_seq(),
                Traversals::LevelOrder => self.levels_seq(self.level_count()),
            }),
            r@.len() == self.kvs().len(),
    ;
}

} // verus!
