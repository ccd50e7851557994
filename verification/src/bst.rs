//! The unbalanced binary search tree: the baseline structure, a recursive
//! sum type with no rebalancing. Each populated node caches the size of its
//! subtree; height is measured on demand and is unbounded in the worst case.

use vstd::prelude::*;

use crate::key::{KeyOrdering, TreeKey};
use crate::kv::{
    all_above, all_below, kv_insert, kv_sorted, lemma_above_not_contains, lemma_below_not_contains,
    lemma_kv_contains_concat, lemma_kv_get_concat, lemma_kv_insert_above, lemma_kv_insert_below,
    lemma_kv_insert_len, lemma_kv_insert_mid, lemma_kv_insert_prefix, lemma_kv_insert_suffix,
    lemma_sorted_concat,
};
use crate::{SedgewickMap, Traversals, TreeTraversal};

verus! {

/// A binary search tree node: either a populated node owning its two
/// subtrees, or the empty marker.
pub enum BST<K, V> {
    Node { k: K, v: V, size: usize, left: Box<BST<K, V>>, right: Box<BST<K, V>> },
    NIL,
}

impl<K: TreeKey, V> BST<K, V> {
    /// The in-order key-value sequence of the subtree.
    pub open spec fn kv_seq(self) -> Seq<(K, V)>
        decreases self,
    {
        match self {
            BST::Node { k, v, left, right, .. } => left.kv_seq() + seq![(k, v)] + right.kv_seq(),
            BST::NIL => Seq::empty(),
        }
    }

    /// The search-tree ordering: each node's key bounds its subtrees.
    pub open spec fn ordered(self) -> bool
        decreases self,
    {
        match self {
            BST::Node { k, left, right, .. } => left.ordered() && right.ordered() && all_below(
                left.kv_seq(),
                k.ord(),
            ) && all_above(right.kv_seq(), k.ord()),
            BST::NIL => true,
        }
    }

    /// Every cached size field counts the entries of its subtree.
    pub open spec fn size_ok(self) -> bool
        decreases self,
    {
        match self {
            BST::Node { size, left, right, .. } => left.size_ok() && right.size_ok() && size as int
                == left.kv_seq().len() + right.kv_seq().len() + 1,
            BST::NIL => true,
        }
    }

    /// The number of node levels: zero for the empty tree, one more than the
    /// deeper subtree otherwise.
    pub open spec fn height_nat(self) -> nat
        decreases self,
    {
        match self {
            BST::Node { left, right, .. } => 1 + if left.height_nat() >= right.height_nat() {
                left.height_nat()
            } else {
                right.height_nat()
            },
            BST::NIL => 0,
        }
    }
}

/// A tree has no more levels than entries.
proof fn lemma_height_le_count<K: TreeKey, V>(t: BST<K, V>)
    ensures
        t.height_nat() <= t.kv_seq().len(),
    decreases t,
{
    match t {
        BST::Node { left, right, .. } => {
            lemma_height_le_count(*left);
            lemma_height_le_count(*right);
        },
        BST::NIL => {},
    }
}

/// Ordering invariant: an ordered tree's in-order sequence lists its keys in
/// strictly increasing order.
pub proof fn lemma_in_order_sorted<K: TreeKey, V>(t: BST<K, V>)
    requires
        t.ordered(),
    ensures
        kv_sorted(t.kv_seq()),
    decreases t,
{
    match t {
        BST::Node { k, v, left, right, .. } => {
            lemma_in_order_sorted(*left);
            lemma_in_order_sorted(*right);
            lemma_sorted_concat(left.kv_seq(), (k, v), right.kv_seq());
        },
        BST::NIL => {},
    }
}

/// An empty tree reports no height at all; a populated one reports the edge
/// count of its longest root-to-leaf path.
pub proof fn lemma_empty_height<K: TreeKey, V>(t: BST<K, V>)
    requires
        t.inv(),
    ensures
        t.height_opt() is None <==> t.kvs().len() == 0,
{
}

impl<K: TreeKey, V> BST<K, V> {
    /// Functional insertion at the correct search position; an existing key
    /// keeps its first value. Sizes are recomputed on the way back up.
    fn put_node(self, key: K, value: V) -> (r: Self)
        requires
            self.ordered(),
            self.size_ok(),
            self.kv_seq().len() < usize::MAX,
        ensures
            r.ordered(),
            r.size_ok(),
            r.kv_seq() == kv_insert(self.kv_seq(), key, value),
        decreases self,
    {
        match self {
            BST::NIL => {
                proof {
                    assert(kv_insert(Seq::<(K, V)>::empty(), key, value) =~= Seq::empty() + seq![
                        (key, value),
                    ] + Seq::empty());
                }
                BST::Node {
                    k: key,
                    v: value,
                    size: 1,
                    left: Box::new(BST::NIL),
                    right: Box::new(BST::NIL),
                }
            },
            BST::Node { k, v, size, left, right } => {
                let ghost lkvs = left.kv_seq();
                let ghost rkvs = right.kv_seq();
                match key.key_cmp(&k) {
                    KeyOrdering::Less => {
                        proof {
                            lemma_in_order_sorted(*left);
                            lemma_kv_insert_prefix(lkvs, (k, v), rkvs, key, value);
                            lemma_kv_insert_below(lkvs, key, value, k.ord());
                            lemma_kv_insert_len(lkvs, key, value);
                        }
                        let nl = (*left).put_node(key, value);
                        let ns = 1 + nl.size() + right.size();
                        BST::Node { k, v, size: ns, left: Box::new(nl), right }
                    },
                    KeyOrdering::Equal => {
                        proof {
                            lemma_kv_insert_mid(lkvs, (k, v), rkvs, key, value);
                        }
                        BST::Node { k, v, size, left, right }
                    },
                    KeyOrdering::Greater => {
                        proof {
                            lemma_in_order_sorted(*right);
                            assert(all_below(lkvs, key.ord()));
                            lemma_kv_insert_suffix(lkvs, (k, v), rkvs, key, value);
                            lemma_kv_insert_above(rkvs, key, value, k.ord());
                            lemma_kv_insert_len(rkvs, key, value);
                        }
                        let nr = (*right).put_node(key, value);
                        let ns = 1 + left.size() + nr.size();
                        BST::Node { k, v, size: ns, left, right: Box::new(nr) }
                    },
                }
            },
        }
    }

    /// Recursive lookup by key comparison.
    fn get_node<'a>(&'a self, key: &K) -> (r: Option<&'a V>)
        requires
            self.ordered(),
        ensures
            (match r {
                Some(v) => crate::kv::kv_get(self.kv_seq(), key.ord()) == Some(*v),
                None => crate::kv::kv_get(self.kv_seq(), key.ord()) is None,
            }),
        decreases self,
    {
        match self {
            BST::Node { k, v, left, right, .. } => {
                proof {
                    lemma_kv_get_concat(
                        left.kv_seq() + seq![(*k, *v)],
                        right.kv_seq(),
                        key.ord(),
                    );
                    lemma_kv_get_concat(left.kv_seq(), seq![(*k, *v)], key.ord());
                    lemma_kv_contains_concat(left.kv_seq(), seq![(*k, *v)], key.ord());
                    assert(self.kv_seq() =~= (left.kv_seq() + seq![(*k, *v)]) + right.kv_seq());
                }
                proof {
                    assert(seq![(*k, *v)].drop_first() =~= Seq::<(K, V)>::empty());
                    assert(!crate::kv::kv_contains(Seq::<(K, V)>::empty(), key.ord()));
                    assert(seq![(*k, *v)][0].0 == *k);
                }
                match key.key_cmp(k) {
                    KeyOrdering::Less => {
                        proof {
                            assert(!crate::kv::kv_contains(seq![(*k, *v)], key.ord()));
                            lemma_above_not_contains(right.kv_seq(), k.ord(), key.ord());
                            crate::kv::lemma_kv_get_is_some(left.kv_seq(), key.ord());
                            crate::kv::lemma_kv_get_is_some(right.kv_seq(), key.ord());
                        }
                        left.get_node(key)
                    },
                    KeyOrdering::Greater => {
                        proof {
                            assert(!crate::kv::kv_contains(seq![(*k, *v)], key.ord()));
                            lemma_below_not_contains(left.kv_seq(), k.ord(), key.ord());
                        }
                        right.get_node(key)
                    },
                    KeyOrdering::Equal => {
                        proof {
                            lemma_below_not_contains(left.kv_seq(), k.ord(), key.ord());
                            assert(crate::kv::kv_get(seq![(*k, *v)], key.ord()) == Some(*v));
                        }
                        Some(v)
                    },
                }
            },
            BST::NIL => None,
        }
    }

    /// Leftmost key of the subtree, `None` for the empty marker.
    fn min_opt(&self) -> (r: Option<&K>)
        ensures
            (match r {
                Some(k) => self.kv_seq().len() > 0 && *k == self.kv_seq()[0].0,
                None => self.kv_seq().len() == 0,
            }),
        decreases self,
    {
        match self {
            BST::Node { k, v, left, right, .. } => {
                let m = left.min_opt();
                match m {
                    Some(l) => {
                        proof {
                            assert(self.kv_seq()[0] == left.kv_seq()[0]);
                        }
                        Some(l)
                    },
                    None => {
                        proof {
                            assert(self.kv_seq()[0] == (*k, *v));
                        }
                        Some(k)
                    },
                }
            },
            BST::NIL => None,
        }
    }

    /// Rightmost key of the subtree, `None` for the empty marker.
    fn max_opt(&self) -> (r: Option<&K>)
        ensures
            (match r {
                Some(k) => self.kv_seq().len() > 0 && *k == self.kv_seq().last().0,
                None => self.kv_seq().len() == 0,
            }),
        decreases self,
    {
        match self {
            BST::Node { k, v, right, .. } => {
                let m = right.max_opt();
                match m {
                    Some(l) => {
                        proof {
                            assert(self.kv_seq().last() == right.kv_seq().last());
                        }
                        Some(l)
                    },
                    None => {
                        proof {
                            assert(self.kv_seq().last() == (*k, *v));
                        }
                        Some(k)
                    },
                }
            },
            BST::NIL => None,
        }
    }

    /// The number of node levels, measured by a depth-first walk.
    fn get_height(&self) -> (r: usize)
        requires
            self.size_ok(),
        ensures
            r as int == self.height_nat(),
        decreases self,
    {
        proof {
            lemma_height_le_count(*self);
        }
        match self {
            BST::Node { left, right, .. } => {
                let lh = left.get_height();
                let rh = right.get_height();
                if lh >= rh {
                    1 + lh
                } else {
                    1 + rh
                }
            },
            BST::NIL => 0,
        }
    }

    /// Mirror the tree: every left subtree becomes the right one and the
    /// other way round, so the in-order sequence reverses. The ordering
    /// invariant is deliberately given up; sizes and height are kept.
    pub fn invert(&mut self)
        ensures
            final(self).kv_seq() == old(self).kv_seq().reverse(),
            old(self).size_ok() ==> final(self).size_ok(),
            final(self).height_nat() == old(self).height_nat(),
    {
        let mut t = BST::NIL;
        core::mem::swap(&mut t, self);
        *self = t.invert_node();
    }

    /// Functional mirror of a subtree.
    fn invert_node(self) -> (r: Self)
        ensures
            r.kv_seq() == self.kv_seq().reverse(),
            self.size_ok() ==> r.size_ok(),
            r.height_nat() == self.height_nat(),
        decreases self,
    {
        match self {
            BST::NIL => {
                proof {
                    assert(Seq::<(K, V)>::empty().reverse() =~= Seq::<(K, V)>::empty());
                }
                BST::NIL
            },
            BST::Node { k, v, size, left, right } => {
                let ghost lkvs = left.kv_seq();
                let ghost rkvs = right.kv_seq();
                let nl = (*right).invert_node();
                let nr = (*left).invert_node();
                let r = BST::Node { k, v, size, left: Box::new(nl), right: Box::new(nr) };
                proof {
                    let s = lkvs + seq![(k, v)] + rkvs;
                    assert(r.kv_seq() =~= s.reverse()) by {
                        assert(r.kv_seq() == rkvs.reverse() + seq![(k, v)] + lkvs.reverse());
                        assert forall|i: int| 0 <= i < s.len() implies s.reverse()[i] == (
                        rkvs.reverse() + seq![(k, v)] + lkvs.reverse())[i] by {
                            assert(s.reverse()[i] == s[s.len() - 1 - i]);
                        }
                    }
                }
                r
            },
        }
    }

    /// The value stored under `key`; the caller must know the key is present.
    pub fn index(&self, key: &K) -> (r: &V)
        requires
            self.ordered(),
            crate::kv::kv_contains(self.kv_seq(), key.ord()),
        ensures
            crate::kv::kv_get(self.kv_seq(), key.ord()) == Some(*r),
    {
        proof {
            crate::kv::lemma_kv_get_is_some(self.kv_seq(), key.ord());
        }
        match self.get_node(key) {
            Some(v) => v,
            None => vstd::pervasive::unreached(),
        }
    }
}

impl<K: TreeKey, V> SedgewickMap<K, V> for BST<K, V> {
    open spec fn inv(&self) -> bool {
        self.ordered() && self.size_ok()
    }

    open spec fn size_inv(&self) -> bool {
        self.size_ok()
    }

    open spec fn kvs(&self) -> Seq<(K, V)> {
        self.kv_seq()
    }

    open spec fn height_opt(&self) -> Option<int> {
        match *self {
            BST::NIL => None,
            _ => Some(self.height_nat() - 1),
        }
    }

    proof fn lemma_inv_size_inv(&self) {
    }

    fn new() -> (r: Self) {
        BST::NIL
    }

    fn size(&self) -> (r: usize) {
        match self {
            BST::Node { size, .. } => *size,
            _ => 0,
        }
    }

    fn get<'a>(&'a self, key: &K) -> (r: Option<&'a V>) {
        self.get_node(key)
    }

    fn put(&mut self, key: K, value: V) {
        let mut t = BST::NIL;
        core::mem::swap(&mut t, self);
        *self = t.put_node(key, value);
    }

    fn height(&self) -> (r: Option<usize>) {
        let h = self.get_height();
        if h > 0 {
            Some(h - 1)
        } else {
            None
        }
    }

    fn is_empty(&self) -> (r: bool) {
        !(matches!(*self, BST::Node { .. }))
    }

    fn min(&self) -> (r: Option<&K>) {
        self.min_opt()
    }

    fn max(&self) -> (r: Option<&K>) {
        self.max_opt()
    }
}

impl<K: TreeKey + Copy, V: Copy> BST<K, V> {
    /// The pre-order sequence of the subtree.
    pub open spec fn pre_seq_of(self) -> Seq<(K, V)>
        decreases self,
    {
        match self {
            BST::Node { k, v, left, right, .. } => seq![(k, v)] + left.pre_seq_of()
                + right.pre_seq_of(),
            BST::NIL => Seq::empty(),
        }
    }

    /// The post-order sequence of the subtree.
    pub open spec fn post_seq_of(self) -> Seq<(K, V)>
        decreases self,
    {
        match self {
            BST::Node { k, v, left, right, .. } => left.post_seq_of() + right.post_seq_of()
                + seq![(k, v)],
            BST::NIL => Seq::empty(),
        }
    }

    /// The pairs exactly `level` edges below this subtree's root.
    pub open spec fn level_seq_of(self, level: int) -> Seq<(K, V)>
        decreases self,
    {
        match self {
            BST::Node { k, v, left, right, .. } => if level == 0 {
                seq![(k, v)]
            } else {
                left.level_seq_of(level - 1) + right.level_seq_of(level - 1)
            },
            BST::NIL => Seq::empty(),
        }
    }

    /// The first `n` levels, concatenated top to bottom.
    pub open spec fn levels_of(self, n: int) -> Seq<(K, V)>
        decreases n,
    {
        if n <= 0 {
            Seq::empty()
        } else {
            self.levels_of(n - 1) + self.level_seq_of(n - 1)
        }
    }

    /// Recursive pre-order visit.
    fn pre_order_rec(&self, vec: &mut Vec<(K, V)>)
        ensures
            final(vec)@ == old(vec)@ + self.pre_seq_of(),
        decreases self,
    {
        match self {
            BST::Node { k, v, left, right, .. } => {
                vec.push((*k, *v));
                left.pre_order_rec(vec);
                right.pre_order_rec(vec);
                proof {
                    assert(vec@ =~= old(vec)@ + self.pre_seq_of());
                }
            },
            BST::NIL => {
                proof {
                    assert(vec@ =~= old(vec)@ + self.pre_seq_of());
                }
            },
        }
    }

    /// Recursive in-order visit.
    fn in_order_rec(&self, vec: &mut Vec<(K, V)>)
        ensures
            final(vec)@ == old(vec)@ + self.kv_seq(),
        decreases self,
    {
        match self {
            BST::Node { k, v, left, right, .. } => {
                left.in_order_rec(vec);
                vec.push((*k, *v));
                right.in_order_rec(vec);
                proof {
                    assert(vec@ =~= old(vec)@ + self.kv_seq());
                }
            },
            BST::NIL => {
                proof {
                    assert(vec@ =~= old(vec)@ + self.kv_seq());
                }
            },
        }
    }

    /// Recursive post-order visit.
    fn post_order_rec(&self, vec: &mut Vec<(K, V)>)
        ensures
            final(vec)@ == old(vec)@ + self.post_seq_of(),
        decreases self,
    {
        match self {
            BST::Node { k, v, left, right, .. } => {
                left.post_order_rec(vec);
                right.post_order_rec(vec);
                vec.push((*k, *v));
                proof {
                    assert(vec@ =~= old(vec)@ + self.post_seq_of());
                }
            },
            BST::NIL => {
                proof {
                    assert(vec@ =~= old(vec)@ + self.post_seq_of());
                }
            },
        }
    }

    /// Depth-limited visit: push the pairs exactly `level` edges down.
    fn level_order_rec(&self, vec: &mut Vec<(K, V)>, level: usize)
        ensures
            final(vec)@ == old(vec)@ + self.level_seq_of(level as int),
        decreases self,
    {
        match self {
            BST::Node { k, v, left, right, .. } => {
                if level == 0 {
                    vec.push((*k, *v));
                } else {
                    left.level_order_rec(vec, level - 1);
                    right.level_order_rec(vec, level - 1);
                    proof {
                        assert(vec@ =~= old(vec)@ + self.level_seq_of(level as int));
                    }
                }
            },
            BST::NIL => {
                proof {
                    assert(vec@ =~= old(vec)@ + self.level_seq_of(level as int));
                }
            },
        }
    }
}

/// The pre-order sequence visits each entry once.
proof fn lemma_pre_len<K: TreeKey + Copy, V: Copy>(t: BST<K, V>)
    ensures
        t.pre_seq_of().len() == t.kv_seq().len(),
    decreases t,
{
    match t {
        BST::Node { left, right, .. } => {
            lemma_pre_len(*left);
            lemma_pre_len(*right);
        },
        BST::NIL => {},
    }
}

/// The post-order sequence visits each entry once.
proof fn lemma_post_len<K: TreeKey + Copy, V: Copy>(t: BST<K, V>)
    ensures
        t.post_seq_of().len() == t.kv_seq().len(),
    decreases t,
{
    match t {
        BST::Node { left, right, .. } => {
            lemma_post_len(*left);
            lemma_post_len(*right);
        },
        BST::NIL => {},
    }
}

/// The empty marker contributes nothing at any level.
proof fn lemma_levels_nil<K: TreeKey + Copy, V: Copy>(n: int)
    ensures
        BST::<K, V>::NIL.levels_of(n) == Seq::<(K, V)>::empty(),
    decreases n,
{
    if n > 0 {
        lemma_levels_nil::<K, V>(n - 1);
        assert(BST::<K, V>::NIL.levels_of(n) =~= Seq::<(K, V)>::empty());
    }
}

/// Level concatenations of a populated node split into root plus children.
proof fn lemma_levels_node_len<K: TreeKey + Copy, V: Copy>(t: BST<K, V>, n: int)
    requires
        t matches BST::Node { .. },
        n >= 1,
    ensures
        (match t {
            BST::Node { left, right, .. } => t.levels_of(n).len() == 1 + left.levels_of(
                n - 1,
            ).len() + right.levels_of(n - 1).len(),
            BST::NIL => false,
        }),
    decreases n,
{
    match t {
        BST::Node { left, right, .. } => {
            if n == 1 {
                assert(t.levels_of(0) =~= Seq::<(K, V)>::empty());
            } else {
                lemma_levels_node_len(t, n - 1);
            }
        },
        BST::NIL => {},
    }
}

/// Enough levels cover the whole tree: each entry appears exactly once over
/// the first `n` levels when `n` reaches the number of levels.
proof fn lemma_levels_total<K: TreeKey + Copy, V: Copy>(t: BST<K, V>, n: int)
    requires
        n >= t.height_nat(),
    ensures
        t.levels_of(n).len() == t.kv_seq().len(),
    decreases t,
{
    match t {
        BST::Node { left, right, .. } => {
            lemma_levels_node_len(t, n);
            lemma_levels_total(*left, n - 1);
            lemma_levels_total(*right, n - 1);
        },
        BST::NIL => {
            lemma_levels_nil::<K, V>(n);
        },
    }
}

impl<K: TreeKey + Copy, V: Copy> TreeTraversal<K, V> for BST<K, V> {
    open spec fn pre_seq(&self) -> Seq<(K, V)> {
        self.pre_seq_of()
    }

    open spec fn post_seq(&self) -> Seq<(K, V)> {
        self.post_seq_of()
    }

    open spec fn level_seq(&self, level: int) -> Seq<(K, V)> {
        self.level_seq_of(level)
    }

    open spec fn levels_seq(&self, n: int) -> Seq<(K, V)> {
        self.levels_of(n)
    }

    open spec fn level_count(&self) -> int {
        self.height_nat() as int
    }

    fn pre_order(&self, vec: &mut Vec<(K, V)>) {
        self.pre_order_rec(vec);
    }

    fn in_order(&self, vec: &mut Vec<(K, V)>) {
        self.in_order_rec(vec);
    }

    fn post_order(&self, vec: &mut Vec<(K, V)>) {
        self.post_order_rec(vec);
    }

    fn level_order(&self, vec: &mut Vec<(K, V)>, level: usize) {
        self.level_order_rec(vec, level);
    }

    fn traverse(&self, order: &Traversals) -> (r: Vec<(K, V)>) {
        let mut vec: Vec<(K, V)> = Vec::with_capacity(self.size());
        match order {
            Traversals::PreOrder => {
                self.pre_order(&mut vec);
                proof {
                    lemma_pre_len(*self);
                    assert(vec@ =~= self.pre_seq_of());
                }
            },
            Traversals::InOrder => {
                self.in_order(&mut vec);
                proof {
                    assert(vec@ =~= self.kv_seq());
                }
            },
            Traversals::PostOrder => {
                self.post_order(&mut vec);
                proof {
                    lemma_post_len(*self);
                    assert(vec@ =~= self.post_seq_of());
                }
            },
            Traversals::LevelOrder => {
                let n = self.get_height();
                let mut level: usize = 0;
                proof {
                    assert(vec@ =~= self.levels_of(0));
                }
                while level < n
                    invariant
                        level <= n,
                        n as int == self.height_nat(),
                        vec@ == self.levels_of(level as int),
                    decreases n - level,
                {
                    self.level_order(&mut vec, level);
                    level += 1;
                    proof {
                        assert(vec@ =~= self.levels_of(level as int));
                    }
                }
                proof {
                    lemma_levels_total(*self, n as int);
                }
            },
        }
        vec
    }
}

impl<K: TreeKey, V> Default for BST<K, V> {
    /// An empty tree.
    fn default() -> (r: BST<K, V>)
        ensures
            r.inv(),
            r.kvs() == Seq::<(K, V)>::empty(),
    {
        SedgewickMap::new()
    }
}

} // verus!

