//! The left-leaning red-black tree: a binary search tree encoding a 2-3 tree
//! through colored links. A node's color bit means "the link from my parent
//! is red"; red links lean left, no node carries two red links, every
//! root-to-empty path passes the same number of black links, and the root's
//! incoming link is forced black after every insertion. Rotations and color
//! flips on the way back up the recursive insertion restore these invariants.

use vstd::prelude::*;

use crate::key::{KeyOrdering, TreeKey};
use crate::kv::{
    all_above, all_below, kv_insert, kv_sorted, lemma_above_not_contains, lemma_below_not_contains,
    lemma_kv_contains_concat, lemma_kv_get_concat, lemma_kv_insert_above, lemma_kv_insert_below,
    lemma_kv_insert_len, lemma_kv_insert_mid, lemma_kv_insert_prefix, lemma_kv_insert_suffix,
    lemma_sorted_concat,
};
use crate::{SedgewickMap, Traversals, TreeTraversal};

verus! {

/// A red-black tree node: a populated node owning its two subtrees and one
/// color bit, or the empty marker.
pub enum RedBlackTree<K, V> {
    Node {
        k: K,
        v: V,
        color: bool,
        size: usize,
        left: Box<RedBlackTree<K, V>>,
        right: Box<RedBlackTree<K, V>>,
    },
    NIL,
}

impl<K: TreeKey, V> RedBlackTree<K, V> {
    /// The in-order key-value sequence of the subtree.
    pub open spec fn kv_seq(self) -> Seq<(K, V)>
        decreases self,
    {
        match self {
            RedBlackTree::Node { k, v, left, right, .. } => left.kv_seq() + seq![(k, v)]
                + right.kv_seq(),
            RedBlackTree::NIL => Seq::empty(),
        }
    }

    /// The search-tree ordering: each node's key bounds its subtrees.
    pub open spec fn ordered(self) -> bool
        decreases self,
    {
        match self {
            RedBlackTree::Node { k, left, right, .. } => left.ordered() && right.ordered()
                && all_below(left.kv_seq(), k.ord()) && all_above(right.kv_seq(), k.ord()),
            RedBlackTree::NIL => true,
        }
    }

    /// Every cached size field counts the entries of its subtree.
    pub open spec fn size_ok(self) -> bool
        decreases self,
    {
        match self {
            RedBlackTree::Node { size, left, right, .. } => left.size_ok() && right.size_ok()
                && size as int == left.kv_seq().len() + right.kv_seq().len() + 1,
            RedBlackTree::NIL => true,
        }
    }

    /// The number of node levels: zero for the empty marker.
    pub open spec fn height_nat(self) -> nat
        decreases self,
    {
        match self {
            RedBlackTree::Node { left, right, .. } => 1 + if left.height_nat()
                >= right.height_nat() {
                left.height_nat()
            } else {
                right.height_nat()
            },
            RedBlackTree::NIL => 0,
        }
    }

    /// Is the link from this node's parent red?
    pub open spec fn red(self) -> bool {
        match self {
            RedBlackTree::Node { color, .. } => color,
            RedBlackTree::NIL => false,
        }
    }

    /// The left subtree; the empty marker for the empty marker.
    pub open spec fn sleft(self) -> Self {
        match self {
            RedBlackTree::Node { left, .. } => *left,
            RedBlackTree::NIL => RedBlackTree::NIL,
        }
    }

    /// The right subtree; the empty marker for the empty marker.
    pub open spec fn sright(self) -> Self {
        match self {
            RedBlackTree::Node { right, .. } => *right,
            RedBlackTree::NIL => RedBlackTree::NIL,
        }
    }

    /// A populated node?
    pub open spec fn is_node(self) -> bool {
        match self {
            RedBlackTree::Node { .. } => true,
            RedBlackTree::NIL => false,
        }
    }

    /// The number of black links on the leftmost root-to-empty path, counting
    /// this node's own incoming link.
    pub open spec fn pathc(self) -> nat
        decreases self,
    {
        match self {
            RedBlackTree::Node { color, left, .. } => (if color {
                0nat
            } else {
                1nat
            }) + left.pathc(),
            RedBlackTree::NIL => 0,
        }
    }

    /// Perfect black balance: below every node, both subtrees carry the same
    /// number of black links on every path to an empty marker.
    pub open spec fn balanced(self) -> bool
        decreases self,
    {
        match self {
            RedBlackTree::Node { left, right, .. } => left.balanced() && right.balanced()
                && left.pathc() == right.pathc(),
            RedBlackTree::NIL => true,
        }
    }

    /// The left-leaning shape: no red right link anywhere, and no red node
    /// with a red left child.
    pub open spec fn rb_ok(self) -> bool
        decreases self,
    {
        match self {
            RedBlackTree::Node { color, left, right, .. } => left.rb_ok() && right.rb_ok()
                && !right.red() && (color ==> !left.red()),
            RedBlackTree::NIL => true,
        }
    }

    /// The relaxed shape an insertion may hand back: both subtrees keep the
    /// full shape and the right link is black, but the node itself may be red
    /// with a red left child — a pending three-in-a-row for the caller to
    /// resolve.
    pub open spec fn almost_rb(self) -> bool
        decreases self,
    {
        match self {
            RedBlackTree::Node { left, right, .. } => left.rb_ok() && right.rb_ok()
                && !right.red(),
            RedBlackTree::NIL => true,
        }
    }

    /// No node has two red child links at once.
    pub open spec fn no_two_red(self) -> bool
        decreases self,
    {
        match self {
            RedBlackTree::Node { left, right, .. } => left.no_two_red() && right.no_two_red() && !(
            left.red() && right.red()),
            RedBlackTree::NIL => true,
        }
    }
}

/// A tree has no more levels than entries.
proof fn lemma_height_le_count<K: TreeKey, V>(t: RedBlackTree<K, V>)
    ensures
        t.height_nat() <= t.kv_seq().len(),
    decreases t,
{
    match t {
        RedBlackTree::Node { left, right, .. } => {
            lemma_height_le_count(*left);
            lemma_height_le_count(*right);
        },
        RedBlackTree::NIL => {},
    }
}

/// Ordering invariant: an ordered tree's in-order sequence lists its keys in
/// strictly increasing order.
pub proof fn lemma_in_order_sorted<K: TreeKey, V>(t: RedBlackTree<K, V>)
    requires
        t.ordered(),
    ensures
        kv_sorted(t.kv_seq()),
    decreases t,
{
    match t {
        RedBlackTree::Node { k, v, left, right, .. } => {
            lemma_in_order_sorted(*left);
            lemma_in_order_sorted(*right);
            lemma_sorted_concat(left.kv_seq(), (k, v), right.kv_seq());
        },
        RedBlackTree::NIL => {},
    }
}

/// The full left-leaning shape rules out two red children anywhere.
proof fn lemma_rb_ok_no_two_red<K: TreeKey, V>(t: RedBlackTree<K, V>)
    requires
        t.rb_ok(),
    ensures
        t.no_two_red(),
    decreases t,
{
    match t {
        RedBlackTree::Node { left, right, .. } => {
            lemma_rb_ok_no_two_red(*left);
            lemma_rb_ok_no_two_red(*right);
        },
        RedBlackTree::NIL => {},
    }
}

/// The shape predicates of a populated node, unfolded over its accessors.
proof fn lemma_node_facts<K: TreeKey, V>(x: RedBlackTree<K, V>)
    requires
        x.is_node(),
    ensures
        x.rb_ok() == (x.sleft().rb_ok() && x.sright().rb_ok() && !x.sright().red() && (x.red()
            ==> !x.sleft().red())),
        x.almost_rb() == (x.sleft().rb_ok() && x.sright().rb_ok() && !x.sright().red()),
        x.balanced() == (x.sleft().balanced() && x.sright().balanced() && x.sleft().pathc()
            == x.sright().pathc()),
        x.pathc() == (if x.red() {
            0nat
        } else {
            1nat
        }) + x.sleft().pathc(),
{
}


impl<K: TreeKey, V> RedBlackTree<K, V> {
    /// The cached entry count of the subtree.
    fn node_size(&self) -> (r: usize)
        requires
            self.size_ok(),
        ensures
            r as int == self.kv_seq().len(),
    {
        match self {
            RedBlackTree::Node { size, .. } => *size,
            RedBlackTree::NIL => 0,
        }
    }
}

impl<K: TreeKey, V> RedBlackTree<K, V> {
    /// Is this node's incoming link red?
    fn is_red(&self) -> (r: bool)
        ensures
            r == self.red(),
    {
        match self {
            RedBlackTree::Node { color, .. } => *color,
            _ => false,
        }
    }

    /// Is the left child's incoming link red?
    fn is_left_red(&self) -> (r: bool)
        ensures
            r == self.sleft().red(),
    {
        match self {
            RedBlackTree::Node { left, .. } => left.is_red(),
            _ => false,
        }
    }

    /// Is the right child's incoming link red?
    fn is_right_red(&self) -> (r: bool)
        ensures
            r == self.sright().red(),
    {
        match self {
            RedBlackTree::Node { right, .. } => right.is_red(),
            _ => false,
        }
    }

    /// Force the color of the root link.
    fn set_color(&mut self, c: bool)
        ensures
            final(self).is_node() == old(self).is_node(),
            final(self).kv_seq() == old(self).kv_seq(),
            final(self).red() == (old(self).is_node() && c),
            final(self).sleft() == old(self).sleft(),
            final(self).sright() == old(self).sright(),
            old(self).ordered() ==> final(self).ordered(),
            old(self).size_ok() ==> final(self).size_ok(),
            old(self).balanced() ==> final(self).balanced(),
            old(self).rb_ok() && !c ==> final(self).rb_ok(),
    {
        let mut t = RedBlackTree::NIL;
        core::mem::swap(&mut t, self);
        *self = match t {
            RedBlackTree::Node { k, v, color: _, size, left, right } => RedBlackTree::Node {
                k,
                v,
                color: c,
                size,
                left,
                right,
            },
            RedBlackTree::NIL => RedBlackTree::NIL,
        };
    }

    /// Promote a red right child: it becomes the subtree root with the old
    /// root, turned red, as its left child. This keeps the pairs, the order
    /// and the black balance, and removes the right-leaning red link.
    fn rotate_left(self) -> (r: Self)
        requires
            self.is_node(),
            self.sright().is_node(),
            self.sright().red(),
            self.ordered(),
            self.size_ok(),
            self.balanced(),
            self.kv_seq().len() <= usize::MAX,
        ensures
            r.kv_seq() == self.kv_seq(),
            r.ordered(),
            r.size_ok(),
            r.balanced(),
            r.pathc() == self.pathc(),
            r.is_node(),
            r.red() == self.red(),
            r.sleft().is_node(),
            r.sleft().red(),
            r.sleft().sleft() == self.sleft(),
            r.sleft().sright() == self.sright().sleft(),
            r.sright() == self.sright().sright(),
    {
        match self {
            RedBlackTree::Node { k, v, color, size, left, right } => {
                match *right {
                    RedBlackTree::Node { k: xk, v: xv, color: _, size: _, left: xl, right: xr } => {
                        let ghost lk = left.kv_seq();
                        let ghost xlk = xl.kv_seq();
                        let ghost xrk = xr.kv_seq();
                        let ghost rk_all = self.sright().kv_seq();
                        proof {
                            assert(self.sright().ordered());
                            assert(self.sright().size_ok());
                            assert(all_above(xrk, xk.ord()));
                            assert(rk_all == xlk + seq![(xk, xv)] + xrk);
                            assert(self.kv_seq() == lk + seq![(k, v)] + rk_all);
                            assert(all_above(rk_all, k.ord()));
                            assert forall|i: int| 0 <= i < xlk.len() implies #[trigger] xlk[i].0.ord()
                                > k.ord() by {
                                assert(xlk[i] == rk_all[i]);
                                assert(rk_all[i].0.ord() > k.ord());
                            }
                            assert(rk_all[xlk.len() as int] == (xk, xv));
                            assert(rk_all[xlk.len() as int].0.ord() > k.ord());
                            assert(xk.ord() > k.ord());
                        }
                        let isz = left.node_size() + xl.node_size() + 1;
                        let inner = RedBlackTree::Node {
                            k,
                            v,
                            color: true,
                            size: isz,
                            left,
                            right: xl,
                        };
                        let r = RedBlackTree::Node {
                            k: xk,
                            v: xv,
                            color,
                            size,
                            left: Box::new(inner),
                            right: xr,
                        };
                        proof {
                            assert(inner.kv_seq() == lk + seq![(k, v)] + xlk);
                            assert(r.kv_seq() == inner.kv_seq() + seq![(xk, xv)] + xrk);
                            assert(r.kv_seq() =~= self.kv_seq());
                            assert forall|i: int| 0 <= i < inner.kv_seq().len() implies #[trigger] inner.kv_seq()[i].0.ord() < xk.ord() by {
                                if i < lk.len() {
                                    assert(inner.kv_seq()[i] == lk[i]);
                                    assert(lk[i].0.ord() < k.ord());
                                } else if i == lk.len() {
                                    assert(inner.kv_seq()[i] == (k, v));
                                } else {
                                    assert(inner.kv_seq()[i] == xlk[i - lk.len() - 1]);
                                }
                            }
                            assert(inner.ordered());
                            assert(r.ordered());
                            assert(inner.size_ok());
                            assert(r.size_ok()) by {
                                assert(self.kv_seq().len() == lk.len() + 1 + rk_all.len());
                            }
                            assert(self.sright().balanced() && self.sright().pathc() == xl.pathc());
                            assert(inner.balanced());
                            assert(inner.pathc() == left.pathc());
                            assert(r.balanced());
                            assert(r.pathc() == self.pathc());
                        }
                        r
                    },
                    RedBlackTree::NIL => {
                        proof {
                            assert(false);
                        }
                        vstd::pervasive::unreached()
                    },
                }
            },
            RedBlackTree::NIL => {
                proof {
                    assert(false);
                }
                vstd::pervasive::unreached()
            },
        }
    }

    /// Promote a red left child: it becomes the subtree root with the old
    /// root, turned red, as its right child. This keeps the pairs, the order
    /// and the black balance.
    fn rotate_right(self) -> (r: Self)
        requires
            self.is_node(),
            self.sleft().is_node(),
            self.sleft().red(),
            self.ordered(),
            self.size_ok(),
            self.balanced(),
            self.kv_seq().len() <= usize::MAX,
        ensures
            r.kv_seq() == self.kv_seq(),
            r.ordered(),
            r.size_ok(),
            r.balanced(),
            r.pathc() == self.pathc(),
            r.is_node(),
            r.red() == self.red(),
            r.sright().is_node(),
            r.sright().red(),
            r.sright().sleft() == self.sleft().sright(),
            r.sright().sright() == self.sright(),
            r.sleft() == self.sleft().sleft(),
    {
        match self {
            RedBlackTree::Node { k, v, color, size, left, right } => {
                match *left {
                    RedBlackTree::Node { k: xk, v: xv, color: _, size: _, left: xl, right: xr } => {
                        let ghost xlk = xl.kv_seq();
                        let ghost xrk = xr.kv_seq();
                        let ghost rk = right.kv_seq();
                        let ghost lk_all = self.sleft().kv_seq();
                        proof {
                            assert(self.sleft().ordered());
                            assert(self.sleft().size_ok());
                            assert(all_below(xlk, xk.ord()));
                            assert(lk_all == xlk + seq![(xk, xv)] + xrk);
                            assert(self.kv_seq() == lk_all + seq![(k, v)] + rk);
                            assert(all_below(lk_all, k.ord()));
                            assert forall|i: int| 0 <= i < xrk.len() implies #[trigger] xrk[i].0.ord()
                                < k.ord() by {
                                assert(xrk[i] == lk_all[xlk.len() + 1 + i]);
                                assert(lk_all[xlk.len() + 1 + i].0.ord() < k.ord());
                            }
                            assert(lk_all[xlk.len() as int] == (xk, xv));
                            assert(lk_all[xlk.len() as int].0.ord() < k.ord());
                            assert(xk.ord() < k.ord());
                        }
                        let isz = xr.node_size() + right.node_size() + 1;
                        let inner = RedBlackTree::Node {
                            k,
                            v,
                            color: true,
                            size: isz,
                            left: xr,
                            right,
                        };
                        let r = RedBlackTree::Node {
                            k: xk,
                            v: xv,
                            color,
                            size,
                            left: xl,
                            right: Box::new(inner),
                        };
                        proof {
                            assert(inner.kv_seq() == xrk + seq![(k, v)] + rk);
                            assert(r.kv_seq() == xlk + seq![(xk, xv)] + inner.kv_seq());
                            assert(r.kv_seq() =~= self.kv_seq());
                            assert forall|i: int| 0 <= i < inner.kv_seq().len() implies #[trigger] inner.kv_seq()[i].0.ord() > xk.ord() by {
                                if i < xrk.len() {
                                    assert(inner.kv_seq()[i] == xrk[i]);
                                } else if i == xrk.len() {
                                    assert(inner.kv_seq()[i] == (k, v));
                                } else {
                                    assert(inner.kv_seq()[i] == rk[i - xrk.len() - 1]);
                                    assert(rk[i - xrk.len() - 1].0.ord() > k.ord());
                                }
                            }
                            assert(inner.ordered());
                            assert(r.ordered());
                            assert(inner.size_ok());
                            assert(r.size_ok()) by {
                                assert(self.kv_seq().len() == lk_all.len() + 1 + rk.len());
                            }
                            assert(self.sleft().balanced() && self.sleft().pathc() == xl.pathc());
                            assert(xl.pathc() == xr.pathc());
                            assert(inner.balanced());
                            assert(inner.pathc() == xr.pathc());
                            assert(r.balanced());
                            assert(r.pathc() == self.pathc());
                        }
                        r
                    },
                    RedBlackTree::NIL => {
                        proof {
                            assert(false);
                        }
                        vstd::pervasive::unreached()
                    },
                }
            },
            RedBlackTree::NIL => {
                proof {
                    assert(false);
                }
                vstd::pervasive::unreached()
            },
        }
    }

    /// Split a temporary 4-node: recolor a black node red and both its red
    /// children black, pushing the redness one level up while keeping the
    /// black balance on every path.
    fn flip_colors(self) -> (r: Self)
        requires
            self.is_node(),
            !self.red(),
            self.sleft().is_node(),
            self.sleft().red(),
            self.sright().is_node(),
            self.sright().red(),
            self.ordered(),
            self.size_ok(),
            self.balanced(),
        ensures
            r.kv_seq() == self.kv_seq(),
            r.ordered(),
            r.size_ok(),
            r.balanced(),
            r.pathc() == self.pathc(),
            r.is_node(),
            r.red(),
            r.sleft().is_node(),
            !r.sleft().red(),
            r.sright().is_node(),
            !r.sright().red(),
            r.sleft().sleft() == self.sleft().sleft(),
            r.sleft().sright() == self.sleft().sright(),
            r.sright().sleft() == self.sright().sleft(),
            r.sright().sright() == self.sright().sright(),
            self.sleft().rb_ok() && self.sright().rb_ok() ==> r.rb_ok(),
    {
        match self {
            RedBlackTree::Node { k, v, color: _, size, left, right } => {
                let l2 = match *left {
                    RedBlackTree::Node { k, v, color: _, size, left, right } => RedBlackTree::Node {
                        k,
                        v,
                        color: false,
                        size,
                        left,
                        right,
                    },
                    RedBlackTree::NIL => {
                        proof {
                            assert(false);
                        }
                        vstd::pervasive::unreached()
                    },
                };
                let r2 = match *right {
                    RedBlackTree::Node { k, v, color: _, size, left, right } => RedBlackTree::Node {
                        k,
                        v,
                        color: false,
                        size,
                        left,
                        right,
                    },
                    RedBlackTree::NIL => {
                        proof {
                            assert(false);
                        }
                        vstd::pervasive::unreached()
                    },
                };
                let r = RedBlackTree::Node {
                    k,
                    v,
                    color: true,
                    size,
                    left: Box::new(l2),
                    right: Box::new(r2),
                };
                proof {
                    assert(l2.kv_seq() == self.sleft().kv_seq());
                    assert(r2.kv_seq() == self.sright().kv_seq());
                    assert(r.kv_seq() == self.kv_seq());
                    assert(l2.ordered() == self.sleft().ordered());
                    assert(r2.ordered() == self.sright().ordered());
                    assert(r.ordered());
                    assert(l2.size_ok() == self.sleft().size_ok());
                    assert(r2.size_ok() == self.sright().size_ok());
                    assert(l2.balanced() == self.sleft().balanced());
                    assert(r2.balanced() == self.sright().balanced());
                    assert(l2.pathc() == 1 + self.sleft().sleft().pathc());
                    assert(self.sleft().pathc() == self.sleft().sleft().pathc());
                    assert(r2.pathc() == 1 + self.sright().sleft().pathc());
                    assert(self.sright().pathc() == self.sright().sleft().pathc());
                    assert(r.pathc() == l2.pathc());
                    assert(self.pathc() == 1 + self.sleft().pathc());
                    if self.sleft().rb_ok() && self.sright().rb_ok() {
                        assert(l2.rb_ok());
                        assert(r2.rb_ok());
                    }
                }
                r
            },
            RedBlackTree::NIL => {
                proof {
                    assert(false);
                }
                vstd::pervasive::unreached()
            },
        }
    }
}

impl<K: TreeKey, V> RedBlackTree<K, V> {
    /// Recursive insertion: descend by comparison, place a fresh red leaf at
    /// an empty slot, and on the way back up apply, in this order, a left
    /// rotation against a right-leaning red link, a right rotation against
    /// two red left links in a row, and a color flip against two red
    /// children. The result keeps the pairs sorted and the black balance; at
    /// worst its root is red with a red left child, which the caller — or the
    /// final blackening of the root — resolves.
    fn insert_node(self, key: K, value: V) -> (r: Self)
        requires
            self.ordered(),
            self.size_ok(),
            self.rb_ok(),
            self.balanced(),
            self.kv_seq().len() < usize::MAX,
        ensures
            r.ordered(),
            r.size_ok(),
            r.kv_seq() == kv_insert(self.kv_seq(), key, value),
            r.balanced(),
            r.pathc() == self.pathc(),
            r.almost_rb(),
            !self.red() ==> r.rb_ok(),
            r.is_node(),
        decreases self,
    {
        match self {
            RedBlackTree::NIL => {
                proof {
                    assert(kv_insert(Seq::<(K, V)>::empty(), key, value) =~= Seq::empty() + seq![
                        (key, value),
                    ] + Seq::empty());
                }
                RedBlackTree::Node {
                    k: key,
                    v: value,
                    color: true,
                    size: 1,
                    left: Box::new(RedBlackTree::NIL),
                    right: Box::new(RedBlackTree::NIL),
                }
            },
            RedBlackTree::Node { k, v, color, size, left, right } => {
                let ghost lk = left.kv_seq();
                let ghost rk = right.kv_seq();
                match key.key_cmp(&k) {
                    KeyOrdering::Equal => {
                        proof {
                            lemma_kv_insert_mid(lk, (k, v), rk, key, value);
                        }
                        RedBlackTree::Node { k, v, color, size, left, right }
                    },
                    KeyOrdering::Less => {
                        proof {
                            lemma_in_order_sorted(*left);
                            lemma_kv_insert_prefix(lk, (k, v), rk, key, value);
                            lemma_kv_insert_below(lk, key, value, k.ord());
                            lemma_kv_insert_len(lk, key, value);
                        }
                        let ghost oldleft = *left;
                        let nl = (*left).insert_node(key, value);
                        let sz1 = 1 + nl.node_size() + right.node_size();
                        let h1 = RedBlackTree::Node {
                            k,
                            v,
                            color,
                            size: sz1,
                            left: Box::new(nl),
                            right,
                        };
                        proof {
                            assert(h1.kv_seq() == nl.kv_seq() + seq![(k, v)] + rk);
                            assert(h1.kv_seq() == kv_insert(self.kv_seq(), key, value));
                            assert(h1.ordered());
                            assert(h1.size_ok());
                            assert(h1.balanced());
                            assert(h1.pathc() == self.pathc());
                            assert(!h1.sright().red());
                        }
                        let go_right_rotate = h1.is_left_red() && (match &h1 {
                            RedBlackTree::Node { left: l2, .. } => l2.is_left_red(),
                            _ => false,
                        });
                        proof {
                            if go_right_rotate {
                                // two red left links in a row only arise under
                                // a black node: a red node's left child was
                                // black before the insertion
                                assert(oldleft.red());
                                assert(!self.red());
                            }
                        }
                        let h3 = if go_right_rotate {
                            Self::rotate_right(h1)
                        } else {
                            h1
                        };
                        let do_flip = h3.is_left_red() && h3.is_right_red();
                        proof {
                            if do_flip {
                                assert(go_right_rotate);
                                assert(!h3.red());
                            }
                        }
                        let h4 = if do_flip {
                            Self::flip_colors(h3)
                        } else {
                            h3
                        };
                        proof {
                            if go_right_rotate {
                                assert(do_flip);
                                assert(h3.sleft() == nl.sleft());
                                assert(h3.sright().sleft() == nl.sright());
                                assert(h3.sright().sright() == self.sright());
                                lemma_node_facts(h3.sright());
                                assert(h3.sright().rb_ok());
                                assert(h4.rb_ok());
                                lemma_node_facts(h4);
                            } else {
                                assert(h4 == h1);
                                assert(nl.rb_ok());
                                lemma_node_facts(h1);
                                assert(h1.almost_rb());
                                if !self.red() {
                                    assert(h1.rb_ok());
                                }
                            }
                        }
                        h4
                    },
                    KeyOrdering::Greater => {
                        proof {
                            lemma_in_order_sorted(*right);
                            assert forall|i: int| 0 <= i < lk.len() implies #[trigger] lk[i].0.ord()
                                < key.ord() by {
                                assert(lk[i].0.ord() < k.ord());
                            }
                            lemma_kv_insert_suffix(lk, (k, v), rk, key, value);
                            lemma_kv_insert_above(rk, key, value, k.ord());
                            lemma_kv_insert_len(rk, key, value);
                        }
                        let ghost oldleft = *left;
                        let nr = (*right).insert_node(key, value);
                        proof {
                            assert(nr.rb_ok());
                        }
                        let sz1 = 1 + left.node_size() + nr.node_size();
                        let h1 = RedBlackTree::Node {
                            k,
                            v,
                            color,
                            size: sz1,
                            left,
                            right: Box::new(nr),
                        };
                        proof {
                            assert(h1.kv_seq() == lk + seq![(k, v)] + nr.kv_seq());
                            assert(h1.kv_seq() == kv_insert(self.kv_seq(), key, value));
                            assert(h1.ordered());
                            assert(h1.size_ok());
                            assert(h1.balanced());
                            assert(h1.pathc() == self.pathc());
                        }
                        let rotate = h1.is_right_red() && !h1.is_left_red();
                        let h2 = if rotate {
                            Self::rotate_left(h1)
                        } else {
                            h1
                        };
                        let go_right_rotate = h2.is_left_red() && (match &h2 {
                            RedBlackTree::Node { left: l2, .. } => l2.is_left_red(),
                            _ => false,
                        });
                        proof {
                            if rotate {
                                assert(h2.sleft().sleft() == oldleft);
                                assert(!oldleft.red());
                                assert(!go_right_rotate);
                            } else {
                                if go_right_rotate {
                                    assert(oldleft.red());
                                    assert(oldleft.sleft().red());
                                    lemma_node_facts(oldleft);
                                    assert(false);
                                }
                            }
                        }
                        let h3 = if go_right_rotate {
                            Self::rotate_right(h2)
                        } else {
                            h2
                        };
                        let do_flip = h3.is_left_red() && h3.is_right_red();
                        proof {
                            if do_flip {
                                assert(!rotate);
                                assert(oldleft.red());
                                assert(!self.red());
                                assert(h3 == h1);
                            }
                        }
                        let h4 = if do_flip {
                            Self::flip_colors(h3)
                        } else {
                            h3
                        };
                        proof {
                            if do_flip {
                                assert(h3.sleft() == oldleft);
                                assert(h3.sright() == nr);
                                assert(h4.rb_ok());
                                lemma_node_facts(h4);
                            } else if rotate {
                                assert(h4 == h2);
                                lemma_node_facts(h2);
                                lemma_node_facts(h2.sleft());
                                assert(h2.sleft().sright() == nr.sleft());
                                assert(nr.red());
                                assert(!nr.sleft().red());
                                assert(h2.sleft().rb_ok());
                                assert(h2.sright() == nr.sright());
                                assert(h2.almost_rb());
                                if !self.red() {
                                    assert(!h2.red());
                                    assert(h2.rb_ok());
                                }
                            } else {
                                assert(h4 == h1);
                                assert(!nr.red());
                                lemma_node_facts(h1);
                                assert(h1.rb_ok());
                            }
                        }
                        h4
                    },
                }
            },
        }
    }
}

impl<K: TreeKey, V> RedBlackTree<K, V> {
    /// Recursive lookup by key comparison; color plays no part in reading.
    fn get_node<'a>(&'a self, key: &K) -> (r: Option<&'a V>)
        requires
            self.ordered(),
        ensures
            (match r {
                Some(v) => crate::kv::kv_get(self.kv_seq(), key.ord()) == Some(*v),
                None => crate::kv::kv_get(self.kv_seq(), key.ord()) is None,
            }),
        decreases self,
    {
        match self {
            RedBlackTree::Node { k, v, left, right, .. } => {
                proof {
                    lemma_kv_get_concat(left.kv_seq() + seq![(*k, *v)], right.kv_seq(), key.ord());
                    lemma_kv_get_concat(left.kv_seq(), seq![(*k, *v)], key.ord());
                    lemma_kv_contains_concat(left.kv_seq(), seq![(*k, *v)], key.ord());
                    assert(self.kv_seq() =~= (left.kv_seq() + seq![(*k, *v)]) + right.kv_seq());
                    assert(seq![(*k, *v)].drop_first() =~= Seq::<(K, V)>::empty());
                    assert(!crate::kv::kv_contains(Seq::<(K, V)>::empty(), key.ord()));
                    assert(seq![(*k, *v)][0].0 == *k);
                }
                match key.key_cmp(k) {
                    KeyOrdering::Less => {
                        proof {
                            assert(!crate::kv::kv_contains(seq![(*k, *v)], key.ord()));
                            lemma_above_not_contains(right.kv_seq(), k.ord(), key.ord());
                            crate::kv::lemma_kv_get_is_some(left.kv_seq(), key.ord());
                            crate::kv::lemma_kv_get_is_some(right.kv_seq(), key.ord());
                        }
                        left.get_node(key)
                    },
                    KeyOrdering::Greater => {
                        proof {
                            assert(!crate::kv::kv_contains(seq![(*k, *v)], key.ord()));
                            lemma_below_not_contains(left.kv_seq(), k.ord(), key.ord());
                        }
                        right.get_node(key)
                    },
                    KeyOrdering::Equal => {
                        proof {
                            lemma_below_not_contains(left.kv_seq(), k.ord(), key.ord());
                            assert(crate::kv::kv_get(seq![(*k, *v)], key.ord()) == Some(*v));
                        }
                        Some(v)
                    },
                }
            },
            RedBlackTree::NIL => None,
        }
    }

    /// Leftmost key of the subtree, `None` for the empty marker.
    fn min_opt(&self) -> (r: Option<&K>)
        ensures
            (match r {
                Some(k) => self.kv_seq().len() > 0 && *k == self.kv_seq()[0].0,
                None => self.kv_seq().len() == 0,
            }),
        decreases self,
    {
        match self {
            RedBlackTree::Node { k, v, left, right, .. } => {
                let m = left.min_opt();
                match m {
                    Some(l) => {
                        proof {
                            assert(self.kv_seq()[0] == left.kv_seq()[0]);
                        }
                        Some(l)
                    },
                    None => {
                        proof {
                            assert(self.kv_seq()[0] == (*k, *v));
                        }
                        Some(k)
                    },
                }
            },
            RedBlackTree::NIL => None,
        }
    }

    /// Rightmost key of the subtree, `None` for the empty marker.
    fn max_opt(&self) -> (r: Option<&K>)
        ensures
            (match r {
                Some(k) => self.kv_seq().len() > 0 && *k == self.kv_seq().last().0,
                None => self.kv_seq().len() == 0,
            }),
        decreases self,
    {
        match self {
            RedBlackTree::Node { k, v, right, .. } => {
                let m = right.max_opt();
                match m {
                    Some(l) => {
                        proof {
                            assert(self.kv_seq().last() == right.kv_seq().last());
                        }
                        Some(l)
                    },
                    None => {
                        proof {
                            assert(self.kv_seq().last() == (*k, *v));
                        }
                        Some(k)
                    },
                }
            },
            RedBlackTree::NIL => None,
        }
    }

    /// The number of node levels, measured by a depth-first walk.
    fn get_height(&self) -> (r: usize)
        requires
            self.size_ok(),
        ensures
            r as int == self.height_nat(),
        decreases self,
    {
        proof {
            lemma_height_le_count(*self);
        }
        match self {
            RedBlackTree::Node { left, right, .. } => {
                let lh = left.get_height();
                let rh = right.get_height();
                if lh >= rh {
                    1 + lh
                } else {
                    1 + rh
                }
            },
            RedBlackTree::NIL => 0,
        }
    }

    /// The value stored under `key`; the caller must know the key is present.
    pub fn index(&self, key: &K) -> (r: &V)
        requires
            self.ordered(),
            crate::kv::kv_contains(self.kv_seq(), key.ord()),
        ensures
            crate::kv::kv_get(self.kv_seq(), key.ord()) == Some(*r),
    {
        proof {
            crate::kv::lemma_kv_get_is_some(self.kv_seq(), key.ord());
        }
        match self.get_node(key) {
            Some(v) => v,
            None => vstd::pervasive::unreached(),
        }
    }
}

impl<K: TreeKey, V> SedgewickMap<K, V> for RedBlackTree<K, V> {
    open spec fn inv(&self) -> bool {
        self.ordered() && self.size_ok() && self.rb_ok() && self.balanced() && !self.red()
    }

    open spec fn size_inv(&self) -> bool {
        self.size_ok()
    }

    open spec fn kvs(&self) -> Seq<(K, V)> {
        self.kv_seq()
    }

    open spec fn height_opt(&self) -> Option<int> {
        match *self {
            RedBlackTree::NIL => None,
            _ => Some(self.height_nat() - 1),
        }
    }

    proof fn lemma_inv_size_inv(&self) {
    }

    fn new() -> (r: Self) {
        RedBlackTree::NIL
    }

    fn size(&self) -> (r: usize) {
        match self {
            RedBlackTree::Node { size, .. } => *size,
            _ => 0,
        }
    }

    fn get<'a>(&'a self, key: &K) -> (r: Option<&'a V>) {
        self.get_node(key)
    }

    fn put(&mut self, key: K, value: V) {
        let mut t = RedBlackTree::NIL;
        core::mem::swap(&mut t, self);
        let mut r = t.insert_node(key, value);
        // the root has no parent: its incoming link is always black
        r.set_color(false);
        *self = r;
    }

    fn height(&self) -> (r: Option<usize>) {
        let h = self.get_height();
        if h > 0 {
            Some(h - 1)
        } else {
            None
        }
    }

    fn is_empty(&self) -> (r: bool) {
        match self {
            RedBlackTree::Node { .. } => false,
            _ => true,
        }
    }

    fn min(&self) -> (r: Option<&K>) {
        self.min_opt()
    }

    fn max(&self) -> (r: Option<&K>) {
        self.max_opt()
    }
}

impl<K: TreeKey + Copy, V: Copy> RedBlackTree<K, V> {
    /// The pre-order sequence of the subtree.
    pub open spec fn pre_seq_of(self) -> Seq<(K, V)>
        decreases self,
    {
        match self {
            RedBlackTree::Node { k, v, left, right, .. } => seq![(k, v)] + left.pre_seq_of()
                + right.pre_seq_of(),
            RedBlackTree::NIL => Seq::empty(),
        }
    }

    /// The post-order sequence of the subtree.
    pub open spec fn post_seq_of(self) -> Seq<(K, V)>
        decreases self,
    {
        match self {
            RedBlackTree::Node { k, v, left, right, .. } => left.post_seq_of() + right.post_seq_of()
                + seq![(k, v)],
            RedBlackTree::NIL => Seq::empty(),
        }
    }

    /// The pairs exactly `level` edges below this subtree's root.
    pub open spec fn level_seq_of(self, level: int) -> Seq<(K, V)>
        decreases self,
    {
        match self {
            RedBlackTree::Node { k, v, left, right, .. } => if level == 0 {
                seq![(k, v)]
            } else {
                left.level_seq_of(level - 1) + right.level_seq_of(level - 1)
            },
            RedBlackTree::NIL => Seq::empty(),
        }
    }

    /// The first `n` levels, concatenated top to bottom.
    pub open spec fn levels_of(self, n: int) -> Seq<(K, V)>
        decreases n,
    {
        if n <= 0 {
            Seq::empty()
        } else {
            self.levels_of(n - 1) + self.level_seq_of(n - 1)
        }
    }

    /// Recursive pre-order visit.
    fn pre_order_rec(&self, vec: &mut Vec<(K, V)>)
        ensures
            final(vec)@ == old(vec)@ + self.pre_seq_of(),
        decreases self,
    {
        match self {
            RedBlackTree::Node { k, v, left, right, .. } => {
                vec.push((*k, *v));
                left.pre_order_rec(vec);
                right.pre_order_rec(vec);
                proof {
                    assert(vec@ =~= old(vec)@ + self.pre_seq_of());
                }
            },
            RedBlackTree::NIL => {
                proof {
                    assert(vec@ =~= old(vec)@ + self.pre_seq_of());
                }
            },
        }
    }

    /// Recursive in-order visit.
    fn in_order_rec(&self, vec: &mut Vec<(K, V)>)
        ensures
            final(vec)@ == old(vec)@ + self.kv_seq(),
        decreases self,
    {
        match self {
            RedBlackTree::Node { k, v, left, right, .. } => {
                left.in_order_rec(vec);
                vec.push((*k, *v));
                right.in_order_rec(vec);
                proof {
                    assert(vec@ =~= old(vec)@ + self.kv_seq());
                }
            },
            RedBlackTree::NIL => {
                proof {
                    assert(vec@ =~= old(vec)@ + self.kv_seq());
                }
            },
        }
    }

    /// Recursive post-order visit.
    fn post_order_rec(&self, vec: &mut Vec<(K, V)>)
        ensures
            final(vec)@ == old(vec)@ + self.post_seq_of(),
        decreases self,
    {
        match self {
            RedBlackTree::Node { k, v, left, right, .. } => {
                left.post_order_rec(vec);
                right.post_order_rec(vec);
                vec.push((*k, *v));
                proof {
                    assert(vec@ =~= old(vec)@ + self.post_seq_of());
                }
            },
            RedBlackTree::NIL => {
                proof {
                    assert(vec@ =~= old(vec)@ + self.post_seq_of());
                }
            },
        }
    }

    /// Depth-limited visit: push the pairs exactly `level` edges down.
    fn level_order_rec(&self, vec: &mut Vec<(K, V)>, level: usize)
        ensures
            final(vec)@ == old(vec)@ + self.level_seq_of(level as int),
        decreases self,
    {
        match self {
            RedBlackTree::Node { k, v, left, right, .. } => {
                if level == 0 {
                    vec.push((*k, *v));
                } else {
                    left.level_order_rec(vec, level - 1);
                    right.level_order_rec(vec, level - 1);
                    proof {
                        assert(vec@ =~= old(vec)@ + self.level_seq_of(level as int));
                    }
                }
            },
            RedBlackTree::NIL => {
                proof {
                    assert(vec@ =~= old(vec)@ + self.level_seq_of(level as int));
                }
            },
        }
    }
}

/// The pre-order sequence visits each entry once.
proof fn lemma_pre_len<K: TreeKey + Copy, V: Copy>(t: RedBlackTree<K, V>)
    ensures
        t.pre_seq_of().len() == t.kv_seq().len(),
    decreases t,
{
    match t {
        RedBlackTree::Node { left, right, .. } => {
            lemma_pre_len(*left);
            lemma_pre_len(*right);
        },
        RedBlackTree::NIL => {},
    }
}

/// The post-order sequence visits each entry once.
proof fn lemma_post_len<K: TreeKey + Copy, V: Copy>(t: RedBlackTree<K, V>)
    ensures
        t.post_seq_of().len() == t.kv_seq().len(),
    decreases t,
{
    match t {
        RedBlackTree::Node { left, right, .. } => {
            lemma_post_len(*left);
            lemma_post_len(*right);
        },
        RedBlackTree::NIL => {},
    }
}

/// The empty marker contributes nothing at any level.
proof fn lemma_levels_nil<K: TreeKey + Copy, V: Copy>(n: int)
    ensures
        RedBlackTree::<K, V>::NIL.levels_of(n) == Seq::<(K, V)>::empty(),
    decreases n,
{
    if n > 0 {
        lemma_levels_nil::<K, V>(n - 1);
        assert(RedBlackTree::<K, V>::NIL.levels_of(n) =~= Seq::<(K, V)>::empty());
    }
}

/// Level concatenations of a populated node split into root plus children.
proof fn lemma_levels_node_len<K: TreeKey + Copy, V: Copy>(t: RedBlackTree<K, V>, n: int)
    requires
        t matches RedBlackTree::Node { .. },
        n >= 1,
    ensures
        (match t {
            RedBlackTree::Node { left, right, .. } => t.levels_of(n).len() == 1 + left.levels_of(
                n - 1,
            ).len() + right.levels_of(n - 1).len(),
            RedBlackTree::NIL => false,
        }),
    decreases n,
{
    match t {
        RedBlackTree::Node { left, right, .. } => {
            if n == 1 {
                assert(t.levels_of(0) =~= Seq::<(K, V)>::empty());
            } else {
                lemma_levels_node_len(t, n - 1);
            }
        },
        RedBlackTree::NIL => {},
    }
}

/// Enough levels cover the whole tree: each entry appears exactly once over
/// the first `n` levels when `n` reaches the number of levels.
proof fn lemma_levels_total<K: TreeKey + Copy, V: Copy>(t: RedBlackTree<K, V>, n: int)
    requires
        n >= t.height_nat(),
    ensures
        t.levels_of(n).len() == t.kv_seq().len(),
    decreases t,
{
    match t {
        RedBlackTree::Node { left, right, .. } => {
            lemma_levels_node_len(t, n);
            lemma_levels_total(*left, n - 1);
            lemma_levels_total(*right, n - 1);
        },
        RedBlackTree::NIL => {
            lemma_levels_nil::<K, V>(n);
        },
    }
}

impl<K: TreeKey + Copy, V: Copy> TreeTraversal<K, V> for RedBlackTree<K, V> {
    open spec fn pre_seq(&self) -> Seq<(K, V)> {
        self.pre_seq_of()
    }

    open spec fn post_seq(&self) -> Seq<(K, V)> {
        self.post_seq_of()
    }

    open spec fn level_seq(&self, level: int) -> Seq<(K, V)> {
        self.level_seq_of(level)
    }

    open spec fn levels_seq(&self, n: int) -> Seq<(K, V)> {
        self.levels_of(n)
    }

    open spec fn level_count(&self) -> int {
        self.height_nat() as int
    }

    fn pre_order(&self, vec: &mut Vec<(K, V)>) {
        self.pre_order_rec(vec);
    }

    fn in_order(&self, vec: &mut Vec<(K, V)>) {
        self.in_order_rec(vec);
    }

    fn post_order(&self, vec: &mut Vec<(K, V)>) {
        self.post_order_rec(vec);
    }

    fn level_order(&self, vec: &mut Vec<(K, V)>, level: usize) {
        self.level_order_rec(vec, level);
    }

    fn traverse(&self, order: &Traversals) -> (r: Vec<(K, V)>) {
        let mut vec: Vec<(K, V)> = Vec::with_capacity(self.size());
        match order {
            Traversals::PreOrder => {
                self.pre_order(&mut vec);
                proof {
                    lemma_pre_len(*self);
                    assert(vec@ =~= self.pre_seq_of());
                }
            },
            Traversals::InOrder => {
                self.in_order(&mut vec);
                proof {
                    assert(vec@ =~= self.kv_seq());
                }
            },
            Traversals::PostOrder => {
                self.post_order(&mut vec);
                proof {
                    lemma_post_len(*self);
                    assert(vec@ =~= self.post_seq_of());
                }
            },
            Traversals::LevelOrder => {
                let n = self.get_height();
                let mut level: usize = 0;
                proof {
                    assert(vec@ =~= self.levels_of(0));
                }
                while level < n
                    invariant
                        level <= n,
                        n as int == self.height_nat(),
                        vec@ == self.levels_of(level as int),
                    decreases n - level,
                {
                    self.level_order(&mut vec, level);
                    level += 1;
                    proof {
                        assert(vec@ =~= self.levels_of(level as int));
                    }
                }
                proof {
                    lemma_levels_total(*self, n as int);
                }
            },
        }
        vec
    }
}

/// Red-black balance invariant: in every tree the library hands out, every
/// root-to-empty path passes the same number of black links — stated as
/// `balanced`, the recursive equality of black counts below every node — and
/// no node has two red child links at once.
pub proof fn lemma_red_black_invariant<K: TreeKey, V>(t: RedBlackTree<K, V>)
    requires
        t.inv(),
    ensures
        t.balanced(),
        t.no_two_red(),
{
    lemma_rb_ok_no_two_red(t);
}

/// An empty tree reports no height at all; a populated one reports the edge
/// count of its longest root-to-leaf path.
pub proof fn lemma_empty_height<K: TreeKey, V>(t: RedBlackTree<K, V>)
    requires
        t.inv(),
    ensures
        t.height_opt() is None <==> t.kvs().len() == 0,
{
}

} // verus!
