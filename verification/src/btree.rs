//! The multiway balanced tree: a 2-3-4 style structure of order `M` = 4.
//!
//! A node is a short ordered sequence of entries. At height zero every entry
//! carries a real value; above it every entry pairs a separator key with a
//! child node one level down. All leaves sit at the same depth; a node that
//! reaches `M` entries splits, handing its upper half to the parent, and a
//! root split is the only way the tree grows taller.

use vstd::prelude::*;

use crate::key::{KeyOrdering, TreeKey};
use crate::kv::{
    all_at_least, all_below, kv_contains, kv_get, kv_insert, kv_sorted, lemma_kv_get_is_some,
    lemma_kv_insert_at_least, lemma_kv_insert_below, lemma_kv_insert_contained,
    lemma_kv_insert_infix, lemma_kv_insert_len, lemma_above_not_contains,
    lemma_below_not_contains, lemma_kv_contains_concat, lemma_kv_contains_exists,
    lemma_kv_get_concat, lemma_kv_get_index, lemma_sorted_parts,
};
use crate::SedgewickMap;

verus! {

/// Maximum number of entries a node may reach; reaching it triggers a split.
pub const M: usize = 4;

/// One slot of a node: a key together with either a stored value (at leaf
/// level) or a child node (above it).
struct Entry<K, V> {
    key: K,
    val: Option<V>,
    next: Vec<Entry<K, V>>,
}

/// The multiway balanced tree: the root's entry sequence plus the entry count
/// and the authoritative height counter.
pub struct BalancedTree<K, V> {
    root: Vec<Entry<K, V>>,
    size: usize,
    height: usize,
}

/// The key-value pairs stored in the subtree of one entry at height `h`.
spec fn entry_kvs<K: TreeKey, V>(e: Entry<K, V>, h: nat) -> Seq<(K, V)>
    decreases h, 0int, 0int,
{
    if h == 0 {
        match e.val {
            Some(v) => seq![(e.key, v)],
            None => Seq::empty(),
        }
    } else {
        node_kvs(e.next@, (h - 1) as nat)
    }
}

/// The key-value pairs of a node's entries, in entry order.
spec fn node_kvs<K: TreeKey, V>(es: Seq<Entry<K, V>>, h: nat) -> Seq<(K, V)>
    decreases h, es.len(), 1int,
{
    if es.len() == 0 {
        Seq::empty()
    } else {
        entry_kvs(es[0], h) + node_kvs(es.drop_first(), h)
    }
}

/// Structural well-formedness of one entry at height `h`: leaf entries carry
/// a value and no children; internal entries carry no value and a well-formed
/// child node of one to `M` - 1 entries.
spec fn entry_wf<K: TreeKey, V>(e: Entry<K, V>, h: nat) -> bool
    decreases h, 0int, 0int,
{
    if h == 0 {
        e.val is Some && e.next@.len() == 0
    } else {
        e.val is None && 1 <= e.next@.len() <= M - 1 && entries_wf(e.next@, (h - 1) as nat)
            && entries_order_ok(e.next@, (h - 1) as nat)
    }
}

/// Structural well-formedness of each entry of a node.
spec fn entries_wf<K: TreeKey, V>(es: Seq<Entry<K, V>>, h: nat) -> bool
    decreases h, es.len(), 1int,
{
    if es.len() == 0 {
        true
    } else {
        entry_wf(es[0], h) && entries_wf(es.drop_first(), h)
    }
}

/// The navigation order of a node's entries: each entry's subtree lies
/// strictly below the next separator, and from the second entry on, at or
/// above its own separator. The first entry's subtree has no lower bound:
/// keys below every separator descend into it.
spec fn entries_order_ok<K: TreeKey, V>(es: Seq<Entry<K, V>>, h: nat) -> bool {
    (forall|i: int|
        0 <= i && i + 1 < es.len() ==> all_below(#[trigger] entry_kvs(es[i], h), es[i + 1].key.ord()))
        && (forall|i: int|
        1 <= i < es.len() ==> all_at_least(#[trigger] entry_kvs(es[i], h), es[i].key.ord()))
}

/// A well-formed node, structure and order together.
spec fn node_wf<K: TreeKey, V>(es: Seq<Entry<K, V>>, h: nat) -> bool {
    entries_wf(es, h) && entries_order_ok(es, h)
}

/// A well-formed entry holds at least one pair.
proof fn lemma_entry_nonempty<K: TreeKey, V>(e: Entry<K, V>, h: nat)
    requires
        entry_wf(e, h),
    ensures
        entry_kvs(e, h).len() >= 1,
    decreases h, 0int, 0int,
{
    if h > 0 {
        lemma_node_nonempty(e.next@, (h - 1) as nat);
    }
}

/// A well-formed node of at least one entry holds at least one pair.
proof fn lemma_node_nonempty<K: TreeKey, V>(es: Seq<Entry<K, V>>, h: nat)
    requires
        entries_wf(es, h),
        es.len() >= 1,
    ensures
        node_kvs(es, h).len() >= 1,
    decreases h, es.len(), 1int,
{
    lemma_entry_nonempty(es[0], h);
}

/// Well-formedness restricts to any subrange of a node's entries.
proof fn lemma_entries_wf_subrange<K: TreeKey, V>(es: Seq<Entry<K, V>>, h: nat, a: int, b: int)
    requires
        entries_wf(es, h),
        0 <= a <= b <= es.len(),
    ensures
        entries_wf(es.subrange(a, b), h),
        forall|i: int| 0 <= i < es.len() ==> #[trigger] entry_wf(es[i], h),
    decreases es.len(),
{
    if es.len() > 0 {
        lemma_entries_wf_subrange(es.drop_first(), h, 0, es.len() - 1);
        assert(forall|i: int| 1 <= i < es.len() ==> es.drop_first()[i - 1] == es[i]);
        let sub = es.subrange(a, b);
        if a == 0 {
            if b > 0 {
                assert(sub[0] == es[0]);
                assert(sub.drop_first() =~= es.drop_first().subrange(0, b - 1));
                lemma_entries_wf_subrange(es.drop_first(), h, 0, b - 1);
            }
        } else {
            assert(sub =~= es.drop_first().subrange(a - 1, b - 1));
            lemma_entries_wf_subrange(es.drop_first(), h, a - 1, b - 1);
        }
    }
}

/// Entry-wise well-formedness assembles back into the recursive form.
proof fn lemma_entries_wf_from_each<K: TreeKey, V>(es: Seq<Entry<K, V>>, h: nat)
    requires
        forall|i: int| 0 <= i < es.len() ==> #[trigger] entry_wf(es[i], h),
    ensures
        entries_wf(es, h),
    decreases es.len(),
{
    if es.len() > 0 {
        assert(entry_wf(es[0], h));
        assert forall|i: int| 0 <= i < es.drop_first().len() implies #[trigger] entry_wf(
            es.drop_first()[i],
            h,
        ) by {
            assert(es.drop_first()[i] == es[i + 1]);
            assert(entry_wf(es[i + 1], h));
        }
        lemma_entries_wf_from_each(es.drop_first(), h);
    }
}

/// A node's pairs split at any entry boundary.
proof fn lemma_node_kvs_split<K: TreeKey, V>(es: Seq<Entry<K, V>>, h: nat, j: int)
    requires
        0 <= j <= es.len(),
    ensures
        node_kvs(es, h) == node_kvs(es.subrange(0, j), h) + node_kvs(
            es.subrange(j, es.len() as int),
            h,
        ),
    decreases j,
{
    if j == 0 {
        assert(es.subrange(0, 0) =~= Seq::<Entry<K, V>>::empty());
        assert(es.subrange(0, es.len() as int) =~= es);
        assert(node_kvs(es, h) =~= node_kvs(es.subrange(0, 0), h) + node_kvs(
            es.subrange(0, es.len() as int),
            h,
        ));
    } else {
        assert(es.len() > 0);
        lemma_node_kvs_split(es.drop_first(), h, j - 1);
        assert(es.drop_first().subrange(0, j - 1) =~= es.subrange(1, j));
        assert(es.drop_first().subrange(j - 1, es.drop_first().len() as int) =~= es.subrange(
            j,
            es.len() as int,
        ));
        assert(es.subrange(0, j).drop_first() =~= es.subrange(1, j));
        assert(es.subrange(0, j)[0] == es[0]);
        assert(node_kvs(es.subrange(0, j), h) == entry_kvs(es[0], h) + node_kvs(
            es.subrange(1, j),
            h,
        ));
        assert(node_kvs(es, h) =~= node_kvs(es.subrange(0, j), h) + node_kvs(
            es.subrange(j, es.len() as int),
            h,
        ));
    }
}

/// The separator keys strictly increase from the second entry on.
proof fn lemma_seps_increase<K: TreeKey, V>(es: Seq<Entry<K, V>>, h: nat, i: int, j: int)
    requires
        entries_wf(es, h),
        entries_order_ok(es, h),
        1 <= i < j < es.len(),
    ensures
        es[i].key.ord() < es[j].key.ord(),
    decreases j - i,
{
    lemma_entries_wf_subrange(es, h, 0, es.len() as int);
    lemma_entry_nonempty(es[i], h);
    let ks = entry_kvs(es[i], h);
    assert(ks[0].0.ord() >= es[i].key.ord());
    assert(ks[0].0.ord() < es[i + 1].key.ord());
    if i + 1 < j {
        lemma_seps_increase(es, h, i + 1, j);
    }
}

/// Every pair of a well-formed node from entry `i` on sits at or above entry
/// `i`'s separator (for `i` at least one).
proof fn lemma_node_at_least<K: TreeKey, V>(es: Seq<Entry<K, V>>, h: nat, b: int)
    requires
        entries_wf(es, h),
        entries_order_ok(es, h),
        es.len() > 0,
        all_at_least(entry_kvs(es[0], h), b),
        es.len() > 1 ==> b <= es[1].key.ord(),
    ensures
        all_at_least(node_kvs(es, h), b),
    decreases es.len(),
{
    let tail = es.drop_first();
    assert(forall|i: int| 0 <= i < tail.len() ==> tail[i] == es[i + 1]);
    if tail.len() > 0 {
        assert(entries_wf(tail, h));
        assert(entries_order_ok(tail, h)) by {
            assert(forall|i: int|
                0 <= i && i + 1 < tail.len() ==> all_below(
                    #[trigger] entry_kvs(tail[i], h),
                    tail[i + 1].key.ord(),
                ));
            assert(forall|i: int|
                1 <= i < tail.len() ==> all_at_least(
                    #[trigger] entry_kvs(tail[i], h),
                    tail[i].key.ord(),
                ));
        }
        assert(all_at_least(entry_kvs(tail[0], h), b)) by {
            assert(all_at_least(entry_kvs(es[1], h), es[1].key.ord()));
        }
        if tail.len() > 1 {
            lemma_seps_increase(es, h, 1, 2);
            assert(b <= tail[1].key.ord());
        }
        lemma_node_at_least(tail, h, b);
    }
    let s = node_kvs(es, h);
    assert(s == entry_kvs(es[0], h) + node_kvs(tail, h));
    assert forall|i: int| 0 <= i < s.len() implies #[trigger] s[i].0.ord() >= b by {
        if i < entry_kvs(es[0], h).len() {
            assert(s[i] == entry_kvs(es[0], h)[i]);
        } else {
            assert(s[i] == node_kvs(tail, h)[i - entry_kvs(es[0], h).len()]);
        }
    }
}

/// Every pair of a well-formed node sits strictly below a bound that caps the
/// last entry's subtree.
proof fn lemma_node_below<K: TreeKey, V>(es: Seq<Entry<K, V>>, h: nat, b: int)
    requires
        entries_wf(es, h),
        entries_order_ok(es, h),
        es.len() > 0,
        all_below(entry_kvs(es[es.len() - 1], h), b),
    ensures
        all_below(node_kvs(es, h), b),
    decreases es.len(),
{
    let tail = es.drop_first();
    lemma_tail_wf(es, h);
    if tail.len() > 0 {
        lemma_node_below(tail, h, b);
        // the last separator stays below b: its own nonempty subtree does
        lemma_entries_wf_subrange(es, h, 0, es.len() as int);
        lemma_entry_nonempty(es[es.len() - 1], h);
        assert(all_at_least(entry_kvs(es[es.len() - 1], h), es[es.len() - 1].key.ord()));
        assert(entry_kvs(es[es.len() - 1], h)[0].0.ord() < b);
        assert(es[es.len() - 1].key.ord() < b);
        // the first entry's pairs sit below the next separator, which stays
        // below b through the increasing separator chain
        assert(all_below(entry_kvs(es[0], h), es[1].key.ord()));
        if es.len() > 2 {
            lemma_seps_increase(es, h, 1, es.len() - 1);
        }
        assert(es[1].key.ord() <= es[es.len() - 1].key.ord());
    }
    let s = node_kvs(es, h);
    assert(s == entry_kvs(es[0], h) + node_kvs(tail, h));
    assert forall|i: int| 0 <= i < s.len() implies #[trigger] s[i].0.ord() < b by {
        if i < entry_kvs(es[0], h).len() {
            assert(s[i] == entry_kvs(es[0], h)[i]);
            if es.len() == 1 {
            } else {
                assert(es[1].key.ord() < b);
            }
        } else {
            assert(s[i] == node_kvs(tail, h)[i - entry_kvs(es[0], h).len()]);
        }
    }
}

/// Navigation order restricts to any subrange of a node's entries.
proof fn lemma_order_ok_subrange<K: TreeKey, V>(es: Seq<Entry<K, V>>, h: nat, a: int, b: int)
    requires
        entries_order_ok(es, h),
        0 <= a <= b <= es.len(),
    ensures
        entries_order_ok(es.subrange(a, b), h),
{
    let sub = es.subrange(a, b);
    assert(forall|i: int| 0 <= i < sub.len() ==> sub[i] == es[a + i]);
    assert forall|i: int| 0 <= i && i + 1 < sub.len() implies all_below(
        #[trigger] entry_kvs(sub[i], h),
        sub[i + 1].key.ord(),
    ) by {
        assert(all_below(entry_kvs(es[a + i], h), es[a + i + 1].key.ord()));
    }
    assert forall|i: int| 1 <= i < sub.len() implies all_at_least(
        #[trigger] entry_kvs(sub[i], h),
        sub[i].key.ord(),
    ) by {
        assert(all_at_least(entry_kvs(es[a + i], h), es[a + i].key.ord()));
    }
}

/// Dropping the first entry keeps a node well formed.
proof fn lemma_tail_wf<K: TreeKey, V>(es: Seq<Entry<K, V>>, h: nat)
    requires
        entries_wf(es, h),
        entries_order_ok(es, h),
        es.len() > 0,
    ensures
        entries_wf(es.drop_first(), h),
        entries_order_ok(es.drop_first(), h),
        forall|i: int| 0 <= i < es.drop_first().len() ==> es.drop_first()[i] == es[i + 1],
{
    let tail = es.drop_first();
    assert(forall|i: int| 0 <= i < tail.len() ==> tail[i] == es[i + 1]);
    assert(forall|i: int|
        0 <= i && i + 1 < tail.len() ==> all_below(
            #[trigger] entry_kvs(tail[i], h),
            tail[i + 1].key.ord(),
        ));
    assert(forall|i: int|
        1 <= i < tail.len() ==> all_at_least(#[trigger] entry_kvs(tail[i], h), tail[i].key.ord()));
}

/// At leaf level a node's pairs are its entries' keys and values, one each.
proof fn lemma_leaf_char<K: TreeKey, V>(es: Seq<Entry<K, V>>)
    requires
        entries_wf(es, 0),
    ensures
        node_kvs(es, 0).len() == es.len(),
        forall|i: int|
            0 <= i < es.len() ==> (#[trigger] node_kvs(es, 0)[i]).0 == es[i].key && es[i].val
                == Some(node_kvs(es, 0)[i].1),
    decreases es.len(),
{
    if es.len() > 0 {
        lemma_entries_wf_subrange(es, 0, 0, es.len() as int);
        assert(entry_wf(es[0], 0));
        let tail = es.drop_first();
        lemma_leaf_char(tail);
        assert(forall|i: int| 0 <= i < tail.len() ==> tail[i] == es[i + 1]);
        assert(entry_kvs(es[0], 0).len() == 1);
        assert(node_kvs(es, 0) == entry_kvs(es[0], 0) + node_kvs(tail, 0));
        assert forall|i: int| 0 <= i < es.len() implies (#[trigger] node_kvs(es, 0)[i]).0
            == es[i].key && es[i].val == Some(node_kvs(es, 0)[i].1) by {
            if i == 0 {
                assert(node_kvs(es, 0)[0] == entry_kvs(es[0], 0)[0]);
            } else {
                assert(node_kvs(es, 0)[i] == node_kvs(tail, 0)[i - 1]);
                assert(tail[i - 1] == es[i]);
            }
        }
    }
}

/// Lookup in a node reduces to lookup in the entry the navigation picks: the
/// first entry `j` whose successor separator (if any) lies above the key,
/// provided the key sits at or above the separators up to `j`.
proof fn lemma_node_get_at<K: TreeKey, V>(es: Seq<Entry<K, V>>, h: nat, j: int, id: int)
    requires
        entries_wf(es, h),
        entries_order_ok(es, h),
        0 <= j < es.len(),
        forall|i: int| 1 <= i <= j ==> id >= es[i].key.ord(),
        j + 1 < es.len() ==> id < es[j + 1].key.ord(),
    ensures
        kv_get(node_kvs(es, h), id) == kv_get(entry_kvs(es[j], h), id),
        kv_contains(node_kvs(es, h), id) == kv_contains(entry_kvs(es[j], h), id),
    decreases j,
{
    let g0 = entry_kvs(es[0], h);
    let tail = es.drop_first();
    let rest = node_kvs(tail, h);
    lemma_tail_wf(es, h);
    assert(node_kvs(es, h) == g0 + rest);
    lemma_kv_get_concat(g0, rest, id);
    lemma_kv_contains_concat(g0, rest, id);
    lemma_kv_get_is_some(g0, id);
    lemma_kv_get_is_some(rest, id);
    if j == 0 {
        if es.len() > 1 {
            assert(all_at_least(entry_kvs(tail[0], h), es[1].key.ord()));
            if tail.len() > 1 {
                lemma_seps_increase(es, h, 1, 2);
            }
            lemma_node_at_least(tail, h, es[1].key.ord());
            lemma_kv_contains_exists(rest, id);
            assert(!kv_contains(rest, id));
        } else {
            assert(rest =~= Seq::<(K, V)>::empty());
        }
    } else {
        assert(id >= es[1].key.ord());
        lemma_entries_wf_subrange(es, h, 0, es.len() as int);
        assert(all_below(g0, es[1].key.ord()));
        lemma_below_not_contains(g0, es[1].key.ord(), id);
        assert(forall|i: int| 1 <= i <= j - 1 ==> id >= tail[i].key.ord());
        lemma_node_get_at(tail, h, j - 1, id);
        assert(tail[j - 1] == es[j]);
    }
}

/// The pairs of a well-formed entry are sorted.
proof fn lemma_entry_sorted<K: TreeKey, V>(e: Entry<K, V>, h: nat)
    requires
        entry_wf(e, h),
    ensures
        kv_sorted(entry_kvs(e, h)),
    decreases h, 0int, 0int,
{
    if h > 0 {
        lemma_node_sorted(e.next@, (h - 1) as nat);
    }
}

/// Ordering invariant: the pairs of a well-formed node are sorted by key.
proof fn lemma_node_sorted<K: TreeKey, V>(es: Seq<Entry<K, V>>, h: nat)
    requires
        entries_wf(es, h),
        entries_order_ok(es, h),
    ensures
        kv_sorted(node_kvs(es, h)),
    decreases h, es.len(), 1int,
{
    if es.len() == 0 {
    } else {
        lemma_entry_sorted(es[0], h);
        let tail = es.drop_first();
        assert(forall|i: int| 0 <= i < tail.len() ==> tail[i] == es[i + 1]);
        assert(entries_order_ok(tail, h)) by {
            assert(forall|i: int|
                0 <= i && i + 1 < tail.len() ==> all_below(
                    #[trigger] entry_kvs(tail[i], h),
                    tail[i + 1].key.ord(),
                ));
            assert(forall|i: int|
                1 <= i < tail.len() ==> all_at_least(
                    #[trigger] entry_kvs(tail[i], h),
                    tail[i].key.ord(),
                ));
        }
        lemma_node_sorted(tail, h);
        if tail.len() == 0 {
            assert(node_kvs(tail, h) =~= Seq::<(K, V)>::empty());
            assert(node_kvs(es, h) =~= entry_kvs(es[0], h));
        } else {
            let m = es[1].key.ord();
            assert(all_below(entry_kvs(es[0], h), m));
            assert(all_at_least(entry_kvs(tail[0], h), m));
            if tail.len() > 1 {
                lemma_seps_increase(es, h, 1, 2);
            }
            lemma_node_at_least(tail, h, m);
            lemma_sorted_parts(entry_kvs(es[0], h), node_kvs(tail, h), m);
        }
    }
}

/// The model and the invariant read an entry only through its key, its pairs
/// and its own well-formedness: nodes that agree on those agree on
/// everything.
proof fn lemma_node_congruence<K: TreeKey, V>(es1: Seq<Entry<K, V>>, es2: Seq<Entry<K, V>>, h: nat)
    requires
        es1.len() == es2.len(),
        forall|i: int|
            0 <= i < es1.len() ==> (#[trigger] es1[i]).key == es2[i].key && entry_kvs(es1[i], h)
                == entry_kvs(es2[i], h) && entry_wf(es1[i], h) == entry_wf(es2[i], h),
    ensures
        node_kvs(es1, h) == node_kvs(es2, h),
        entries_wf(es1, h) == entries_wf(es2, h),
        entries_order_ok(es1, h) == entries_order_ok(es2, h),
    decreases es1.len(),
{
    if es1.len() > 0 {
        assert(entry_kvs(es1[0], h) == entry_kvs(es2[0], h));
        assert(entry_wf(es1[0], h) == entry_wf(es2[0], h));
        assert forall|i: int|
            0 <= i < es1.drop_first().len() implies (#[trigger] es1.drop_first()[i]).key
            == es2.drop_first()[i].key && entry_kvs(es1.drop_first()[i], h) == entry_kvs(
            es2.drop_first()[i],
            h,
        ) && entry_wf(es1.drop_first()[i], h) == entry_wf(es2.drop_first()[i], h) by {
            assert(es1.drop_first()[i] == es1[i + 1]);
            assert(es2.drop_first()[i] == es2[i + 1]);
        }
        lemma_node_congruence(es1.drop_first(), es2.drop_first(), h);
        assert(node_kvs(es1, h) == node_kvs(es2, h));
    }
    assert(entries_order_ok(es1, h) == entries_order_ok(es2, h)) by {
        if entries_order_ok(es1, h) {
            assert forall|i: int| 0 <= i && i + 1 < es2.len() implies all_below(
                #[trigger] entry_kvs(es2[i], h),
                es2[i + 1].key.ord(),
            ) by {
                assert(all_below(entry_kvs(es1[i], h), es1[i + 1].key.ord()));
            }
            assert forall|i: int| 1 <= i < es2.len() implies all_at_least(
                #[trigger] entry_kvs(es2[i], h),
                es2[i].key.ord(),
            ) by {
                assert(all_at_least(entry_kvs(es1[i], h), es1[i].key.ord()));
            }
        }
        if entries_order_ok(es2, h) {
            assert forall|i: int| 0 <= i && i + 1 < es1.len() implies all_below(
                #[trigger] entry_kvs(es1[i], h),
                es1[i + 1].key.ord(),
            ) by {
                assert(all_below(entry_kvs(es2[i], h), es2[i + 1].key.ord()));
            }
            assert forall|i: int| 1 <= i < es1.len() implies all_at_least(
                #[trigger] entry_kvs(es1[i], h),
                es1[i].key.ord(),
            ) by {
                assert(all_at_least(entry_kvs(es2[i], h), es2[i].key.ord()));
            }
        }
    }
}

/// What a node-level insertion reports upward: nothing to do, a split-off
/// right half to adopt, or a key that was already present.
enum PutResult<K, V> {
    NoSplit,
    Split(Vec<Entry<K, V>>),
    Present,
}

/// Split a full node in half: keep the first two entries, hand the last two
/// back as a fresh right sibling.
fn split_overflow<K: TreeKey + Copy, V>(es: &mut Vec<Entry<K, V>>, Ghost(h): Ghost<nat>) -> (u:
    Vec<Entry<K, V>>)
    requires
        node_wf(old(es)@, h),
        old(es)@.len() == M,
    ensures
        node_wf(final(es)@, h),
        final(es)@.len() == 2,
        node_wf(u@, h),
        u@.len() == 2,
        node_kvs(final(es)@, h) + node_kvs(u@, h) == node_kvs(old(es)@, h),
        node_kvs(final(es)@, h).len() > 0,
        node_kvs(u@, h).len() > 0,
        all_below(node_kvs(final(es)@, h), u@[0].key.ord()),
        all_at_least(node_kvs(u@, h), u@[0].key.ord()),
{
    let ghost olds = es@;
    let e2 = es.remove(2);
    let e3 = es.remove(2);
    let mut u: Vec<Entry<K, V>> = Vec::with_capacity(2);
    u.push(e2);
    u.push(e3);
    proof {
        let left = es@;
        assert(left =~= olds.subrange(0, 2));
        assert(u@ =~= olds.subrange(2, 4));
        lemma_entries_wf_subrange(olds, h, 0, 2);
        lemma_order_ok_subrange(olds, h, 0, 2);
        lemma_entries_wf_subrange(olds, h, 2, 4);
        lemma_order_ok_subrange(olds, h, 2, 4);
        lemma_entries_wf_subrange(olds, h, 0, 4);
        lemma_node_kvs_split(olds, h, 2);
        assert(node_kvs(left, h) + node_kvs(u@, h) == node_kvs(olds, h));
        lemma_node_nonempty(left, h);
        lemma_node_nonempty(u@, h);
        // the right half's pairs sit at or above its first separator
        let u0 = olds[2].key.ord();
        assert(all_at_least(entry_kvs(olds[2], h), u0));
        lemma_seps_increase(olds, h, 2, 3);
        lemma_node_at_least(u@, h, u0);
        // the left half's pairs sit strictly below it
        lemma_seps_increase(olds, h, 1, 2);
        assert(all_below(entry_kvs(olds[1], h), olds[2].key.ord()));
        lemma_node_below(left, h, u0);
    }
    u
}

/// Recursive insertion: navigate as lookup does, place a fresh entry at the
/// sorted position of the chosen leaf, and split any node that fills up,
/// handing the split-off right half to the caller. A key already present
/// leaves the node untouched.
#[verifier::rlimit(60)]
fn insert<K: TreeKey + Copy, V>(h_node: &mut Vec<Entry<K, V>>, key: K, val: V, height: usize) -> (r:
    PutResult<K, V>)
    requires
        node_wf(old(h_node)@, height as nat),
        height > 0 ==> old(h_node)@.len() >= 1,
        old(h_node)@.len() <= M - 1,
    ensures
        (match r {
            PutResult::Present => {
                &&& node_wf(final(h_node)@, height as nat)
                &&& final(h_node)@.len() == old(h_node)@.len()
                &&& node_kvs(final(h_node)@, height as nat) == node_kvs(
                    old(h_node)@,
                    height as nat,
                )
                &&& kv_contains(node_kvs(old(h_node)@, height as nat), key.ord())
            },
            PutResult::NoSplit => {
                &&& node_wf(final(h_node)@, height as nat)
                &&& 1 <= final(h_node)@.len() <= M - 1
                &&& node_kvs(final(h_node)@, height as nat) == kv_insert(
                    node_kvs(old(h_node)@, height as nat),
                    key,
                    val,
                )
                &&& !kv_contains(node_kvs(old(h_node)@, height as nat), key.ord())
            },
            PutResult::Split(u) => {
                &&& node_wf(final(h_node)@, height as nat)
                &&& final(h_node)@.len() == 2
                &&& node_wf(u@, height as nat)
                &&& u@.len() == 2
                &&& node_kvs(final(h_node)@, height as nat) + node_kvs(u@, height as nat)
                    == kv_insert(node_kvs(old(h_node)@, height as nat), key, val)
                &&& !kv_contains(node_kvs(old(h_node)@, height as nat), key.ord())
                &&& node_kvs(final(h_node)@, height as nat).len() > 0
                &&& node_kvs(u@, height as nat).len() > 0
                &&& all_below(node_kvs(final(h_node)@, height as nat), u@[0].key.ord())
                &&& all_at_least(node_kvs(u@, height as nat), u@[0].key.ord())
            },
        }),
    decreases height,
{
    let ghost h = height as nat;
    let ghost olds = h_node@;
    let ghost s = node_kvs(olds, h);
    let ghost id = key.ord();
    proof {
        lemma_node_sorted(olds, h);
        lemma_entries_wf_subrange(olds, h, 0, olds.len() as int);
    }
    if height == 0 {
        proof {
            lemma_leaf_char(olds);
        }
        let mut j: usize = 0;
        let mut stop = false;
        while !stop && j < h_node.len()
            invariant
                h_node@ == olds,
                olds == old(h_node)@,
                height == 0,
                h == height as nat,
                node_wf(olds, 0),
                s == node_kvs(olds, 0),
                id == key.ord(),
                kv_sorted(s),
                s.len() == olds.len(),
                forall|q: int|
                    0 <= q < olds.len() ==> (#[trigger] node_kvs(olds, 0)[q]).0 == olds[q].key
                        && olds[q].val == Some(node_kvs(olds, 0)[q].1),
                j <= olds.len(),
                forall|q: int| 0 <= q < j ==> (#[trigger] olds[q].key).ord() < id,
                stop ==> j < olds.len() && id < olds[j as int].key.ord(),
            decreases olds.len() - j, 1int - if stop {
                1int
            } else {
                0int
            },
        {
            match key.key_cmp(&h_node[j].key) {
                KeyOrdering::Equal => {
                    proof {
                        lemma_kv_contains_exists(s, id);
                        assert(s[j as int].0.ord() == id);
                    }
                    return PutResult::Present;
                },
                KeyOrdering::Less => {
                    stop = true;
                },
                KeyOrdering::Greater => {
                    j += 1;
                },
            }
        }
        let e = Entry { key, val: Some(val), next: Vec::new() };
        h_node.insert(j, e);
        proof {
            let jj = j as int;
            let news = h_node@;
            let pre = olds.subrange(0, jj);
            let post = olds.subrange(jj, olds.len() as int);
            let a = node_kvs(pre, 0);
            let b = node_kvs(post, 0);
            lemma_node_kvs_split(olds, 0, jj);
            lemma_entries_wf_subrange(olds, 0, 0, jj);
            lemma_entries_wf_subrange(olds, 0, jj, olds.len() as int);
            lemma_leaf_char(pre);
            lemma_leaf_char(post);
            // everything before the insertion point sits below the key,
            // everything from it on sits above
            assert forall|q: int| 0 <= q < a.len() implies #[trigger] a[q].0.ord() < id by {
                assert(a[q].0 == pre[q].key);
                assert(pre[q] == olds[q]);
            }
            if post.len() > 0 {
                assert(b[0].0 == post[0].key);
                assert(post[0] == olds[jj]);
                assert(b[0].0.ord() > id);
            }
            assert(a + Seq::<(K, V)>::empty() + b =~= s);
            lemma_kv_insert_infix(a, Seq::<(K, V)>::empty(), b, key, val);
            assert(kv_insert(Seq::<(K, V)>::empty(), key, val) =~= seq![(key, val)]);
            assert(kv_insert(s, key, val) == a + seq![(key, val)] + b);
            // the new node's pairs are exactly that
            assert(news =~= pre + seq![e] + post);
            lemma_node_kvs_split(news, 0, jj);
            assert(news.subrange(0, jj) =~= pre);
            let right = news.subrange(jj, news.len() as int);
            assert(right[0] == e);
            assert(right.drop_first() =~= post);
            assert(entry_kvs(e, 0) =~= seq![(key, val)]);
            assert(node_kvs(right, 0) == entry_kvs(e, 0) + node_kvs(post, 0));
            assert(node_kvs(news, 0) =~= kv_insert(s, key, val));
            // well-formedness of the new node
            assert forall|q: int| 0 <= q < news.len() implies #[trigger] entry_wf(
                news[q],
                0,
            ) by {
                if q < jj {
                    assert(news[q] == olds[q]);
                } else if q > jj {
                    assert(news[q] == olds[q - 1]);
                }
            }
            lemma_entries_wf_from_each(news, 0);
            // navigation order: the keys strictly increase
            assert forall|q1: int, q2: int|
                0 <= q1 < q2 < news.len() implies (#[trigger] news[q1].key).ord()
                < (#[trigger] news[q2].key).ord() by {
                let okey = |q: int| olds[q].key.ord();
                assert(forall|p1: int, p2: int|
                    0 <= p1 < p2 < olds.len() ==> (#[trigger] olds[p1].key).ord()
                        < (#[trigger] olds[p2].key).ord()) by {
                    assert(forall|p: int|
                        0 <= p < olds.len() ==> (#[trigger] olds[p].key).ord() == s[p].0.ord());
                }
                if post.len() > 0 {
                    assert(olds[jj].key.ord() > id);
                }
            }
            assert forall|q: int| 0 <= q && q + 1 < news.len() implies all_below(
                #[trigger] entry_kvs(news[q], 0),
                news[q + 1].key.ord(),
            ) by {
                assert(entry_wf(news[q], 0));
                assert(entry_kvs(news[q], 0).len() == 1);
                assert(entry_kvs(news[q], 0)[0].0 == news[q].key);
                assert(news[q].key.ord() < news[q + 1].key.ord());
            }
            assert forall|q: int| 1 <= q < news.len() implies all_at_least(
                #[trigger] entry_kvs(news[q], 0),
                news[q].key.ord(),
            ) by {
                assert(entry_wf(news[q], 0));
                assert(entry_kvs(news[q], 0).len() == 1);
                assert(entry_kvs(news[q], 0)[0].0 == news[q].key);
            }
            // the key was absent
            lemma_kv_contains_exists(s, id);
            assert(!kv_contains(s, id)) by {
                if exists|q: int| 0 <= q < s.len() && #[trigger] s[q].0.ord() == id {
                    let q = choose|q: int| 0 <= q < s.len() && #[trigger] s[q].0.ord() == id;
                    assert(olds[q].key.ord() == id);
                    if q >= jj {
                        assert(s[q].0.ord() >= s[jj].0.ord());
                    }
                }
            }
        }
        if h_node.len() < M {
            PutResult::NoSplit
        } else {
            let u = split_overflow(h_node, Ghost(0));
            PutResult::Split(u)
        }
    } else {
        let mut j: usize = 0;
        while j < h_node.len()
            invariant
                h_node@ == olds,
                olds == old(h_node)@,
                node_wf(olds, h),
                h == height as nat,
                height >= 1,
                s == node_kvs(olds, h),
                id == key.ord(),
                1 <= olds.len() <= M - 1,
                j < olds.len(),
                forall|q: int| 1 <= q <= j ==> id >= (#[trigger] olds[q].key).ord(),
            decreases olds.len() - j,
        {
            let last = j + 1 == h_node.len();
            let descend = if last {
                true
            } else {
                match key.key_cmp(&h_node[j + 1].key) {
                    KeyOrdering::Less => true,
                    _ => false,
                }
            };
            if descend {
                let ghost jj = j as int;
                proof {
                    lemma_entries_wf_subrange(olds, h, 0, olds.len() as int);
                    assert(entry_wf(olds[jj], h));
                    lemma_node_get_at(olds, h, jj, id);
                }
                let mut ej = h_node.remove(j);
                let res = insert(&mut ej.next, key, val, height - 1);
                let ghost gej = ej;
                match res {
                    PutResult::Present => {
                        h_node.insert(j, ej);
                        proof {
                            let news = h_node@;
                            assert(news.len() == olds.len());
                            assert(news[jj] == gej);
                            assert(entry_kvs(gej, h) == entry_kvs(olds[jj], h));
                            assert(entry_wf(gej, h) == entry_wf(olds[jj], h));
                            assert forall|q: int| 0 <= q < news.len() implies (
                            #[trigger] news[q]).key == olds[q].key && entry_kvs(news[q], h)
                                == entry_kvs(olds[q], h) && entry_wf(news[q], h) == entry_wf(
                                olds[q],
                                h,
                            ) by {
                                if q != jj {
                                    assert(news[q] == olds[q]);
                                }
                            }
                            lemma_node_congruence(news, olds, h);
                        }
                        return PutResult::Present;
                    },
                    PutResult::NoSplit => {
                        h_node.insert(j, ej);
                        proof {
                            assert(h_node@ =~= olds.update(jj, gej));
                            internal_after_insert(olds, h, jj, key, val, h_node@, gej, None);
                        }
                        return PutResult::NoSplit;
                    },
                    PutResult::Split(u) => {
                        let sk = u[0].key;
                        let t = Entry { key: sk, val: None, next: u };
                        let ghost gt = t;
                        h_node.insert(j, ej);
                        h_node.insert(j + 1, t);
                        proof {
                            assert(h_node@ =~= olds.update(jj, gej).insert(jj + 1, gt));
                            internal_after_insert(olds, h, jj, key, val, h_node@, gej, Some(gt));
                        }
                        if h_node.len() < M {
                            return PutResult::NoSplit;
                        } else {
                            let u2 = split_overflow(h_node, Ghost(h));
                            return PutResult::Split(u2);
                        }
                    },
                }
            }
            j += 1;
        }
        proof {
            assert(false);
        }
        vstd::pervasive::unreached()
    }
}

/// After an insertion into the child of entry `j`, the node with that entry's
/// child replaced — and, when the child split, a fresh separator entry placed
/// right after it — is well formed again and holds exactly the inserted
/// pairs.
#[verifier::spinoff_prover]
proof fn internal_after_insert<K: TreeKey + Copy, V>(
    olds: Seq<Entry<K, V>>,
    h: nat,
    j: int,
    key: K,
    val: V,
    news: Seq<Entry<K, V>>,
    ej: Entry<K, V>,
    t: Option<Entry<K, V>>,
)
    requires
        h >= 1,
        node_wf(olds, h),
        0 <= j < olds.len(),
        olds.len() <= M - 1,
        forall|q: int| 1 <= q <= j ==> key.ord() >= (#[trigger] olds[q].key).ord(),
        j + 1 < olds.len() ==> key.ord() < olds[j + 1].key.ord(),
        ej.key == olds[j].key,
        ej.val == olds[j].val,
        !kv_contains(node_kvs(olds[j].next@, (h - 1) as nat), key.ord()),
        (match t {
            None => {
                &&& node_wf(ej.next@, (h - 1) as nat)
                &&& 1 <= ej.next@.len() <= M - 1
                &&& node_kvs(ej.next@, (h - 1) as nat) == kv_insert(
                    node_kvs(olds[j].next@, (h - 1) as nat),
                    key,
                    val,
                )
                &&& news == olds.update(j, ej)
            },
            Some(tt) => {
                &&& node_wf(ej.next@, (h - 1) as nat)
                &&& ej.next@.len() == 2
                &&& tt.val is None
                &&& node_wf(tt.next@, (h - 1) as nat)
                &&& tt.next@.len() == 2
                &&& node_kvs(ej.next@, (h - 1) as nat) + node_kvs(tt.next@, (h - 1) as nat)
                    == kv_insert(node_kvs(olds[j].next@, (h - 1) as nat), key, val)
                &&& node_kvs(ej.next@, (h - 1) as nat).len() > 0
                &&& node_kvs(tt.next@, (h - 1) as nat).len() > 0
                &&& all_below(node_kvs(ej.next@, (h - 1) as nat), tt.key.ord())
                &&& all_at_least(node_kvs(tt.next@, (h - 1) as nat), tt.key.ord())
                &&& news == olds.update(j, ej).insert(j + 1, tt)
            },
        }),
    ensures
        node_wf(news, h),
        news.len() == olds.len() + (match t {
            None => 0int,
            Some(_) => 1int,
        }),
        node_kvs(news, h) == kv_insert(node_kvs(olds, h), key, val),
        !kv_contains(node_kvs(olds, h), key.ord()),
{
    let id = key.ord();
    let hc = (h - 1) as nat;
    let childkvs = node_kvs(olds[j].next@, hc);
    let pre = olds.subrange(0, j);
    let post = olds.subrange(j + 1, olds.len() as int);
    let a = node_kvs(pre, h);
    let b = node_kvs(post, h);
    lemma_entries_wf_subrange(olds, h, 0, olds.len() as int);
    assert(entry_wf(olds[j], h));
    assert(entry_kvs(olds[j], h) == childkvs);
    // decompose the old node's pairs around entry j
    lemma_node_kvs_split(olds, h, j);
    let right_part = olds.subrange(j, olds.len() as int);
    assert(right_part[0] == olds[j]);
    assert(right_part.drop_first() =~= post);
    assert(node_kvs(right_part, h) == childkvs + node_kvs(post, h));
    assert(node_kvs(olds, h) =~= a + childkvs + b);
    // everything left of the child sits below the key
    lemma_entries_wf_subrange(olds, h, 0, j);
    lemma_order_ok_subrange(olds, h, 0, j);
    if j >= 1 {
        assert(all_below(entry_kvs(olds[j - 1], h), olds[j].key.ord()));
        assert(pre[j - 1] == olds[j - 1]);
        assert forall|q: int| 0 <= q < entry_kvs(pre[j - 1], h).len() implies #[trigger] entry_kvs(
            pre[j - 1],
            h,
        )[q].0.ord() < id by {
            assert(entry_kvs(olds[j - 1], h)[q].0.ord() < olds[j].key.ord());
            assert(id >= olds[j].key.ord());
        }
        lemma_node_below(pre, h, id);
    } else {
        assert(pre =~= Seq::<Entry<K, V>>::empty());
        assert(node_kvs(pre, h) =~= Seq::<(K, V)>::empty());
    }
    // everything right of the child sits above it
    if j + 1 < olds.len() {
        assert(entry_wf(olds[j + 1], h));
        lemma_entry_nonempty(olds[j + 1], h);
        assert(post[0] == olds[j + 1]);
        assert(node_kvs(post, h) == entry_kvs(olds[j + 1], h) + node_kvs(post.drop_first(), h));
        assert(b[0] == entry_kvs(olds[j + 1], h)[0]);
        assert(all_at_least(entry_kvs(olds[j + 1], h), olds[j + 1].key.ord()));
        assert(b[0].0.ord() >= olds[j + 1].key.ord());
        assert(b.len() > 0 ==> id < b[0].0.ord());
    } else {
        assert(post =~= Seq::<Entry<K, V>>::empty());
        assert(node_kvs(post, h) =~= Seq::<(K, V)>::empty());
    }
    lemma_kv_insert_infix(a, childkvs, b, key, val);
    assert(kv_insert(node_kvs(olds, h), key, val) == a + kv_insert(childkvs, key, val) + b);
    // the key is absent from the whole node
    lemma_node_get_at(olds, h, j, id);
    // bounds on the inserted child's pairs, for the navigation order
    if j + 1 < olds.len() {
        assert(all_below(childkvs, olds[j + 1].key.ord()));
        lemma_kv_insert_below(childkvs, key, val, olds[j + 1].key.ord());
    }
    if j >= 1 {
        assert(all_at_least(childkvs, olds[j].key.ord()));
        lemma_kv_insert_at_least(childkvs, key, val, olds[j].key.ord());
    }
    match t {
        None => {
            assert(news =~= pre + seq![ej] + post);
            lemma_node_kvs_split(news, h, j);
            assert(news.subrange(0, j) =~= pre);
            let nright = news.subrange(j, news.len() as int);
            assert(nright[0] == ej);
            assert(nright.drop_first() =~= post);
            assert(entry_kvs(ej, h) == node_kvs(ej.next@, hc));
            assert(node_kvs(nright, h) == entry_kvs(ej, h) + node_kvs(post, h));
            assert(node_kvs(news, h) =~= a + kv_insert(childkvs, key, val) + b);
            // well-formedness
            assert(entry_wf(ej, h));
            assert forall|q: int| 0 <= q < news.len() implies #[trigger] entry_wf(news[q], h) by {
                if q != j {
                    assert(news[q] == olds[q]);
                }
            }
            lemma_entries_wf_from_each(news, h);
            // navigation order
            assert forall|q: int| 0 <= q && q + 1 < news.len() implies all_below(
                #[trigger] entry_kvs(news[q], h),
                news[q + 1].key.ord(),
            ) by {
                if q == j {
                    if j + 1 < olds.len() {
                        assert(news[q + 1] == olds[q + 1]);
                        assert(all_below(kv_insert(childkvs, key, val), olds[j + 1].key.ord()));
                    }
                } else {
                    assert(news[q] == olds[q]);
                    assert(all_below(entry_kvs(olds[q], h), olds[q + 1].key.ord()));
                    if q + 1 == j {
                        assert(news[q + 1].key == olds[j].key);
                    } else {
                        assert(news[q + 1] == olds[q + 1]);
                    }
                }
            }
            assert forall|q: int| 1 <= q < news.len() implies all_at_least(
                #[trigger] entry_kvs(news[q], h),
                news[q].key.ord(),
            ) by {
                if q == j {
                    assert(all_at_least(kv_insert(childkvs, key, val), olds[j].key.ord()));
                    assert(news[q].key == olds[j].key);
                } else {
                    assert(news[q] == olds[q]);
                    assert(all_at_least(entry_kvs(olds[q], h), olds[q].key.ord()));
                }
            }
        },
        Some(tt) => {
            let leftkvs = node_kvs(ej.next@, hc);
            let ukvs = node_kvs(tt.next@, hc);
            let ins = kv_insert(childkvs, key, val);
            assert(news =~= pre + seq![ej, tt] + post);
            lemma_node_kvs_split(news, h, j);
            assert(news.subrange(0, j) =~= pre);
            let nright = news.subrange(j, news.len() as int);
            assert(nright[0] == ej);
            assert(nright.drop_first()[0] == tt);
            assert(nright.drop_first().drop_first() =~= post);
            assert(entry_kvs(ej, h) == leftkvs);
            assert(entry_kvs(tt, h) == ukvs);
            assert(node_kvs(nright.drop_first(), h) == ukvs + node_kvs(post, h));
            assert(node_kvs(nright, h) == leftkvs + (ukvs + node_kvs(post, h)));
            assert(leftkvs + ukvs == ins);
            assert(node_kvs(news, h) =~= a + ins + b);
            // transfer the insertion bounds to the two halves
            assert forall|q: int| 0 <= q < leftkvs.len() implies #[trigger] leftkvs[q]
                == ins[q] by {
                assert(ins == leftkvs + ukvs);
            }
            assert forall|q: int| 0 <= q < ukvs.len() implies #[trigger] ukvs[q] == ins[leftkvs.len()
                + q] by {
                assert(ins == leftkvs + ukvs);
            }
            // well-formedness
            assert(entry_wf(ej, h));
            assert(entry_wf(tt, h));
            assert forall|q: int| 0 <= q < news.len() implies #[trigger] entry_wf(news[q], h) by {
                if q < j {
                    assert(news[q] == olds[q]);
                } else if q > j + 1 {
                    assert(news[q] == olds[q - 1]);
                }
            }
            lemma_entries_wf_from_each(news, h);
            // navigation order
            assert forall|q: int| 0 <= q && q + 1 < news.len() implies all_below(
                #[trigger] entry_kvs(news[q], h),
                news[q + 1].key.ord(),
            ) by {
                if q < j {
                    assert(news[q] == olds[q]);
                    assert(all_below(entry_kvs(olds[q], h), olds[q + 1].key.ord()));
                    if q + 1 == j {
                        assert(news[q + 1].key == olds[j].key);
                    } else {
                        assert(news[q + 1] == olds[q + 1]);
                    }
                } else if q == j {
                    assert(all_below(leftkvs, tt.key.ord()));
                } else if q == j + 1 {
                    if j + 1 < olds.len() {
                        assert(news[q + 1] == olds[j + 1]);
                        assert(all_below(ins, olds[j + 1].key.ord()));
                        assert forall|p: int| 0 <= p < ukvs.len() implies #[trigger] ukvs[p].0.ord()
                            < olds[j + 1].key.ord() by {
                            assert(ukvs[p] == ins[leftkvs.len() + p]);
                        }
                    }
                } else {
                    assert(news[q] == olds[q - 1]);
                    assert(news[q + 1] == olds[q]);
                    assert(all_below(entry_kvs(olds[q - 1], h), olds[q].key.ord()));
                }
            }
            assert forall|q: int| 1 <= q < news.len() implies all_at_least(
                #[trigger] entry_kvs(news[q], h),
                news[q].key.ord(),
            ) by {
                if q < j {
                    assert(news[q] == olds[q]);
                    assert(all_at_least(entry_kvs(olds[q], h), olds[q].key.ord()));
                } else if q == j {
                    assert(all_at_least(ins, olds[j].key.ord()));
                    assert(news[q].key == olds[j].key);
                    assert forall|p: int| 0 <= p < leftkvs.len() implies #[trigger] leftkvs[p].0.ord()
                        >= olds[j].key.ord() by {
                        assert(leftkvs[p] == ins[p]);
                    }
                } else if q == j + 1 {
                    assert(all_at_least(ukvs, tt.key.ord()));
                } else {
                    assert(news[q] == olds[q - 1]);
                    assert(all_at_least(entry_kvs(olds[q - 1], h), olds[q - 1].key.ord()));
                }
            }
        },
    }
}

/// Recursive lookup, navigating by separator keys: at leaf level a linear
/// scan for an exact match, above it a descent into the entry the key
/// belongs to.
fn search<'a, K: TreeKey + Copy, V>(node: &'a Vec<Entry<K, V>>, key: &K, height: usize) -> (r:
    Option<&'a V>)
    requires
        node_wf(node@, height as nat),
        height > 0 ==> node@.len() >= 1,
    ensures
        (match r {
            Some(v) => kv_get(node_kvs(node@, height as nat), key.ord()) == Some(*v),
            None => kv_get(node_kvs(node@, height as nat), key.ord()) is None,
        }),
    decreases height,
{
    let ghost h = height as nat;
    let ghost s = node_kvs(node@, h);
    let ghost id = key.ord();
    proof {
        lemma_node_sorted(node@, h);
        lemma_entries_wf_subrange(node@, h, 0, node@.len() as int);
    }
    if height == 0 {
        proof {
            lemma_leaf_char(node@);
        }
        let mut i: usize = 0;
        while i < node.len()
            invariant
                node_wf(node@, 0),
                height == 0,
                s == node_kvs(node@, 0),
                id == key.ord(),
                i <= node@.len(),
                kv_sorted(s),
                s.len() == node@.len(),
                forall|q: int|
                    0 <= q < node@.len() ==> (#[trigger] node_kvs(node@, 0)[q]).0 == node@[q].key
                        && node@[q].val == Some(node_kvs(node@, 0)[q].1),
                forall|q: int| 0 <= q < i ==> (#[trigger] node@[q].key).ord() != id,
            decreases node@.len() - i,
        {
            match key.key_cmp(&node[i].key) {
                KeyOrdering::Equal => {
                    proof {
                        lemma_kv_get_index(s, i as int);
                    }
                    return node[i].val.as_ref();
                },
                _ => {},
            }
            i += 1;
        }
        proof {
            lemma_kv_contains_exists(s, id);
            lemma_kv_get_is_some(s, id);
            assert(!kv_contains(s, id)) by {
                if exists|q: int| 0 <= q < s.len() && #[trigger] s[q].0.ord() == id {
                    let q = choose|q: int| 0 <= q < s.len() && #[trigger] s[q].0.ord() == id;
                    assert(node@[q].key.ord() == id);
                }
            }
        }
        None
    } else {
        let mut j: usize = 0;
        while j < node.len()
            invariant
                node_wf(node@, h),
                h == height as nat,
                height >= 1,
                id == key.ord(),
                node@.len() >= 1,
                j < node@.len(),
                forall|q: int| 1 <= q <= j ==> id >= (#[trigger] node@[q].key).ord(),
            decreases node@.len() - j,
        {
            let last = j + 1 == node.len();
            let descend = if last {
                true
            } else {
                match key.key_cmp(&node[j + 1].key) {
                    KeyOrdering::Less => true,
                    _ => false,
                }
            };
            if descend {
                proof {
                    lemma_node_get_at(node@, h, j as int, id);
                    lemma_entries_wf_subrange(node@, h, 0, node@.len() as int);
                    assert(entry_wf(node@[j as int], h));
                    assert(entry_kvs(node@[j as int], h) == node_kvs(
                        node@[j as int].next@,
                        (h - 1) as nat,
                    ));
                }
                return search(&node[j].next, key, height - 1);
            }
            j += 1;
        }
        proof {
            assert(false);
        }
        vstd::pervasive::unreached()
    }
}

/// The leftmost key: descend the first entry's chain to leaf level.
fn node_min<'a, K: TreeKey + Copy, V>(node: &'a Vec<Entry<K, V>>, height: usize) -> (r: &'a K)
    requires
        node_wf(node@, height as nat),
        node@.len() >= 1,
    ensures
        node_kvs(node@, height as nat).len() > 0,
        *r == node_kvs(node@, height as nat)[0].0,
    decreases height,
{
    let ghost h = height as nat;
    proof {
        lemma_entries_wf_subrange(node@, h, 0, node@.len() as int);
        assert(entry_wf(node@[0], h));
        lemma_entry_nonempty(node@[0], h);
        assert(node_kvs(node@, h) == entry_kvs(node@[0], h) + node_kvs(node@.drop_first(), h));
        assert(node_kvs(node@, h)[0] == entry_kvs(node@[0], h)[0]);
    }
    if height == 0 {
        &node[0].key
    } else {
        node_min(&node[0].next, height - 1)
    }
}

/// The rightmost key: descend the last entry's chain to leaf level.
fn node_max<'a, K: TreeKey + Copy, V>(node: &'a Vec<Entry<K, V>>, height: usize) -> (r: &'a K)
    requires
        node_wf(node@, height as nat),
        node@.len() >= 1,
    ensures
        node_kvs(node@, height as nat).len() > 0,
        *r == node_kvs(node@, height as nat).last().0,
    decreases height,
{
    let ghost h = height as nat;
    let n = node.len();
    proof {
        lemma_entries_wf_subrange(node@, h, 0, node@.len() as int);
        assert(entry_wf(node@[n - 1], h));
        lemma_entry_nonempty(node@[n - 1], h);
        lemma_node_kvs_split(node@, h, n as int - 1);
        let sub = node@.subrange(n as int - 1, n as int);
        assert(sub[0] == node@[n - 1]);
        assert(sub.drop_first() =~= Seq::<Entry<K, V>>::empty());
        assert(node_kvs(sub.drop_first(), h) =~= Seq::<(K, V)>::empty());
        assert(node_kvs(sub, h) == entry_kvs(sub[0], h) + node_kvs(sub.drop_first(), h));
        assert(node_kvs(sub, h) =~= entry_kvs(node@[n - 1], h));
        assert(node_kvs(node@, h).last() == entry_kvs(node@[n - 1], h).last());
    }
    if height == 0 {
        &node[n - 1].key
    } else {
        node_max(&node[n - 1].next, height - 1)
    }
}

impl<K: TreeKey + Copy, V> BalancedTree<K, V> {
    /// The value stored under `key`; the caller must know the key is present.
    pub fn index(&self, key: &K) -> (r: &V)
        requires
            self.inv(),
            kv_contains(self.kvs(), key.ord()),
        ensures
            kv_get(self.kvs(), key.ord()) == Some(*r),
    {
        proof {
            lemma_kv_get_is_some(self.kvs(), key.ord());
        }
        match self.get(key) {
            Some(v) => v,
            None => vstd::pervasive::unreached(),
        }
    }
}

impl<K: TreeKey + Copy, V> SedgewickMap<K, V> for BalancedTree<K, V> {
    closed spec fn inv(&self) -> bool {
        &&& node_wf(self.root@, self.height as nat)
        &&& self.root@.len() <= M - 1
        &&& (self.root@.len() == 0 ==> self.height == 0)
        &&& self.size as int == node_kvs(self.root@, self.height as nat).len()
        &&& self.height as int <= node_kvs(self.root@, self.height as nat).len()
    }

    closed spec fn size_inv(&self) -> bool {
        self.size as int == node_kvs(self.root@, self.height as nat).len()
    }

    closed spec fn kvs(&self) -> Seq<(K, V)> {
        node_kvs(self.root@, self.height as nat)
    }

    closed spec fn height_opt(&self) -> Option<int> {
        Some(self.height as int)
    }

    proof fn lemma_inv_size_inv(&self) {
    }

    fn new() -> (r: Self) {
        let r = BalancedTree { root: Vec::with_capacity(M), size: 0, height: 0 };
        proof {
            assert(node_kvs(r.root@, 0) =~= Seq::<(K, V)>::empty());
        }
        r
    }

    fn size(&self) -> (r: usize) {
        self.size
    }

    fn get<'a>(&'a self, key: &K) -> (r: Option<&'a V>) {
        if self.is_empty() {
            proof {
                if self.root@.len() > 0 {
                    lemma_node_nonempty(self.root@, self.height as nat);
                }
            }
            None
        } else {
            proof {
                if self.root@.len() == 0 {
                    assert(self.kvs() =~= Seq::<(K, V)>::empty());
                }
            }
            search(&self.root, key, self.height)
        }
    }

    fn put(&mut self, key: K, value: V) {
        let ghost olds = self.kvs();
        let ghost h = self.height as nat;
        proof {
            lemma_node_sorted(self.root@, h);
        }
        match insert(&mut self.root, key, value, self.height) {
            PutResult::Present => {
                proof {
                    lemma_kv_insert_contained(olds, key, value);
                }
            },
            PutResult::NoSplit => {
                proof {
                    lemma_kv_insert_len(olds, key, value);
                }
                self.size = self.size + 1;
            },
            PutResult::Split(u) => {
                proof {
                    lemma_kv_insert_len(olds, key, value);
                }
                let ghost leftkvs = node_kvs(self.root@, h);
                let ghost ukvs = node_kvs(u@, h);
                let sk = self.root[0].key;
                let uk = u[0].key;
                let mut old_root: Vec<Entry<K, V>> = Vec::new();
                core::mem::swap(&mut old_root, &mut self.root);
                let mut t: Vec<Entry<K, V>> = Vec::with_capacity(2);
                t.push(Entry { key: sk, val: None, next: old_root });
                t.push(Entry { key: uk, val: None, next: u });
                proof {
                    let hh = (h + 1) as nat;
                    assert(entry_wf(t@[0], hh));
                    assert(entry_wf(t@[1], hh));
                    assert forall|q: int| 0 <= q < t@.len() implies #[trigger] entry_wf(
                        t@[q],
                        hh,
                    ) by {}
                    lemma_entries_wf_from_each(t@, hh);
                    assert(entry_kvs(t@[0], hh) == leftkvs);
                    assert(entry_kvs(t@[1], hh) == ukvs);
                    assert(t@.drop_first()[0] == t@[1]);
                    assert(t@.drop_first().drop_first() =~= Seq::<Entry<K, V>>::empty());
                    assert(node_kvs(t@.drop_first().drop_first(), hh) =~= Seq::<(K, V)>::empty());
                    assert(node_kvs(t@.drop_first(), hh) == entry_kvs(t@.drop_first()[0], hh)
                        + node_kvs(t@.drop_first().drop_first(), hh));
                    assert(node_kvs(t@.drop_first(), hh) =~= ukvs);
                    assert(node_kvs(t@, hh) == entry_kvs(t@[0], hh) + node_kvs(
                        t@.drop_first(),
                        hh,
                    ));
                    assert(node_kvs(t@, hh) =~= leftkvs + ukvs);
                    assert forall|q: int| 0 <= q && q + 1 < t@.len() implies all_below(
                        #[trigger] entry_kvs(t@[q], hh),
                        t@[q + 1].key.ord(),
                    ) by {
                        assert(all_below(leftkvs, uk.ord()));
                    }
                    assert forall|q: int| 1 <= q < t@.len() implies all_at_least(
                        #[trigger] entry_kvs(t@[q], hh),
                        t@[q].key.ord(),
                    ) by {
                        assert(all_at_least(ukvs, uk.ord()));
                    }
                }
                self.root = t;
                self.height = self.height + 1;
                self.size = self.size + 1;
            },
        }
    }

    fn height(&self) -> (r: Option<usize>) {
        Some(self.height)
    }

    fn min(&self) -> (r: Option<&K>) {
        if self.is_empty() {
            proof {
                if self.root@.len() > 0 {
                    lemma_node_nonempty(self.root@, self.height as nat);
                }
            }
            None
        } else {
            proof {
                if self.root@.len() == 0 {
                    assert(self.kvs() =~= Seq::<(K, V)>::empty());
                }
            }
            Some(node_min(&self.root, self.height))
        }
    }

    fn max(&self) -> (r: Option<&K>) {
        if self.is_empty() {
            proof {
                if self.root@.len() > 0 {
                    lemma_node_nonempty(self.root@, self.height as nat);
                }
            }
            None
        } else {
            proof {
                if self.root@.len() == 0 {
                    assert(self.kvs() =~= Seq::<(K, V)>::empty());
                }
            }
            Some(node_max(&self.root, self.height))
        }
    }
}

impl<K: TreeKey + Copy, V> Default for BalancedTree<K, V> {
    /// An empty tree.
    fn default() -> (r: BalancedTree<K, V>)
        ensures
            r.inv(),
            r.kvs() == Seq::<(K, V)>::empty(),
    {
        SedgewickMap::new()
    }
}

/// Ordering invariant: a well-formed multiway tree's pair sequence lists its
/// keys in strictly increasing order.
pub proof fn lemma_in_order_sorted<K: TreeKey + Copy, V>(t: BalancedTree<K, V>)
    requires
        t.inv(),
    ensures
        kv_sorted(t.kvs()),
{
    lemma_node_sorted(t.root@, t.height as nat);
}

/// Does every leaf-level entry of one entry's subtree sit exactly `h` levels
/// down?
spec fn entry_depth_ok<K: TreeKey, V>(e: Entry<K, V>, h: nat) -> bool
    decreases h, 0int, 0int,
{
    if h == 0 {
        e.next@.len() == 0
    } else {
        e.next@.len() >= 1 && entries_depth_ok(e.next@, (h - 1) as nat)
    }
}

/// Does every leaf-level entry below this node sit exactly `h` levels down?
spec fn entries_depth_ok<K: TreeKey, V>(es: Seq<Entry<K, V>>, h: nat) -> bool
    decreases h, es.len(), 1int,
{
    if es.len() == 0 {
        true
    } else {
        entry_depth_ok(es[0], h) && entries_depth_ok(es.drop_first(), h)
    }
}

impl<K: TreeKey + Copy, V> BalancedTree<K, V> {
    /// Every leaf-level entry is reached from the root by the same number of
    /// internal levels: the tree's height counter.
    pub closed spec fn uniform_leaf_depth(self) -> bool {
        entries_depth_ok(self.root@, self.height as nat)
    }
}

/// Structural well-formedness keeps all leaves at one depth.
proof fn lemma_entries_depth<K: TreeKey, V>(es: Seq<Entry<K, V>>, h: nat)
    requires
        entries_wf(es, h),
    ensures
        entries_depth_ok(es, h),
    decreases h, es.len(), 1int,
{
    if es.len() > 0 {
        assert(entry_wf(es[0], h));
        if h > 0 {
            lemma_entries_depth(es[0].next@, (h - 1) as nat);
        }
        assert(entry_depth_ok(es[0], h));
        lemma_entries_depth(es.drop_first(), h);
    }
}

/// Multiway depth invariant: in a well-formed tree every leaf-level entry is
/// reached by the same number of internal levels from the root.
pub proof fn lemma_uniform_leaf_depth<K: TreeKey + Copy, V>(t: BalancedTree<K, V>)
    requires
        t.inv(),
    ensures
        t.uniform_leaf_depth(),
{
    lemma_entries_depth(t.root@, t.height as nat);
}

/// An empty multiway tree reports height zero by convention: the height is a
/// counter, not a measurement.
pub proof fn lemma_empty_height<K: TreeKey + Copy, V>(t: BalancedTree<K, V>)
    requires
        t.inv(),
        t.kvs().len() == 0,
    ensures
        t.height_opt() == Some(0int),
{
    if t.root@.len() > 0 {
        lemma_node_nonempty(t.root@, t.height as nat);
    }
}

} // verus!
