//! The mathematical model shared by all three maps.
//!
//! A map is modelled by its in-order key-value sequence. `kv_sorted` says the
//! keys strictly increase along the sequence; `kv_get` is lookup by key
//! position; `kv_insert` is insertion at the sorted position that keeps the
//! first value when the key is already present. Every public map operation in
//! this crate is specified against these functions.

use vstd::prelude::*;

use crate::key::TreeKey;

verus! {

/// The keys of `s` are strictly increasing.
pub open spec fn kv_sorted<K: TreeKey, V>(s: Seq<(K, V)>) -> bool {
    forall|i: int, j: int|
        #![trigger s[i].0.ord(), s[j].0.ord()]
        0 <= i < j < s.len() ==> s[i].0.ord() < s[j].0.ord()
}

/// Every key of `s` lies strictly below position `b`.
pub open spec fn all_below<K: TreeKey, V>(s: Seq<(K, V)>, b: int) -> bool {
    forall|i: int| 0 <= i < s.len() ==> #[trigger] s[i].0.ord() < b
}

/// Every key of `s` lies strictly above position `b`.
pub open spec fn all_above<K: TreeKey, V>(s: Seq<(K, V)>, b: int) -> bool {
    forall|i: int| 0 <= i < s.len() ==> #[trigger] s[i].0.ord() > b
}

/// Every key of `s` lies at or above position `b`.
pub open spec fn all_at_least<K: TreeKey, V>(s: Seq<(K, V)>, b: int) -> bool {
    forall|i: int| 0 <= i < s.len() ==> #[trigger] s[i].0.ord() >= b
}

/// Does `s` hold a key at position `id`?
pub open spec fn kv_contains<K: TreeKey, V>(s: Seq<(K, V)>, id: int) -> bool
    decreases s.len(),
{
    if s.len() == 0 {
        false
    } else if s[0].0.ord() == id {
        true
    } else {
        kv_contains(s.drop_first(), id)
    }
}

/// The value stored under the first key at position `id`, if any.
pub open spec fn kv_get<K: TreeKey, V>(s: Seq<(K, V)>, id: int) -> Option<V>
    decreases s.len(),
{
    if s.len() == 0 {
        None
    } else if s[0].0.ord() == id {
        Some(s[0].1)
    } else {
        kv_get(s.drop_first(), id)
    }
}

/// Insertion at the sorted position. A key already present keeps its first
/// value: the sequence comes back unchanged.
pub open spec fn kv_insert<K: TreeKey, V>(s: Seq<(K, V)>, k: K, v: V) -> Seq<(K, V)>
    decreases s.len(),
{
    if s.len() == 0 {
        seq![(k, v)]
    } else if k.ord() < s[0].0.ord() {
        seq![(k, v)] + s
    } else if k.ord() == s[0].0.ord() {
        s
    } else {
        seq![s[0]] + kv_insert(s.drop_first(), k, v)
    }
}

/// `kv_contains` agrees with the existence of an index holding the key.
pub proof fn lemma_kv_contains_exists<K: TreeKey, V>(s: Seq<(K, V)>, id: int)
    ensures
        kv_contains(s, id) <==> exists|i: int| 0 <= i < s.len() && #[trigger] s[i].0.ord() == id,
    decreases s.len(),
{
    if s.len() > 0 {
        lemma_kv_contains_exists(s.drop_first(), id);
        if s[0].0.ord() != id {
            if kv_contains(s.drop_first(), id) {
                let i = choose|i: int|
                    0 <= i < s.drop_first().len() && #[trigger] s.drop_first()[i].0.ord() == id;
                assert(s[i + 1].0.ord() == id);
            }
            if exists|i: int| 0 <= i < s.len() && #[trigger] s[i].0.ord() == id {
                let i = choose|i: int| 0 <= i < s.len() && #[trigger] s[i].0.ord() == id;
                assert(s.drop_first()[i - 1].0.ord() == id);
            }
        }
    }
}

/// `kv_get` returns a value exactly when the key is present.
pub proof fn lemma_kv_get_is_some<K: TreeKey, V>(s: Seq<(K, V)>, id: int)
    ensures
        kv_get(s, id) is Some <==> kv_contains(s, id),
    decreases s.len(),
{
    if s.len() > 0 && s[0].0.ord() != id {
        lemma_kv_get_is_some(s.drop_first(), id);
    }
}

/// Membership distributes over concatenation.
pub proof fn lemma_kv_contains_concat<K: TreeKey, V>(s1: Seq<(K, V)>, s2: Seq<(K, V)>, id: int)
    ensures
        kv_contains(s1 + s2, id) == (kv_contains(s1, id) || kv_contains(s2, id)),
    decreases s1.len(),
{
    if s1.len() == 0 {
        assert(s1 + s2 =~= s2);
    } else {
        assert((s1 + s2).drop_first() =~= s1.drop_first() + s2);
        lemma_kv_contains_concat(s1.drop_first(), s2, id);
    }
}

/// Lookup in a concatenation tries the left part first.
pub proof fn lemma_kv_get_concat<K: TreeKey, V>(s1: Seq<(K, V)>, s2: Seq<(K, V)>, id: int)
    ensures
        kv_get(s1 + s2, id) == if kv_contains(s1, id) {
            kv_get(s1, id)
        } else {
            kv_get(s2, id)
        },
    decreases s1.len(),
{
    if s1.len() == 0 {
        assert(s1 + s2 =~= s2);
    } else {
        assert((s1 + s2).drop_first() =~= s1.drop_first() + s2);
        lemma_kv_get_concat(s1.drop_first(), s2, id);
    }
}

/// Keys bounded above stay bounded above after inserting a bounded key.
pub proof fn lemma_kv_insert_below<K: TreeKey, V>(s: Seq<(K, V)>, k: K, v: V, b: int)
    requires
        all_below(s, b),
        k.ord() < b,
    ensures
        all_below(kv_insert(s, k, v), b),
    decreases s.len(),
{
    if s.len() == 0 {
        assert forall|i: int| 0 <= i < kv_insert(s, k, v).len() implies #[trigger] kv_insert(
            s,
            k,
            v,
        )[i].0.ord() < b by {}
    } else if k.ord() < s[0].0.ord() {
        assert forall|i: int| 0 <= i < kv_insert(s, k, v).len() implies #[trigger] kv_insert(
            s,
            k,
            v,
        )[i].0.ord() < b by {
            if i > 0 {
                assert(kv_insert(s, k, v)[i] == s[i - 1]);
            }
        }
    } else if k.ord() == s[0].0.ord() {
    } else {
        assert(forall|i: int|
            0 <= i < s.drop_first().len() ==> #[trigger] s.drop_first()[i].0.ord() < b);
        lemma_kv_insert_below(s.drop_first(), k, v, b);
        assert forall|i: int| 0 <= i < kv_insert(s, k, v).len() implies #[trigger] kv_insert(
            s,
            k,
            v,
        )[i].0.ord() < b by {
            if i > 0 {
                assert(kv_insert(s, k, v)[i] == kv_insert(s.drop_first(), k, v)[i - 1]);
            }
        }
    }
}

/// Keys bounded below stay bounded below after inserting a bounded key.
pub proof fn lemma_kv_insert_above<K: TreeKey, V>(s: Seq<(K, V)>, k: K, v: V, b: int)
    requires
        all_above(s, b),
        k.ord() > b,
    ensures
        all_above(kv_insert(s, k, v), b),
    decreases s.len(),
{
    if s.len() == 0 {
        assert forall|i: int| 0 <= i < kv_insert(s, k, v).len() implies #[trigger] kv_insert(
            s,
            k,
            v,
        )[i].0.ord() > b by {}
    } else if k.ord() < s[0].0.ord() {
        assert forall|i: int| 0 <= i < kv_insert(s, k, v).len() implies #[trigger] kv_insert(
            s,
            k,
            v,
        )[i].0.ord() > b by {
            if i > 0 {
                assert(kv_insert(s, k, v)[i] == s[i - 1]);
            }
        }
    } else if k.ord() == s[0].0.ord() {
    } else {
        assert(forall|i: int|
            0 <= i < s.drop_first().len() ==> #[trigger] s.drop_first()[i].0.ord() > b);
        lemma_kv_insert_above(s.drop_first(), k, v, b);
        assert forall|i: int| 0 <= i < kv_insert(s, k, v).len() implies #[trigger] kv_insert(
            s,
            k,
            v,
        )[i].0.ord() > b by {
            if i > 0 {
                assert(kv_insert(s, k, v)[i] == kv_insert(s.drop_first(), k, v)[i - 1]);
            }
        }
    }
}

/// Inserting a fresh key grows the sequence by one entry; re-inserting a
/// present key leaves the length unchanged.
pub proof fn lemma_kv_insert_len<K: TreeKey, V>(s: Seq<(K, V)>, k: K, v: V)
    requires
        kv_sorted(s),
    ensures
        kv_insert(s, k, v).len() == if kv_contains(s, k.ord()) {
            s.len()
        } else {
            s.len() + 1
        },
    decreases s.len(),
{
    if s.len() == 0 {
    } else if k.ord() < s[0].0.ord() {
        lemma_kv_contains_exists(s, k.ord());
        assert(forall|i: int| 0 <= i < s.len() ==> #[trigger] s[i].0.ord() >= s[0].0.ord());
    } else if k.ord() == s[0].0.ord() {
    } else {
        assert(forall|i: int, j: int|
            #![trigger s.drop_first()[i].0.ord(), s.drop_first()[j].0.ord()]
            0 <= i < j < s.drop_first().len() ==> s.drop_first()[i].0.ord()
                < s.drop_first()[j].0.ord());
        lemma_kv_insert_len(s.drop_first(), k, v);
    }
}

/// Inserting left of a separator only touches the left part.
pub proof fn lemma_kv_insert_prefix<K: TreeKey, V>(
    l: Seq<(K, V)>,
    m: (K, V),
    r: Seq<(K, V)>,
    k: K,
    v: V,
)
    requires
        k.ord() < m.0.ord(),
    ensures
        kv_insert(l + seq![m] + r, k, v) == kv_insert(l, k, v) + seq![m] + r,
    decreases l.len(),
{
    let s = l + seq![m] + r;
    if l.len() == 0 {
        assert(s =~= seq![m] + r);
        assert(s[0] == m);
        assert(kv_insert(s, k, v) =~= kv_insert(l, k, v) + seq![m] + r);
    } else {
        assert(s[0] == l[0]);
        if k.ord() < l[0].0.ord() {
            assert(kv_insert(s, k, v) =~= kv_insert(l, k, v) + seq![m] + r);
        } else if k.ord() == l[0].0.ord() {
            assert(kv_insert(s, k, v) =~= kv_insert(l, k, v) + seq![m] + r);
        } else {
            assert(s.drop_first() =~= l.drop_first() + seq![m] + r);
            lemma_kv_insert_prefix(l.drop_first(), m, r, k, v);
            assert(kv_insert(s, k, v) =~= kv_insert(l, k, v) + seq![m] + r);
        }
    }
}

/// Inserting the separator's own key changes nothing.
pub proof fn lemma_kv_insert_mid<K: TreeKey, V>(
    l: Seq<(K, V)>,
    m: (K, V),
    r: Seq<(K, V)>,
    k: K,
    v: V,
)
    requires
        all_below(l, k.ord()),
        k.ord() == m.0.ord(),
    ensures
        kv_insert(l + seq![m] + r, k, v) == l + seq![m] + r,
    decreases l.len(),
{
    let s = l + seq![m] + r;
    if l.len() == 0 {
        assert(s[0] == m);
    } else {
        assert(s[0] == l[0]);
        assert(l[0].0.ord() < k.ord());
        assert(s.drop_first() =~= l.drop_first() + seq![m] + r);
        assert(forall|i: int|
            0 <= i < l.drop_first().len() ==> #[trigger] l.drop_first()[i].0.ord() < k.ord());
        lemma_kv_insert_mid(l.drop_first(), m, r, k, v);
        assert(kv_insert(s, k, v) =~= s);
    }
}

/// Inserting right of a separator only touches the right part.
pub proof fn lemma_kv_insert_suffix<K: TreeKey, V>(
    l: Seq<(K, V)>,
    m: (K, V),
    r: Seq<(K, V)>,
    k: K,
    v: V,
)
    requires
        all_below(l, k.ord()),
        m.0.ord() < k.ord(),
    ensures
        kv_insert(l + seq![m] + r, k, v) == l + seq![m] + kv_insert(r, k, v),
    decreases l.len(),
{
    let s = l + seq![m] + r;
    if l.len() == 0 {
        assert(s =~= seq![m] + r);
        assert(s[0] == m);
        assert(s.drop_first() =~= r);
        assert(kv_insert(s, k, v) =~= l + seq![m] + kv_insert(r, k, v));
    } else {
        assert(s[0] == l[0]);
        assert(l[0].0.ord() < k.ord());
        assert(s.drop_first() =~= l.drop_first() + seq![m] + r);
        assert(forall|i: int|
            0 <= i < l.drop_first().len() ==> #[trigger] l.drop_first()[i].0.ord() < k.ord());
        lemma_kv_insert_suffix(l.drop_first(), m, r, k, v);
        assert(kv_insert(s, k, v) =~= l + seq![m] + kv_insert(r, k, v));
    }
}

/// Insertion keeps the keys sorted.
pub proof fn lemma_kv_insert_sorted<K: TreeKey, V>(s: Seq<(K, V)>, k: K, v: V)
    requires
        kv_sorted(s),
    ensures
        kv_sorted(kv_insert(s, k, v)),
    decreases s.len(),
{
    let t = kv_insert(s, k, v);
    if s.len() == 0 {
    } else if k.ord() < s[0].0.ord() {
        assert forall|i: int, j: int|
            #![trigger t[i].0.ord(), t[j].0.ord()]
            0 <= i < j < t.len() implies t[i].0.ord() < t[j].0.ord() by {
            if i > 0 {
                assert(t[i] == s[i - 1]);
            }
            assert(t[j] == s[j - 1]);
            if i > 0 {
                assert(s[i - 1].0.ord() < s[j - 1].0.ord());
            } else {
                if j == 1 {
                } else {
                    assert(s[0].0.ord() < s[j - 1].0.ord());
                }
            }
        }
    } else if k.ord() == s[0].0.ord() {
    } else {
        assert(forall|i: int, j: int|
            #![trigger s.drop_first()[i].0.ord(), s.drop_first()[j].0.ord()]
            0 <= i < j < s.drop_first().len() ==> s.drop_first()[i].0.ord()
                < s.drop_first()[j].0.ord());
        lemma_kv_insert_sorted(s.drop_first(), k, v);
        let t2 = kv_insert(s.drop_first(), k, v);
        assert(t =~= seq![s[0]] + t2);
        assert(forall|i: int|
            0 <= i < s.drop_first().len() ==> #[trigger] s.drop_first()[i].0.ord()
                > s[0].0.ord());
        assert forall|i: int, j: int|
            #![trigger t[i].0.ord(), t[j].0.ord()]
            0 <= i < j < t.len() implies t[i].0.ord() < t[j].0.ord() by {
            if i > 0 {
                assert(t[i] == t2[i - 1]);
                assert(t[j] == t2[j - 1]);
            } else {
                assert(t[0] == s[0]);
                assert(t[j] == t2[j - 1]);
                lemma_kv_insert_lower_bound(s.drop_first(), k, v, s[0].0.ord(), j - 1);
            }
        }
    }
}

/// Every entry of an insertion result either comes from the sequence or is the
/// inserted pair; used to carry a strict lower bound through `kv_insert`.
proof fn lemma_kv_insert_lower_bound<K: TreeKey, V>(s: Seq<(K, V)>, k: K, v: V, b: int, i: int)
    requires
        all_above(s, b),
        k.ord() > b,
        0 <= i < kv_insert(s, k, v).len(),
    ensures
        kv_insert(s, k, v)[i].0.ord() > b,
{
    lemma_kv_insert_above(s, k, v, b);
}

/// Looking a key up after inserting it: a fresh key maps to the new value, a
/// key that was already present keeps its first value, and every other key is
/// untouched.
pub proof fn lemma_kv_insert_get<K: TreeKey, V>(s: Seq<(K, V)>, k: K, v: V, id: int)
    requires
        kv_sorted(s),
    ensures
        kv_get(kv_insert(s, k, v), id) == if id == k.ord() {
            if kv_contains(s, id) {
                kv_get(s, id)
            } else {
                Some(v)
            }
        } else {
            kv_get(s, id)
        },
    decreases s.len(),
{
    let t = kv_insert(s, k, v);
    if s.len() == 0 {
        assert(t =~= seq![(k, v)]);
        assert(t.drop_first() =~= s);
    } else if k.ord() < s[0].0.ord() {
        assert(t =~= seq![(k, v)] + s);
        assert(t.drop_first() =~= s);
        if id == k.ord() {
            lemma_kv_contains_exists(s, id);
            assert(forall|i: int| 0 <= i < s.len() ==> #[trigger] s[i].0.ord() >= s[0].0.ord());
        }
    } else if k.ord() == s[0].0.ord() {
    } else {
        assert(forall|i: int, j: int|
            #![trigger s.drop_first()[i].0.ord(), s.drop_first()[j].0.ord()]
            0 <= i < j < s.drop_first().len() ==> s.drop_first()[i].0.ord()
                < s.drop_first()[j].0.ord());
        lemma_kv_insert_get(s.drop_first(), k, v, id);
        let t2 = kv_insert(s.drop_first(), k, v);
        assert(t =~= seq![s[0]] + t2);
        assert(t[0] == s[0]);
        assert(t.drop_first() =~= t2);
    }
}

/// A sorted splice: sorted parts separated by a middle entry that bounds them.
pub proof fn lemma_sorted_concat<K: TreeKey, V>(l: Seq<(K, V)>, m: (K, V), r: Seq<(K, V)>)
    requires
        kv_sorted(l),
        kv_sorted(r),
        all_below(l, m.0.ord()),
        all_above(r, m.0.ord()),
    ensures
        kv_sorted(l + seq![m] + r),
{
    let s = l + seq![m] + r;
    assert forall|i: int, j: int|
        #![trigger s[i].0.ord(), s[j].0.ord()]
        0 <= i < j < s.len() implies s[i].0.ord() < s[j].0.ord() by {
        if i < l.len() {
            assert(s[i] == l[i]);
        } else if i == l.len() {
            assert(s[i] == m);
        } else {
            assert(s[i] == r[i - l.len() - 1]);
        }
        if j < l.len() {
            assert(s[j] == l[j]);
        } else if j == l.len() {
            assert(s[j] == m);
        } else {
            assert(s[j] == r[j - l.len() - 1]);
        }
    }
}

/// Keys bounded from below stay so after inserting a bounded key.
pub proof fn lemma_kv_insert_at_least<K: TreeKey, V>(s: Seq<(K, V)>, k: K, v: V, b: int)
    requires
        all_at_least(s, b),
        k.ord() >= b,
    ensures
        all_at_least(kv_insert(s, k, v), b),
    decreases s.len(),
{
    let t = kv_insert(s, k, v);
    if s.len() == 0 {
        assert forall|i: int| 0 <= i < t.len() implies #[trigger] t[i].0.ord() >= b by {}
    } else if k.ord() < s[0].0.ord() {
        assert forall|i: int| 0 <= i < t.len() implies #[trigger] t[i].0.ord() >= b by {
            if i > 0 {
                assert(t[i] == s[i - 1]);
            }
        }
    } else if k.ord() == s[0].0.ord() {
    } else {
        assert(forall|i: int|
            0 <= i < s.drop_first().len() ==> #[trigger] s.drop_first()[i].0.ord() >= b);
        lemma_kv_insert_at_least(s.drop_first(), k, v, b);
        assert forall|i: int| 0 <= i < t.len() implies #[trigger] t[i].0.ord() >= b by {
            if i > 0 {
                assert(t[i] == kv_insert(s.drop_first(), k, v)[i - 1]);
            }
        }
    }
}

/// Insertion into the middle region of a three-part concatenation: all of `a`
/// sits below the key and all of `b` above it, so only `mid` changes.
pub proof fn lemma_kv_insert_infix<K: TreeKey, V>(
    a: Seq<(K, V)>,
    mid: Seq<(K, V)>,
    b: Seq<(K, V)>,
    k: K,
    v: V,
)
    requires
        all_below(a, k.ord()),
        b.len() > 0 ==> k.ord() < b[0].0.ord(),
    ensures
        kv_insert(a + mid + b, k, v) == a + kv_insert(mid, k, v) + b,
    decreases a.len(), mid.len(),
{
    let s = a + mid + b;
    if a.len() > 0 {
        assert(s[0] == a[0]);
        assert(a[0].0.ord() < k.ord());
        assert(s.drop_first() =~= a.drop_first() + mid + b);
        assert(forall|i: int|
            0 <= i < a.drop_first().len() ==> #[trigger] a.drop_first()[i].0.ord() < k.ord());
        lemma_kv_insert_infix(a.drop_first(), mid, b, k, v);
        assert(kv_insert(s, k, v) =~= a + kv_insert(mid, k, v) + b);
    } else if mid.len() == 0 {
        assert(s =~= b);
        if b.len() == 0 {
            assert(kv_insert(s, k, v) =~= a + kv_insert(mid, k, v) + b);
        } else {
            assert(kv_insert(s, k, v) == seq![(k, v)] + b);
            assert(kv_insert(s, k, v) =~= a + kv_insert(mid, k, v) + b);
        }
    } else {
        assert(s[0] == mid[0]);
        if k.ord() < mid[0].0.ord() {
            assert(kv_insert(s, k, v) =~= a + kv_insert(mid, k, v) + b);
        } else if k.ord() == mid[0].0.ord() {
            assert(kv_insert(s, k, v) =~= a + kv_insert(mid, k, v) + b);
        } else {
            assert(s.drop_first() =~= a + mid.drop_first() + b);
            lemma_kv_insert_infix(a, mid.drop_first(), b, k, v);
            assert(kv_insert(s, k, v) =~= a + kv_insert(mid, k, v) + b);
        }
    }
}

/// Re-inserting a present key changes nothing at all.
pub proof fn lemma_kv_insert_contained<K: TreeKey, V>(s: Seq<(K, V)>, k: K, v: V)
    requires
        kv_sorted(s),
        kv_contains(s, k.ord()),
    ensures
        kv_insert(s, k, v) == s,
    decreases s.len(),
{
    lemma_kv_contains_exists(s, k.ord());
    if s.len() > 0 && k.ord() != s[0].0.ord() {
        let i = choose|i: int| 0 <= i < s.len() && #[trigger] s[i].0.ord() == k.ord();
        assert(s[i].0.ord() > s[0].0.ord());
        assert(s.drop_first()[i - 1].0.ord() == k.ord());
        assert(forall|i: int, j: int|
            #![trigger s.drop_first()[i].0.ord(), s.drop_first()[j].0.ord()]
            0 <= i < j < s.drop_first().len() ==> s.drop_first()[i].0.ord()
                < s.drop_first()[j].0.ord());
        lemma_kv_contains_exists(s.drop_first(), k.ord());
        lemma_kv_insert_contained(s.drop_first(), k, v);
        assert(kv_insert(s, k, v) =~= s);
    }
}

/// Looking up the key stored at an index of a sorted sequence finds exactly
/// that entry's value.
pub proof fn lemma_kv_get_index<K: TreeKey, V>(s: Seq<(K, V)>, i: int)
    requires
        kv_sorted(s),
        0 <= i < s.len(),
    ensures
        kv_get(s, s[i].0.ord()) == Some(s[i].1),
    decreases s.len(),
{
    if i > 0 {
        assert(s[0].0.ord() < s[i].0.ord());
        assert(forall|i: int, j: int|
            #![trigger s.drop_first()[i].0.ord(), s.drop_first()[j].0.ord()]
            0 <= i < j < s.drop_first().len() ==> s.drop_first()[i].0.ord()
                < s.drop_first()[j].0.ord());
        lemma_kv_get_index(s.drop_first(), i - 1);
        assert(s.drop_first()[i - 1] == s[i]);
    }
}

/// Two sorted parts separated by a bound concatenate to a sorted sequence.
pub proof fn lemma_sorted_parts<K: TreeKey, V>(a: Seq<(K, V)>, b: Seq<(K, V)>, m: int)
    requires
        kv_sorted(a),
        kv_sorted(b),
        all_below(a, m),
        all_at_least(b, m),
    ensures
        kv_sorted(a + b),
{
    let s = a + b;
    assert forall|i: int, j: int|
        #![trigger s[i].0.ord(), s[j].0.ord()]
        0 <= i < j < s.len() implies s[i].0.ord() < s[j].0.ord() by {
        if i < a.len() {
            assert(s[i] == a[i]);
        } else {
            assert(s[i] == b[i - a.len()]);
        }
        if j < a.len() {
            assert(s[j] == a[j]);
        } else {
            assert(s[j] == b[j - a.len()]);
        }
    }
}

/// Keys below a bound are absent above it: a bounded sequence cannot contain
/// a key at or past the bound.
pub proof fn lemma_below_not_contains<K: TreeKey, V>(s: Seq<(K, V)>, b: int, id: int)
    requires
        all_below(s, b),
        id >= b,
    ensures
        !kv_contains(s, id),
{
    lemma_kv_contains_exists(s, id);
}

/// Keys above a bound are absent at or below it.
pub proof fn lemma_above_not_contains<K: TreeKey, V>(s: Seq<(K, V)>, b: int, id: int)
    requires
        all_above(s, b),
        id <= b,
    ensures
        !kv_contains(s, id),
{
    lemma_kv_contains_exists(s, id);
}

} // verus!
