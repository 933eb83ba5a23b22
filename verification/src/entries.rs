//! A mathematical model of an insertion-ordered map: a sequence of
//! `(key, value)` entries in which no key occurs twice.

use vstd::prelude::*;

verus! {

/// Whether some entry of `s` has the key `k`.
pub open spec fn has_key<K, V>(s: Seq<(K, V)>, k: K) -> bool {
    exists|i: int| 0 <= i < s.len() && #[trigger] s[i].0 == k
}

/// The position of an entry with the key `k` (meaningful when `has_key(s, k)`).
pub open spec fn key_index<K, V>(s: Seq<(K, V)>, k: K) -> int {
    choose|i: int| 0 <= i < s.len() && #[trigger] s[i].0 == k
}

/// No key occurs in two entries.
pub open spec fn keys_distinct<K, V>(s: Seq<(K, V)>) -> bool {
    forall|i: int, j: int|
        0 <= i < s.len() && 0 <= j < s.len() && i != j ==> #[trigger] s[i].0 != #[trigger] s[j].0
}

/// The value stored under `k`, or `d` when there is none.
pub open spec fn value_or<K, V>(s: Seq<(K, V)>, k: K, d: V) -> V {
    if has_key(s, k) {
        s[key_index(s, k)].1
    } else {
        d
    }
}

/// Stores `v` under `k`: an existing entry keeps its place, a new one goes last.
pub open spec fn upsert<K, V>(s: Seq<(K, V)>, k: K, v: V) -> Seq<(K, V)> {
    if has_key(s, k) {
        s.update(key_index(s, k), (k, v))
    } else {
        s.push((k, v))
    }
}

/// Removes the entry with key `k`, shifting the later entries down.
pub open spec fn remove_key<K, V>(s: Seq<(K, V)>, k: K) -> Seq<(K, V)> {
    if has_key(s, k) {
        s.remove(key_index(s, k))
    } else {
        s
    }
}

/// The entries with every value replaced by its view.
pub open spec fn view_entries<K, V: View>(s: Seq<(K, V)>) -> Seq<(K, V::V)> {
    Seq::new(s.len(), |i: int| (s[i].0, s[i].1@))
}

/// The values of the entries, in order.
pub open spec fn entry_values<K, V>(s: Seq<(K, V)>) -> Seq<V> {
    Seq::new(s.len(), |i: int| s[i].1)
}

pub proof fn lemma_key_index_unique<K, V>(s: Seq<(K, V)>, k: K, i: int)
    requires
        keys_distinct(s),
        0 <= i < s.len(),
        s[i].0 == k,
    ensures
        has_key(s, k),
        key_index(s, k) == i,
{
    assert(s[i].0 == k);
    let j = key_index(s, k);
    assert(0 <= j < s.len() && s[j].0 == k);
}

pub proof fn lemma_upsert<K, V>(s: Seq<(K, V)>, k: K, v: V)
    requires
        keys_distinct(s),
    ensures
        keys_distinct(upsert(s, k, v)),
        has_key(upsert(s, k, v), k),
        key_index(upsert(s, k, v), k) == (if has_key(s, k) {
            key_index(s, k)
        } else {
            s.len() as int
        }),
        upsert(s, k, v).len() == (if has_key(s, k) {
            s.len()
        } else {
            s.len() + 1
        }),
        value_or(upsert(s, k, v), k, v) == v,
        forall|d: V| value_or(upsert(s, k, v), k, d) == v,
        forall|k2: K| k2 != k ==> has_key(upsert(s, k, v), k2) == has_key(s, k2),
        forall|k2: K, d: V| k2 != k ==> value_or(upsert(s, k, v), k2, d) == value_or(s, k2, d),
{
    let t = upsert(s, k, v);
    if has_key(s, k) {
        let i = key_index(s, k);
        assert(t[i].0 == k);
        lemma_key_index_unique(t, k, i);
    } else {
        assert forall|a: int, b: int|
            0 <= a < t.len() && 0 <= b < t.len() && a != b implies #[trigger] t[a].0
            != #[trigger] t[b].0 by {
            if a < s.len() && b < s.len() {
                assert(s[a].0 != s[b].0);
            } else if a < s.len() {
                assert(s[a].0 != k);
            } else {
                assert(s[b].0 != k);
            }
        }
        assert(t[s.len() as int].0 == k);
        lemma_key_index_unique(t, k, s.len() as int);
    }
    assert forall|k2: K| k2 != k implies has_key(t, k2) == has_key(s, k2) by {
        if has_key(s, k2) {
            let j = key_index(s, k2);
            assert(t[j].0 == k2);
        }
        if has_key(t, k2) {
            let j = key_index(t, k2);
            assert(s[j].0 == k2);
        }
    }
    assert forall|k2: K, d: V| k2 != k implies value_or(t, k2, d) == value_or(s, k2, d) by {
        if has_key(s, k2) {
            let j = key_index(s, k2);
            assert(t[j].0 == k2);
            lemma_key_index_unique(t, k2, j);
        }
    }
}

/// Storing twice under one key is storing the second value.
pub proof fn lemma_upsert_upsert<K, V>(s: Seq<(K, V)>, k: K, v1: V, v2: V)
    requires
        keys_distinct(s),
    ensures
        upsert(upsert(s, k, v1), k, v2) == upsert(s, k, v2),
{
    lemma_upsert(s, k, v1);
    let t = upsert(s, k, v1);
    if has_key(s, k) {
        assert(upsert(t, k, v2) =~= upsert(s, k, v2));
    } else {
        assert(upsert(t, k, v2) =~= upsert(s, k, v2));
    }
}

pub proof fn lemma_view_entries<K, V: View>(s: Seq<(K, V)>)
    requires
        keys_distinct(s),
    ensures
        keys_distinct(view_entries(s)),
        view_entries(s).len() == s.len(),
        forall|k: K| has_key(view_entries(s), k) == has_key(s, k),
        forall|k: K| has_key(s, k) ==> key_index(view_entries(s), k) == key_index(s, k),
        forall|k: K, d: V| value_or(view_entries(s), k, d@) == value_or(s, k, d)@,
{
    let t = view_entries(s);
    assert forall|a: int, b: int|
        0 <= a < t.len() && 0 <= b < t.len() && a != b implies #[trigger] t[a].0
        != #[trigger] t[b].0 by {
        assert(s[a].0 != s[b].0);
    }
    assert forall|k: K| has_key(t, k) == has_key(s, k) by {
        if has_key(s, k) {
            let j = key_index(s, k);
            assert(t[j].0 == k);
        }
        if has_key(t, k) {
            let j = key_index(t, k);
            assert(s[j].0 == k);
        }
    }
    assert forall|k: K| has_key(s, k) implies key_index(t, k) == key_index(s, k) by {
        let j = key_index(s, k);
        assert(t[j].0 == k);
        lemma_key_index_unique(t, k, j);
    }
    assert forall|k: K, d: V| value_or(t, k, d@) == value_or(s, k, d)@ by {
        if has_key(s, k) {
            let j = key_index(s, k);
            assert(t[j].0 == k);
            lemma_key_index_unique(t, k, j);
        }
    }
}

/// Taking views commutes with storing under a key.
pub proof fn lemma_view_upsert<K, V: View>(s: Seq<(K, V)>, k: K)
    requires
        keys_distinct(s),
    ensures
        forall|v: V| #[trigger] view_entries(upsert(s, k, v)) == upsert(view_entries(s), k, v@),
{
    lemma_view_entries(s);
    assert forall|v: V| #[trigger] view_entries(upsert(s, k, v)) == upsert(view_entries(s), k, v@) by {
        assert(view_entries(upsert(s, k, v)) =~= upsert(view_entries(s), k, v@));
    }
}

/// Two entry sequences with the same keys at the same positions.
pub open spec fn same_keys<K, V, W>(a: Seq<(K, V)>, b: Seq<(K, W)>) -> bool {
    &&& a.len() == b.len()
    &&& forall|i: int| 0 <= i < a.len() ==> #[trigger] a[i].0 == b[i].0
}

pub proof fn lemma_same_keys<K, V, W>(a: Seq<(K, V)>, b: Seq<(K, W)>)
    requires
        keys_distinct(a),
        same_keys(a, b),
    ensures
        keys_distinct(b),
        forall|k: K| has_key(b, k) == has_key(a, k),
        forall|k: K| has_key(a, k) ==> key_index(b, k) == key_index(a, k),
{
    assert forall|x: int, y: int|
        0 <= x < b.len() && 0 <= y < b.len() && x != y implies #[trigger] b[x].0
        != #[trigger] b[y].0 by {
        assert(a[x].0 == b[x].0);
        assert(a[y].0 == b[y].0);
    }
    assert forall|k: K| has_key(b, k) == has_key(a, k) by {
        if has_key(a, k) {
            let j = key_index(a, k);
            assert(a[j].0 == b[j].0);
        }
        if has_key(b, k) {
            let j = key_index(b, k);
            assert(a[j].0 == b[j].0);
        }
    }
    assert forall|k: K| has_key(a, k) implies key_index(b, k) == key_index(a, k) by {
        let j = key_index(a, k);
        assert(a[j].0 == b[j].0);
        lemma_key_index_unique(b, k, j);
    }
}

/// Taking views commutes with removing a key.
pub proof fn lemma_view_remove<K, V: View>(s: Seq<(K, V)>, k: K)
    requires
        keys_distinct(s),
    ensures
        view_entries(remove_key(s, k)) == remove_key(view_entries(s), k),
{
    lemma_view_entries(s);
    assert(view_entries(remove_key(s, k)) =~= remove_key(view_entries(s), k));
}

/// Removing a key keeps the other entries, their keys distinct.
pub proof fn lemma_remove_key<K, V>(s: Seq<(K, V)>, k: K)
    requires
        keys_distinct(s),
    ensures
        keys_distinct(remove_key(s, k)),
        !has_key(remove_key(s, k), k),
        forall|k2: K| k2 != k ==> has_key(remove_key(s, k), k2) == has_key(s, k2),
        forall|k2: K, d: V| k2 != k ==> value_or(remove_key(s, k), k2, d) == value_or(s, k2, d),
{
    let t = remove_key(s, k);
    if has_key(s, k) {
        let i = key_index(s, k);
        assert forall|a: int, b: int|
            0 <= a < t.len() && 0 <= b < t.len() && a != b implies #[trigger] t[a].0
            != #[trigger] t[b].0 by {
            let a2 = if a < i { a } else { a + 1 };
            let b2 = if b < i { b } else { b + 1 };
            assert(t[a] == s[a2]);
            assert(t[b] == s[b2]);
        }
        if has_key(t, k) {
            let j = key_index(t, k);
            let j2 = if j < i { j } else { j + 1 };
            assert(t[j] == s[j2]);
        }
        assert forall|k2: K| k2 != k implies has_key(t, k2) == has_key(s, k2) by {
            if has_key(s, k2) {
                let j = key_index(s, k2);
                assert(j != i);
                let j2 = if j < i { j } else { j - 1 };
                assert(t[j2] == s[j]);
            }
            if has_key(t, k2) {
                let j = key_index(t, k2);
                let j2 = if j < i { j } else { j + 1 };
                assert(t[j] == s[j2]);
            }
        }
        assert forall|k2: K, d: V| k2 != k implies value_or(t, k2, d) == value_or(s, k2, d) by {
            if has_key(s, k2) {
                let j = key_index(s, k2);
                assert(j != i);
                let j2 = if j < i { j } else { j - 1 };
                assert(t[j2] == s[j]);
                assert(t[j2].0 == k2);
                lemma_key_index_unique(t, k2, j2);
            }
        }
    }
}

} // verus!
