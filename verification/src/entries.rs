//! Ordered key/value entry sequences: the mathematical model of an
//! insertion-ordered map whose keys are pairwise distinct.

use vstd::prelude::*;

verus! {

/// No key occurs twice in `s`.
pub open spec fn keys_distinct<K, V>(s: Seq<(K, V)>) -> bool {
    forall|i: int, j: int| 0 <= i < j < s.len() ==> s[i].0 != s[j].0
}

/// Some entry of `s` has key `k`.
pub open spec fn has_key<K, V>(s: Seq<(K, V)>, k: K) -> bool {
    exists|i: int| 0 <= i < s.len() && s[i].0 == k
}

/// The position of an entry with key `k` (meaningful when `has_key(s, k)`).
pub open spec fn key_index<K, V>(s: Seq<(K, V)>, k: K) -> int {
    choose|i: int| 0 <= i < s.len() && s[i].0 == k
}

/// The value stored under `k`, if any.
pub open spec fn lookup<K, V>(s: Seq<(K, V)>, k: K) -> Option<V> {
    if has_key(s, k) {
        Some(s[key_index(s, k)].1)
    } else {
        None
    }
}

/// Inserting `(k, v)`: an existing key keeps its position and takes the new
/// value; a new key goes last.
pub open spec fn insert_entry<K, V>(s: Seq<(K, V)>, k: K, v: V) -> Seq<(K, V)> {
    if has_key(s, k) {
        s.update(key_index(s, k), (k, v))
    } else {
        s.push((k, v))
    }
}

/// The map that `s` represents.
pub open spec fn entries_map<K, V>(s: Seq<(K, V)>) -> Map<K, V> {
    Map::new(|k: K| has_key(s, k), |k: K| lookup(s, k).unwrap())
}

/// With distinct keys, the entry found for `k` is the one at any position
/// that holds `k`.
pub proof fn lemma_key_index<K, V>(s: Seq<(K, V)>, i: int)
    requires
        keys_distinct(s),
        0 <= i < s.len(),
    ensures
        has_key(s, s[i].0),
        key_index(s, s[i].0) == i,
        lookup(s, s[i].0) == Some(s[i].1),
{
    assert(has_key(s, s[i].0));
    let j = key_index(s, s[i].0);
    if j != i {
        if j < i {
            assert(s[j].0 != s[i].0);
        } else {
            assert(s[i].0 != s[j].0);
        }
    }
}

/// Insertion keeps keys distinct and does what `entries_map` expects.
pub proof fn lemma_insert_entry<K, V>(s: Seq<(K, V)>, k: K, v: V)
    requires
        keys_distinct(s),
    ensures
        keys_distinct(insert_entry(s, k, v)),
        has_key(insert_entry(s, k, v), k),
        lookup(insert_entry(s, k, v), k) == Some(v),
        forall|k2: K| k2 != k ==> #[trigger] lookup(insert_entry(s, k, v), k2) == lookup(s, k2),
        forall|k2: K| #[trigger] has_key(insert_entry(s, k, v), k2) <==> (has_key(s, k2) || k2 == k),
        entries_map(insert_entry(s, k, v)) == entries_map(s).insert(k, v),
{
    let t = insert_entry(s, k, v);
    if has_key(s, k) {
        let i = key_index(s, k);
        assert(keys_distinct(t));
        lemma_key_index(t, i);
    } else {
        assert forall|a: int, b: int| 0 <= a < b < t.len() implies t[a].0 != t[b].0 by {
            if b == s.len() {
                assert(s[a].0 != k);
            }
        }
        lemma_key_index(t, s.len() as int);
    }
    assert forall|k2: K| #[trigger] has_key(t, k2) <==> (has_key(s, k2) || k2 == k) by {
        if has_key(s, k2) {
            let j = key_index(s, k2);
            assert(t[j].0 == k2 || t[j].0 == k);
        }
        if has_key(t, k2) && k2 != k {
            let j = key_index(t, k2);
            assert(s[j].0 == k2);
        }
    }
    assert forall|k2: K| k2 != k implies #[trigger] lookup(t, k2) == lookup(s, k2) by {
        if has_key(s, k2) {
            let j = key_index(s, k2);
            lemma_key_index(s, j);
            assert(t[j] == s[j]);
            lemma_key_index(t, j);
        }
    }
    assert(entries_map(t) =~= entries_map(s).insert(k, v));
}

/// Every entry with its key and value swapped.
pub open spec fn flip<K, V>(s: Seq<(K, V)>) -> Seq<(V, K)> {
    s.map_values(|e: (K, V)| (e.1, e.0))
}

/// Removing key `k` by shifting the later entries down: the other entries
/// keep their order.
pub open spec fn shift_remove_entry<K, V>(s: Seq<(K, V)>, k: K) -> Seq<(K, V)> {
    if has_key(s, k) {
        s.remove(key_index(s, k))
    } else {
        s
    }
}

/// Neither a key nor a value occurs twice.
pub open spec fn one_to_one<K, V>(s: Seq<(K, V)>) -> bool {
    keys_distinct(s) && keys_distinct(flip(s))
}

/// Flipping twice gives the entries back.
pub proof fn lemma_flip_flip<K, V>(s: Seq<(K, V)>)
    ensures
        flip(flip(s)) == s,
{
    assert(flip(flip(s)) =~= s);
}

/// Removing one entry keeps a sequence one-to-one, and commutes with
/// flipping.
pub proof fn lemma_remove_at<K, V>(s: Seq<(K, V)>, i: int)
    requires
        one_to_one(s),
        0 <= i < s.len(),
    ensures
        one_to_one(s.remove(i)),
        flip(s.remove(i)) == flip(s).remove(i),
        entries_map(s.remove(i)) == entries_map(s).remove(s[i].0),
{
    let t = s.remove(i);
    assert(flip(t) =~= flip(s).remove(i));
    assert(keys_distinct(t)) by {
        assert forall|a: int, b: int| 0 <= a < b < t.len() implies t[a].0 != t[b].0 by {
            let a2 = if a < i { a } else { a + 1 };
            let b2 = if b < i { b } else { b + 1 };
            assert(s[a2].0 != s[b2].0);
        }
    }
    assert(keys_distinct(flip(t))) by {
        assert forall|a: int, b: int| 0 <= a < b < t.len() implies flip(t)[a].0 != flip(t)[b].0 by {
            let a2 = if a < i { a } else { a + 1 };
            let b2 = if b < i { b } else { b + 1 };
            assert(flip(s)[a2].0 != flip(s)[b2].0);
        }
    }
    let k = s[i].0;
    assert forall|k2: K| #[trigger] has_key(t, k2) <==> (has_key(s, k2) && k2 != k) by {
        if has_key(t, k2) {
            let j = key_index(t, k2);
            let j2 = if j < i { j } else { j + 1 };
            assert(s[j2].0 == k2);
            assert(s[j2].0 != s[i].0 || j2 == i);
            if j2 < i {
                assert(s[j2].0 != s[i].0);
            } else {
                assert(s[i].0 != s[j2].0);
            }
        }
        if has_key(s, k2) && k2 != k {
            let j = key_index(s, k2);
            if j < i {
                assert(t[j].0 == k2);
            } else {
                assert(j != i);
                assert(t[j - 1].0 == k2);
            }
        }
    }
    assert forall|k2: K| has_key(t, k2) implies #[trigger] lookup(t, k2) == lookup(s, k2) by {
        let j = key_index(t, k2);
        let j2 = if j < i { j } else { j + 1 };
        lemma_key_index(t, j);
        lemma_key_index(s, j2);
    }
    assert(entries_map(t) =~= entries_map(s).remove(k));
}

/// With distinct keys, the entry at `i` is found again in the flipped
/// sequence by its value.
pub proof fn lemma_flip_index<K, V>(s: Seq<(K, V)>, i: int)
    requires
        one_to_one(s),
        0 <= i < s.len(),
    ensures
        has_key(flip(s), s[i].1),
        key_index(flip(s), s[i].1) == i,
        lookup(flip(s), s[i].1) == Some(s[i].0),
{
    lemma_key_index(flip(s), i);
}

/// In a one-to-one sequence, `k` maps to `v` exactly when `v` maps back
/// to `k` in the flipped sequence.
pub proof fn lemma_flip_map<K, V>(s: Seq<(K, V)>, k: K, v: V)
    requires
        one_to_one(s),
    ensures
        (entries_map(s).contains_key(k) && entries_map(s)[k] == v) <==> (entries_map(
            flip(s),
        ).contains_key(v) && entries_map(flip(s))[v] == k),
{
    if entries_map(s).contains_key(k) && entries_map(s)[k] == v {
        let i = key_index(s, k);
        lemma_key_index(s, i);
        lemma_flip_index(s, i);
    }
    if entries_map(flip(s)).contains_key(v) && entries_map(flip(s))[v] == k {
        let i = key_index(flip(s), v);
        lemma_key_index(flip(s), i);
        lemma_key_index(s, i);
    }
}

/// Appending an entry whose key and value are both new keeps the
/// sequence one-to-one.
pub proof fn lemma_push_fresh<K, V>(s: Seq<(K, V)>, k: K, v: V)
    requires
        one_to_one(s),
        !has_key(s, k),
        !has_key(flip(s), v),
    ensures
        one_to_one(s.push((k, v))),
        flip(s.push((k, v))) == flip(s).push((v, k)),
        insert_entry(s, k, v) == s.push((k, v)),
        insert_entry(flip(s), v, k) == flip(s).push((v, k)),
        entries_map(s.push((k, v))) == entries_map(s).insert(k, v),
{
    let t = s.push((k, v));
    assert(flip(t) =~= flip(s).push((v, k)));
    assert forall|a: int, b: int| 0 <= a < b < t.len() implies t[a].0 != t[b].0 by {
        if b == s.len() {
            assert(s[a].0 != k);
        }
    }
    assert forall|a: int, b: int| 0 <= a < b < t.len() implies flip(t)[a].0 != flip(t)[b].0 by {
        if b == s.len() {
            assert(flip(s)[a].0 != v);
        }
    }
    lemma_insert_entry(s, k, v);
}

} // verus!
