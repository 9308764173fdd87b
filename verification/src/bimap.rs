//! A bidirectional map between indices (`u64`, the left side) and names
//! (`String`, the right side), made of two insertion-ordered `IndexMap`s.
//!
//! The two directions are always inverse to each other: inserting a pair
//! displaces the pairs that held its left or its right value, and removal
//! keeps the order of the remaining pairs.

use crate::entries::{
    entries_map, flip, has_key, insert_entry, key_index, keys_distinct, lemma_flip_flip,
    lemma_flip_index, lemma_flip_map, lemma_key_index, lemma_push_fresh, lemma_remove_at, lookup,
    one_to_one, shift_remove_entry,
};
use crate::index_map::{
    left_clone, left_contains_key, left_entries_of, left_eq, left_get, left_insert, left_iter,
    left_new, left_shift_remove, left_with_capacity, right_clone, right_contains_key,
    right_entries_of, right_get, right_insert, right_new, right_shift_remove, right_with_capacity,
};
use indexmap::IndexMap;
use vstd::prelude::*;

verus! {

/// A bidirectional map between `u64` values (left) and `String`s (right):
/// each left value is paired with at most one right value and the other
/// way round, and the pairs keep their insertion order.
#[derive(Debug)]
pub struct BiMap {
    ltr: IndexMap<u64, String>,
    rtl: IndexMap<String, u64>,
}

/// The pairs after inserting `(l, r)`: the pair that held `l` and the pair
/// that held `r`, if any, are removed (the others keep their order) and
/// `(l, r)` goes last.
pub open spec fn pair_inserted(s: Seq<(u64, Seq<char>)>, l: u64, r: Seq<char>) -> Seq<(u64, Seq<char>)> {
    flip(shift_remove_entry(flip(shift_remove_entry(s, l)), r)).push((l, r))
}

/// The pairs after inserting every pair of `pairs`, in order.
pub open spec fn pairs_inserted(s: Seq<(u64, Seq<char>)>, pairs: Seq<(u64, Seq<char>)>) -> Seq<
    (u64, Seq<char>),
>
    decreases pairs.len(),
{
    if pairs.len() == 0 {
        s
    } else {
        pairs_inserted(pair_inserted(s, pairs[0].0, pairs[0].1), pairs.drop_first())
    }
}

/// Removing the pair of `l` from one-to-one pairs, in both directions.
proof fn lemma_remove_pair(s: Seq<(u64, Seq<char>)>, l: u64)
    requires
        one_to_one(s),
    ensures
        one_to_one(shift_remove_entry(s, l)),
        !has_key(shift_remove_entry(s, l), l),
        entries_map(shift_remove_entry(s, l)) == entries_map(s).remove(l),
        has_key(s, l) ==> shift_remove_entry(flip(s), s[key_index(s, l)].1) == flip(
            shift_remove_entry(s, l),
        ),
        !has_key(s, l) ==> shift_remove_entry(s, l) == s,
{
    if has_key(s, l) {
        let i = key_index(s, l);
        lemma_key_index(s, i);
        lemma_flip_index(s, i);
        lemma_remove_at(s, i);
    } else {
        assert(entries_map(s) =~= entries_map(s).remove(l));
    }
}

/// Removing the pair of right value `r` from one-to-one pairs, in both
/// directions.
proof fn lemma_remove_right(s: Seq<(u64, Seq<char>)>, r: Seq<char>)
    requires
        one_to_one(s),
    ensures
        one_to_one(flip(shift_remove_entry(flip(s), r))),
        !has_key(flip(flip(shift_remove_entry(flip(s), r))), r),
        has_key(flip(s), r) ==> shift_remove_entry(s, flip(s)[key_index(flip(s), r)].1) == flip(
            shift_remove_entry(flip(s), r),
        ),
        has_key(flip(s), r) ==> entries_map(flip(shift_remove_entry(flip(s), r))) == entries_map(
            s,
        ).remove(flip(s)[key_index(flip(s), r)].1),
        has_key(flip(s), r) ==> lookup(flip(s), r) == Some(flip(s)[key_index(flip(s), r)].1),
        !has_key(flip(s), r) ==> flip(shift_remove_entry(flip(s), r)) == s,
{
    lemma_flip_flip(s);
    let fs = flip(s);
    assert(one_to_one(fs));
    lemma_remove_pair_generic(fs, r);
    if has_key(fs, r) {
        let j = key_index(fs, r);
        lemma_key_index(fs, j);
        assert(fs[j].1 == s[j].0);
        lemma_key_index(s, j);
        lemma_remove_at(s, j);
        lemma_flip_flip(s.remove(j));
        assert(flip(fs.remove(j)) =~= s.remove(j));
    }
    let t = flip(shift_remove_entry(fs, r));
    lemma_flip_flip(shift_remove_entry(fs, r));
}

/// Removing key `k` from a one-to-one sequence of any types.
proof fn lemma_remove_pair_generic<K, V>(s: Seq<(K, V)>, k: K)
    requires
        one_to_one(s),
    ensures
        one_to_one(shift_remove_entry(s, k)),
        !has_key(shift_remove_entry(s, k), k),
        has_key(s, k) ==> shift_remove_entry(s, k) == s.remove(key_index(s, k)),
{
    if has_key(s, k) {
        let i = key_index(s, k);
        lemma_key_index(s, i);
        lemma_remove_at(s, i);
        assert(!entries_map(s.remove(i)).contains_key(k));
    }
}

impl BiMap {
    /// The pairs, in insertion order.
    pub closed spec fn left_entries(&self) -> Seq<(u64, Seq<char>)> {
        left_entries_of(self.ltr)
    }

    /// The pairs seen from the right, in insertion order.
    pub closed spec fn right_entries(&self) -> Seq<(Seq<char>, u64)> {
        right_entries_of(self.rtl)
    }

    /// The left-to-right direction as a map.
    pub open spec fn left_map(&self) -> Map<u64, Seq<char>> {
        entries_map(self.left_entries())
    }

    /// The right-to-left direction as a map.
    pub open spec fn right_map(&self) -> Map<Seq<char>, u64> {
        entries_map(self.right_entries())
    }

    /// The type's invariant: no left and no right value occurs twice, and
    /// the right-to-left direction holds the same pairs, in the same order.
    #[verifier::type_invariant]
    pub open spec fn wf(&self) -> bool {
        &&& one_to_one(self.left_entries())
        &&& self.right_entries() == flip(self.left_entries())
    }

    /// `l` and `r` are paired in both directions.
    pub open spec fn paired(&self, l: u64, r: Seq<char>) -> bool {
        &&& self.left_map().contains_key(l)
        &&& self.left_map()[l] == r
        &&& self.right_map().contains_key(r)
        &&& self.right_map()[r] == l
    }

    /// Creates an empty map.
    pub fn new() -> (m: Self)
        ensures
            m.wf(),
            m.left_entries() == Seq::<(u64, Seq<char>)>::empty(),
    {
        let ltr = left_new();
        let rtl = right_new();
        proof {
            assert(flip(left_entries_of(ltr)) =~= right_entries_of(rtl));
        }
        BiMap { ltr, rtl }
    }

    /// Creates an empty map with room for `capacity` pairs.
    pub fn with_capacity(capacity: usize) -> (m: Self)
        ensures
            m.wf(),
            m.left_entries() == Seq::<(u64, Seq<char>)>::empty(),
    {
        let ltr = left_with_capacity(capacity);
        let rtl = right_with_capacity(capacity);
        proof {
            assert(flip(left_entries_of(ltr)) =~= right_entries_of(rtl));
        }
        BiMap { ltr, rtl }
    }

    /// Looks up the right value given a left value.
    pub fn get_by_left(&self, left: &u64) -> (r: Option<&String>)
        ensures
            r is Some == self.left_map().contains_key(*left),
            r matches Some(v) ==> v@ == self.left_map()[*left],
    {
        left_get(&self.ltr, left)
    }

    /// Whether the given left value is contained in the map.
    pub fn contains_left(&self, left: &u64) -> (r: bool)
        ensures
            r == self.left_map().contains_key(*left),
    {
        left_contains_key(&self.ltr, left)
    }

    /// Looks up a left value given a right value.
    pub fn get_by_right(&self, right: &str) -> (r: Option<&u64>)
        ensures
            r is Some == self.right_map().contains_key(right@),
            r matches Some(v) ==> *v == self.right_map()[right@],
    {
        right_get(&self.rtl, right)
    }

    /// Whether the given right value is contained in the map.
    pub fn contains_right(&self, right: &str) -> (r: bool)
        ensures
            r == self.right_map().contains_key(right@),
    {
        right_contains_key(&self.rtl, right)
    }

    /// Inserts the pair `(left, right)`. The pair that held `left` and the
    /// pair that held `right`, if any, are removed first; the other pairs
    /// keep their order and the new pair goes last.
    pub fn insert(&mut self, left: u64, right: String)
        ensures
            final(self).wf(),
            final(self).left_entries() == pair_inserted(old(self).left_entries(), left, right@),
            final(self).paired(left, right@),
            forall|k: u64|
                k != left ==> (#[trigger] final(self).left_map().contains_key(k) <==> (old(self).left_map().contains_key(k) && old(self).left_map()[k] != right@)),
            forall|k: u64|
                k != left && #[trigger] final(self).left_map().contains_key(k) ==> final(self).left_map()[k] == old(self).left_map()[k],
            !old(self).left_map().contains_key(left) && !old(self).right_map().contains_key(right@)
                ==> final(self).left_entries() == old(self).left_entries().push((left, right@)),
    {
        proof {
            use_type_invariant(&*self);
        }
        let mut taken = BiMap::new();
        std::mem::swap(self, &mut taken);
        let BiMap { mut ltr, mut rtl } = taken;
        let ghost l0 = left_entries_of(ltr);
        proof {
            lemma_remove_pair(l0, left);
        }
        match left_shift_remove(&mut ltr, &left) {
            Some(old_right) => {
                proof {
                    lemma_key_index(l0, key_index(l0, left));
                }
                right_shift_remove(&mut rtl, old_right.as_str());
            },
            None => {},
        }
        let ghost l1 = left_entries_of(ltr);
        proof {
            assert(l1 == shift_remove_entry(l0, left));
            assert(right_entries_of(rtl) == flip(l1));
            lemma_remove_right(l1, right@);
        }
        match right_shift_remove(&mut rtl, right.as_str()) {
            Some(old_left) => {
                proof {
                    lemma_key_index(flip(l1), key_index(flip(l1), right@));
                }
                left_shift_remove(&mut ltr, &old_left);
            },
            None => {},
        }
        let ghost l2 = left_entries_of(ltr);
        proof {
            assert(l2 == flip(shift_remove_entry(flip(l1), right@)));
            lemma_flip_flip(shift_remove_entry(flip(l1), right@));
            assert(right_entries_of(rtl) == flip(l2));
            lemma_push_fresh(l2, left, right@);
        }
        let right_copy = right.clone();
        left_insert(&mut ltr, left, right_copy);
        right_insert(&mut rtl, right, left);
        *self = BiMap { ltr, rtl };
        proof {
            let l3 = left_entries_of(ltr);
            assert(l3 == l2.push((left, right@)));
            lemma_flip_map(l3, left, right@);
            assert(entries_map(l3).contains_key(left));
            assert forall|k: u64| k != left implies (#[trigger] entries_map(l3).contains_key(k)
                <==> (entries_map(l0).contains_key(k) && entries_map(l0)[k] != right@)) && (
            entries_map(l3).contains_key(k) ==> entries_map(l3)[k] == entries_map(l0)[k]) by {
                if has_key(flip(l1), right@) {
                    let ol = flip(l1)[key_index(flip(l1), right@)].1;
                    lemma_flip_map(l1, k, right@);
                    lemma_flip_map(l1, ol, right@);
                }
            }
            if !entries_map(l0).contains_key(left) && !entries_map(flip(l0)).contains_key(right@) {
                assert(l1 == l0);
                assert(l2 == l1);
            }
        }
    }

    /// Removes the pair whose left value is `left`, from both directions,
    /// and returns it; the other pairs keep their order.
    pub fn remove_by_left(&mut self, left: &u64) -> (r: Option<(u64, String)>)
        ensures
            final(self).wf(),
            r is Some == old(self).left_map().contains_key(*left),
            r is None ==> final(self).left_entries() == old(self).left_entries(),
            r matches Some(p) ==> {
                &&& p.0 == *left
                &&& p.1@ == old(self).left_map()[*left]
                &&& final(self).left_entries() == shift_remove_entry(old(self).left_entries(), *left)
                &&& final(self).left_map() == old(self).left_map().remove(*left)
                &&& final(self).right_map() == old(self).right_map().remove(p.1@)
            },
    {
        proof {
            use_type_invariant(&*self);
        }
        let mut taken = BiMap::new();
        std::mem::swap(self, &mut taken);
        let BiMap { mut ltr, mut rtl } = taken;
        let ghost l0 = left_entries_of(ltr);
        proof {
            lemma_remove_pair(l0, *left);
        }
        let result = match left_shift_remove(&mut ltr, left) {
            None => None,
            Some(right) => {
                proof {
                    let i = key_index(l0, *left);
                    lemma_key_index(l0, i);
                    lemma_flip_index(l0, i);
                }
                let removed = right_shift_remove(&mut rtl, right.as_str());
                proof {
                    assert(removed is Some);
                    let l1 = left_entries_of(ltr);
                    lemma_remove_right(l1, right@);
                    lemma_remove_pair_generic(flip(l0), right@);
                    let i = key_index(l0, *left);
                    lemma_remove_at(flip(l0), i);
                    assert(entries_map(right_entries_of(rtl)) == entries_map(flip(l0)).remove(right@));
                }
                Some((*left, right))
            },
        };
        *self = BiMap { ltr, rtl };
        result
    }

    /// All pairs, in insertion order.
    pub fn iter(&self) -> (r: Vec<(&u64, &String)>)
        ensures
            r@.len() == self.left_entries().len(),
            forall|i: int|
                0 <= i < r@.len() ==> *(#[trigger] r@[i]).0 == self.left_entries()[i].0
                    && r@[i].1@ == self.left_entries()[i].1,
    {
        left_iter(&self.ltr)
    }

    /// The right-hand values, in insertion order.
    pub fn values(&self) -> (r: Vec<&String>)
        ensures
            r@.len() == self.left_entries().len(),
            forall|i: int| 0 <= i < r@.len() ==> (#[trigger] r@[i])@ == self.left_entries()[i].1,
    {
        let pairs = self.iter();
        let mut out: Vec<&String> = Vec::new();
        let mut i: usize = 0;
        while i < pairs.len()
            invariant
                i <= pairs@.len(),
                pairs@.len() == self.left_entries().len(),
                forall|j: int|
                    0 <= j < pairs@.len() ==> (#[trigger] pairs@[j]).1@ == self.left_entries()[j].1,
                out@.len() == i,
                forall|j: int| 0 <= j < i ==> (#[trigger] out@[j])@ == self.left_entries()[j].1,
            decreases pairs.len() - i,
        {
            out.push(pairs[i].1);
            i = i + 1;
        }
        out
    }

    /// Inserts every pair of `other`, in its order, as `insert` does.
    pub fn extend(&mut self, other: BiMap)
        ensures
            final(self).wf(),
            final(self).left_entries() == pairs_inserted(old(self).left_entries(), other.left_entries()),
    {
        let pairs = other.iter();
        let ghost ps = other.left_entries();
        let mut i: usize = 0;
        proof {
            assert(ps.skip(0) =~= ps);
        }
        while i < pairs.len()
            invariant
                i <= pairs@.len(),
                pairs@.len() == ps.len(),
                forall|j: int|
                    0 <= j < pairs@.len() ==> *(#[trigger] pairs@[j]).0 == ps[j].0 && pairs@[j].1@
                        == ps[j].1,
                pairs_inserted(self.left_entries(), ps.skip(i as int)) == pairs_inserted(
                    old(self).left_entries(),
                    ps,
                ),
            decreases pairs.len() - i,
        {
            proof {
                assert(ps.skip(i as int).drop_first() =~= ps.skip(i + 1));
                assert(ps.skip(i as int)[0] == ps[i as int]);
            }
            self.insert(*pairs[i].0, pairs[i].1.clone());
            i = i + 1;
        }
        proof {
            assert(ps.skip(i as int) =~= Seq::<(u64, Seq<char>)>::empty());
            use_type_invariant(&*self);
        }
    }

    /// Builds a map by inserting the pairs in order, as `insert` does.
    pub fn from_iter(pairs: Vec<(u64, String)>) -> (m: Self)
        ensures
            m.wf(),
            m.left_entries() == pairs_inserted(
                Seq::<(u64, Seq<char>)>::empty(),
                pairs@.map_values(|p: (u64, String)| (p.0, p.1@)),
            ),
    {
        let ghost ps = pairs@.map_values(|p: (u64, String)| (p.0, p.1@));
        let mut m = BiMap::with_capacity(pairs.len());
        let mut i: usize = 0;
        proof {
            assert(ps.skip(0) =~= ps);
        }
        while i < pairs.len()
            invariant
                i <= pairs@.len(),
                ps == pairs@.map_values(|p: (u64, String)| (p.0, p.1@)),
                pairs_inserted(m.left_entries(), ps.skip(i as int)) == pairs_inserted(
                    Seq::<(u64, Seq<char>)>::empty(),
                    ps,
                ),
            decreases pairs.len() - i,
        {
            proof {
                assert(ps.skip(i as int).drop_first() =~= ps.skip(i + 1));
                assert(ps.skip(i as int)[0] == ps[i as int]);
            }
            let r = pairs[i].1.clone();
            m.insert(pairs[i].0, r);
            i = i + 1;
        }
        proof {
            assert(ps.skip(i as int) =~= Seq::<(u64, Seq<char>)>::empty());
            use_type_invariant(&m);
        }
        m
    }
}

/// Inserting a sequence of pairs is inserting all but the last, then the
/// last: `from_iter` and `extend` give what successive `insert` calls give.
pub proof fn law_pairs_inserted_one_by_one(s: Seq<(u64, Seq<char>)>, pairs: Seq<(u64, Seq<char>)>)
    requires
        pairs.len() > 0,
    ensures
        pairs_inserted(s, pairs) == pair_inserted(
            pairs_inserted(s, pairs.drop_last()),
            pairs.last().0,
            pairs.last().1,
        ),
    decreases pairs.len(),
{
    let s1 = pair_inserted(s, pairs[0].0, pairs[0].1);
    assert(pairs_inserted(s, pairs) == pairs_inserted(s1, pairs.drop_first()));
    if pairs.len() > 1 {
        let rest = pairs.drop_first();
        let front = pairs.drop_last();
        law_pairs_inserted_one_by_one(s1, rest);
        assert(rest.last() == pairs.last());
        assert(rest.drop_last() =~= front.drop_first());
        assert(front[0] == pairs[0]);
        assert(pairs_inserted(s, front) == pairs_inserted(s1, front.drop_first()));
    } else {
        assert(pairs.drop_last() =~= Seq::<(u64, Seq<char>)>::empty());
        assert(pairs.drop_first() =~= Seq::<(u64, Seq<char>)>::empty());
        assert(pairs.last() == pairs[0]);
    }
}

/// In a well-formed map the two directions are inverse: `l` maps to `r`
/// exactly when `r` maps back to `l`.
pub proof fn law_directions_inverse(m: BiMap, l: u64, r: Seq<char>)
    requires
        m.wf(),
    ensures
        (m.left_map().contains_key(l) && m.left_map()[l] == r) <==> (m.right_map().contains_key(r)
            && m.right_map()[r] == l),
{
    lemma_flip_map(m.left_entries(), l, r);
}

/// Inserting pairs whose left and right values are all new, and distinct
/// from each other, appends them in order.
pub proof fn law_fresh_pairs_append(s: Seq<(u64, Seq<char>)>, pairs: Seq<(u64, Seq<char>)>)
    requires
        one_to_one(s + pairs),
    ensures
        pairs_inserted(s, pairs) == s + pairs,
    decreases pairs.len(),
{
    if pairs.len() == 0 {
        assert(s + pairs =~= s);
    } else {
        let t = s + pairs;
        let n = s.len() as int;
        assert(one_to_one(s)) by {
            assert forall|a: int, b: int| 0 <= a < b < s.len() implies s[a].0 != s[b].0 by {
                assert(t[a] == s[a] && t[b] == s[b]);
            }
            assert forall|a: int, b: int| 0 <= a < b < s.len() implies flip(s)[a].0 != flip(s)[b].0 by {
                assert(t[a] == s[a] && t[b] == s[b]);
                assert(flip(t)[a].0 != flip(t)[b].0);
            }
        }
        let (l, r) = pairs[0];
        assert(!has_key(s, l)) by {
            if has_key(s, l) {
                let a = key_index(s, l);
                assert(t[a].0 == t[n].0);
            }
        }
        assert(!has_key(flip(s), r)) by {
            if has_key(flip(s), r) {
                let a = key_index(flip(s), r);
                assert(flip(t)[a].0 == flip(t)[n].0);
            }
        }
        lemma_remove_pair(s, l);
        lemma_remove_right(s, r);
        assert(pair_inserted(s, l, r) == s.push((l, r)));
        assert(s.push((l, r)) + pairs.drop_first() =~= s + pairs);
        law_fresh_pairs_append(s.push((l, r)), pairs.drop_first());
    }
}

/// Inserting a pair whose two values are both new and then removing it by
/// its left value gives back the pairs as they were.
pub proof fn law_insert_then_remove(s: Seq<(u64, Seq<char>)>, l: u64, r: Seq<char>)
    requires
        one_to_one(s),
        !has_key(s, l),
        !has_key(flip(s), r),
    ensures
        pair_inserted(s, l, r) == s.push((l, r)),
        shift_remove_entry(pair_inserted(s, l, r), l) == s,
{
    lemma_remove_pair(s, l);
    lemma_remove_right(s, r);
    lemma_push_fresh(s, l, r);
    let t = s.push((l, r));
    lemma_key_index(t, s.len() as int);
    assert(t.remove(s.len() as int) =~= s);
}

impl Clone for BiMap {
    fn clone(&self) -> (r: Self)
        ensures
            r.left_entries() == self.left_entries(),
            r.right_entries() == self.right_entries(),
    {
        proof {
            use_type_invariant(self);
        }
        let ltr = left_clone(&self.ltr);
        let rtl = right_clone(&self.rtl);
        BiMap { ltr, rtl }
    }
}

impl Default for BiMap {
    fn default() -> (r: Self)
        ensures
            r.wf(),
            r.left_entries() == Seq::<(u64, Seq<char>)>::empty(),
    {
        BiMap::new()
    }
}

impl PartialEq for BiMap {
    fn eq(&self, other: &Self) -> (r: bool) {
        left_eq(&self.ltr, &other.ltr)
    }
}

impl vstd::std_specs::cmp::PartialEqSpecImpl for BiMap {
    open spec fn obeys_eq_spec() -> bool {
        true
    }

    open spec fn eq_spec(&self, other: &Self) -> bool {
        self.left_map() == other.left_map()
    }
}

impl Eq for BiMap {
}

} // verus!
