//! The two `indexmap::IndexMap` instances that a `BiMap` is made of, as Verus
//! sees them. Each map is modelled by the sequence of its entries in
//! insertion order (keys by value, `String`s by their characters); every
//! function here is a thin call into `indexmap` whose contract restates what
//! that crate's source and documentation say the call does.

use crate::entries::{entries_map, has_key, insert_entry, keys_distinct, lookup, shift_remove_entry};
use indexmap::IndexMap;
use vstd::prelude::*;

verus! {

/// `indexmap::IndexMap`, an opaque hash map that remembers insertion order.
#[verifier::external_type_specification]
#[verifier::external_body]
#[verifier::reject_recursive_types(K)]
#[verifier::reject_recursive_types(V)]
#[verifier::reject_recursive_types(S)]
pub struct ExIndexMap<K, V, S>(IndexMap<K, V, S>);

/// The entries of an index-to-name map, in the map's order.
pub uninterp spec fn left_entries_of(m: IndexMap<u64, String>) -> Seq<(u64, Seq<char>)>;

/// The entries of a name-to-index map, in the map's order.
pub uninterp spec fn right_entries_of(m: IndexMap<String, u64>) -> Seq<(Seq<char>, u64)>;

/// `IndexMap::new`: an empty map.
#[verifier::external_body]
pub(crate) fn left_new() -> (m: IndexMap<u64, String>)
    ensures
        left_entries_of(m) == Seq::<(u64, Seq<char>)>::empty(),
{
    IndexMap::new()
}

/// `IndexMap::new`: an empty map.
#[verifier::external_body]
pub(crate) fn right_new() -> (m: IndexMap<String, u64>)
    ensures
        right_entries_of(m) == Seq::<(Seq<char>, u64)>::empty(),
{
    IndexMap::new()
}

/// `IndexMap::with_capacity`: an empty map (the capacity is not modelled).
#[verifier::external_body]
pub(crate) fn left_with_capacity(n: usize) -> (m: IndexMap<u64, String>)
    ensures
        left_entries_of(m) == Seq::<(u64, Seq<char>)>::empty(),
{
    IndexMap::with_capacity(n)
}

/// `IndexMap::with_capacity`: an empty map (the capacity is not modelled).
#[verifier::external_body]
pub(crate) fn right_with_capacity(n: usize) -> (m: IndexMap<String, u64>)
    ensures
        right_entries_of(m) == Seq::<(Seq<char>, u64)>::empty(),
{
    IndexMap::with_capacity(n)
}

/// `IndexMap::insert`: an existing key keeps its place and takes the new
/// value, a new key is appended; keys stay distinct.
#[verifier::external_body]
pub(crate) fn left_insert(m: &mut IndexMap<u64, String>, k: u64, v: String)
    ensures
        left_entries_of(*final(m)) == insert_entry(left_entries_of(*old(m)), k, v@),
        keys_distinct(left_entries_of(*final(m))),
{
    m.insert(k, v);
}

/// `IndexMap::insert`: an existing key keeps its place and takes the new
/// value, a new key is appended; keys stay distinct.
#[verifier::external_body]
pub(crate) fn right_insert(m: &mut IndexMap<String, u64>, k: String, v: u64)
    ensures
        right_entries_of(*final(m)) == insert_entry(right_entries_of(*old(m)), k@, v),
        keys_distinct(right_entries_of(*final(m))),
{
    m.insert(k, v);
}

/// `IndexMap::get`: the value stored under `k`, if any.
#[verifier::external_body]
pub(crate) fn left_get<'a>(m: &'a IndexMap<u64, String>, k: &u64) -> (r: Option<&'a String>)
    ensures
        r is Some == has_key(left_entries_of(*m), *k),
        r matches Some(v) ==> Some(v@) == lookup(left_entries_of(*m), *k),
{
    m.get(k)
}

/// `IndexMap::get`: the value stored under `k`, if any.
#[verifier::external_body]
pub(crate) fn right_get<'a>(m: &'a IndexMap<String, u64>, k: &str) -> (r: Option<&'a u64>)
    ensures
        r is Some == has_key(right_entries_of(*m), k@),
        r matches Some(v) ==> Some(*v) == lookup(right_entries_of(*m), k@),
{
    m.get(k)
}

/// `IndexMap::contains_key`.
#[verifier::external_body]
pub(crate) fn left_contains_key(m: &IndexMap<u64, String>, k: &u64) -> (r: bool)
    ensures
        r == has_key(left_entries_of(*m), *k),
{
    m.contains_key(k)
}

/// `IndexMap::contains_key`.
#[verifier::external_body]
pub(crate) fn right_contains_key(m: &IndexMap<String, u64>, k: &str) -> (r: bool)
    ensures
        r == has_key(right_entries_of(*m), k@),
{
    m.contains_key(k)
}

/// `IndexMap::shift_remove`: the entry for `k` is removed and the entries
/// after it shift down, keeping their order; its value is returned.
#[verifier::external_body]
pub(crate) fn left_shift_remove(m: &mut IndexMap<u64, String>, k: &u64) -> (r: Option<String>)
    ensures
        left_entries_of(*final(m)) == shift_remove_entry(left_entries_of(*old(m)), *k),
        r is Some == has_key(left_entries_of(*old(m)), *k),
        r matches Some(v) ==> Some(v@) == lookup(left_entries_of(*old(m)), *k),
{
    m.shift_remove(k)
}

/// `IndexMap::shift_remove`: the entry for `k` is removed and the entries
/// after it shift down, keeping their order; its value is returned.
#[verifier::external_body]
pub(crate) fn right_shift_remove(m: &mut IndexMap<String, u64>, k: &str) -> (r: Option<u64>)
    ensures
        right_entries_of(*final(m)) == shift_remove_entry(right_entries_of(*old(m)), k@),
        r is Some == has_key(right_entries_of(*old(m)), k@),
        r matches Some(v) ==> Some(v) == lookup(right_entries_of(*old(m)), k@),
{
    m.shift_remove(k)
}

/// `IndexMap::iter`: the entries in order, by reference.
#[verifier::external_body]
pub(crate) fn left_iter(m: &IndexMap<u64, String>) -> (r: Vec<(&u64, &String)>)
    ensures
        r@.len() == left_entries_of(*m).len(),
        forall|i: int|
            0 <= i < r@.len() ==> *(#[trigger] r@[i]).0 == left_entries_of(*m)[i].0 && r@[i].1@
                == left_entries_of(*m)[i].1,
{
    m.iter().collect()
}

/// `Clone::clone` on an `IndexMap`: the same entries in the same order.
#[verifier::external_body]
pub(crate) fn left_clone(m: &IndexMap<u64, String>) -> (r: IndexMap<u64, String>)
    ensures
        left_entries_of(r) == left_entries_of(*m),
{
    m.clone()
}

/// `Clone::clone` on an `IndexMap`: the same entries in the same order.
#[verifier::external_body]
pub(crate) fn right_clone(m: &IndexMap<String, u64>) -> (r: IndexMap<String, u64>)
    ensures
        right_entries_of(r) == right_entries_of(*m),
{
    m.clone()
}

/// `PartialEq::eq` on an `IndexMap`: equal lengths and every entry of `a`
/// found in `b` with an equal value, that is, the same map regardless of
/// order.
#[verifier::external_body]
pub(crate) fn left_eq(a: &IndexMap<u64, String>, b: &IndexMap<u64, String>) -> (r: bool)
    ensures
        r == (entries_map(left_entries_of(*a)) == entries_map(left_entries_of(*b))),
{
    a == b
}

} // verus!
