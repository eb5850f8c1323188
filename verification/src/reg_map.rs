//! Trusted declarations for the insertion-order-preserving maps that hold
//! register snapshots and error histograms.
//!
//! The maps come from the `indexmap` crate: keys keep the position of their
//! first insertion, and inserting an existing key updates its value in place
//! without disturbing the order. The contracts below say exactly that, over
//! the entry sequences of `assoc`.

use vstd::prelude::*;
use indexmap::IndexMap;
use std::collections::hash_map::RandomState;

use crate::assoc::{assoc_find, assoc_put};

verus! {

#[verifier::external_type_specification]
#[verifier::external_body]
#[verifier::reject_recursive_types(K)]
#[verifier::reject_recursive_types(V)]
#[verifier::reject_recursive_types(S)]
pub struct ExIndexMap<K, V, S>(IndexMap<K, V, S>);

/// The entries of a named-register map, in insertion order.
pub uninterp spec fn reg_entries(m: IndexMap<String, u64, RandomState>) -> Seq<(Seq<char>, u64)>;

/// The entries of an error-code histogram, in insertion order.
pub uninterp spec fn err_entries(m: IndexMap<u32, usize, RandomState>) -> Seq<(u32, usize)>;

/// Relies on indexmap::IndexMap::new: a new map has no entries.
#[verifier::external_body]
pub(crate) fn reg_map_new() -> (r: IndexMap<String, u64, RandomState>)
    ensures
        reg_entries(r) == Seq::<(Seq<char>, u64)>::empty(),
{
    IndexMap::new()
}

/// Relies on indexmap::IndexMap::len: the number of entries.
#[verifier::external_body]
pub(crate) fn reg_map_len(m: &IndexMap<String, u64, RandomState>) -> (r: usize)
    ensures
        r == reg_entries(*m).len(),
{
    m.len()
}

/// Relies on indexmap::IndexMap::get: the value bound to the key, if any.
#[verifier::external_body]
pub(crate) fn reg_map_get(m: &IndexMap<String, u64, RandomState>, k: &String) -> (r: Option<u64>)
    ensures
        r == assoc_find(reg_entries(*m), k@),
{
    m.get(k).copied()
}

/// Relies on indexmap::IndexMap::insert: an existing key keeps its place in
/// the order and its value is updated; a new key-value pair goes last; the
/// old value, if any, is returned.
#[verifier::external_body]
pub(crate) fn reg_map_insert(m: &mut IndexMap<String, u64, RandomState>, k: String, v: u64) -> (r:
    Option<u64>)
    ensures
        reg_entries(*final(m)) == assoc_put(reg_entries(*old(m)), k@, v),
        r == assoc_find(reg_entries(*old(m)), k@),
{
    m.insert(k, v)
}

/// Relies on indexmap::IndexMap::values: the values in entry order.
#[verifier::external_body]
pub(crate) fn reg_map_values(m: &IndexMap<String, u64, RandomState>) -> (r: Vec<u64>)
    ensures
        r@ == reg_entries(*m).map_values(|p: (Seq<char>, u64)| p.1),
{
    m.values().copied().collect()
}

/// Relies on indexmap::IndexMap::iter: the entries in order, keys cloned.
#[verifier::external_body]
pub(crate) fn reg_map_entries_vec(m: &IndexMap<String, u64, RandomState>) -> (r: Vec<(String, u64)>)
    ensures
        r@.map_values(|p: (String, u64)| (p.0@, p.1)) == reg_entries(*m),
{
    m.iter().map(|(k, v)| (k.clone(), *v)).collect()
}

/// Relies on indexmap::IndexMap's Clone: an equal map.
#[verifier::external_body]
pub(crate) fn reg_map_clone(m: &IndexMap<String, u64, RandomState>) -> (r: IndexMap<
    String,
    u64,
    RandomState,
>)
    ensures
        reg_entries(r) == reg_entries(*m),
{
    m.clone()
}

/// Relies on indexmap::IndexMap::new: a new histogram has no entries.
#[verifier::external_body]
pub(crate) fn err_map_new() -> (r: IndexMap<u32, usize, RandomState>)
    ensures
        err_entries(r) == Seq::<(u32, usize)>::empty(),
{
    IndexMap::new()
}

/// Relies on indexmap::IndexMap::get: the count bound to the code, if any.
#[verifier::external_body]
pub(crate) fn err_map_get(m: &IndexMap<u32, usize, RandomState>, k: u32) -> (r: Option<usize>)
    ensures
        r == assoc_find(err_entries(*m), k),
{
    m.get(&k).copied()
}

/// Relies on indexmap::IndexMap::insert: an existing code keeps its place in
/// the order and its count is updated; a new pair goes last.
#[verifier::external_body]
pub(crate) fn err_map_insert(m: &mut IndexMap<u32, usize, RandomState>, k: u32, v: usize) -> (r:
    Option<usize>)
    ensures
        err_entries(*final(m)) == assoc_put(err_entries(*old(m)), k, v),
        r == assoc_find(err_entries(*old(m)), k),
{
    m.insert(k, v)
}

/// Relies on indexmap::IndexMap::iter: the entries in order.
#[verifier::external_body]
pub(crate) fn err_map_entries_vec(m: &IndexMap<u32, usize, RandomState>) -> (r: Vec<(u32, usize)>)
    ensures
        r@ == err_entries(*m),
{
    m.iter().map(|(k, v)| (*k, *v)).collect()
}

} // verus!
