//! Trusted declarations for the shared-prefix set that stores block traces.
//!
//! The set comes from the `prefix-tree` crate: a trie keyed on trace
//! elements, so traces sharing common prefixes across a population are
//! stored once. The contracts below speak only of the set of element
//! sequences held.

use vstd::prelude::*;
use prefix_tree::PrefixSet;

use crate::profiler::Block;

verus! {

#[verifier::external_type_specification]
#[verifier::external_body]
#[verifier::reject_recursive_types(T)]
pub struct ExPrefixSet<T>(PrefixSet<T>);

/// The set of block-trace sequences a shared-prefix set holds.
pub uninterp spec fn path_elems(s: PrefixSet<Block>) -> Set<Seq<Block>>;

/// Relies on prefix_tree::PrefixSet::new: a new set is empty.
#[verifier::external_body]
pub(crate) fn path_set_new() -> (r: PrefixSet<Block>)
    ensures
        path_elems(r) == Set::<Seq<Block>>::empty(),
        path_elems(r).finite(),
{
    PrefixSet::new()
}

/// Relies on prefix_tree::PrefixSet::insert: adds the sequence to the set,
/// returning whether it was absent.
#[verifier::external_body]
pub(crate) fn path_set_insert(s: &mut PrefixSet<Block>, key: &Vec<Block>) -> (r: bool)
    ensures
        path_elems(*final(s)) == path_elems(*old(s)).insert(key@),
        r == !path_elems(*old(s)).contains(key@),
        path_elems(*old(s)).finite() ==> path_elems(*final(s)).finite(),
{
    s.insert(key.as_slice())
}

/// Relies on prefix_tree::PrefixSet::contains: membership of the sequence.
#[verifier::external_body]
pub(crate) fn path_set_contains(s: &PrefixSet<Block>, key: &Vec<Block>) -> (r: bool)
    ensures
        r == path_elems(*s).contains(key@),
{
    s.contains(key.as_slice())
}

/// Relies on prefix_tree::PrefixSet::len: the number of sequences held,
/// which its map increments exactly on inserting an absent key.
#[verifier::external_body]
pub(crate) fn path_set_len(s: &PrefixSet<Block>) -> (r: usize)
    ensures
        path_elems(*s).finite() ==> r == path_elems(*s).len(),
{
    s.len()
}

} // verus!
