//! Insertion-ordered hash sets from the `indexmap` crate, as the graph uses
//! them: one of node keys, one of edge shapes.

use vstd::prelude::*;
use indexmap::IndexSet;
use std::collections::BTreeSet;
use std::hash::RandomState;

verus! {

#[verifier::external_type_specification]
#[verifier::external_body]
#[verifier::reject_recursive_types(T)]
#[verifier::reject_recursive_types(S)]
pub struct ExIndexSet<T, S>(IndexSet<T, S>);

/// The keys that a key set holds; a key's place is its index.
pub uninterp spec fn key_seq(set: IndexSet<u64, RandomState>) -> Seq<u64>;

/// The shapes (sources, destinations) that a shape set holds; a shape's place
/// is its index.
pub uninterp spec fn shape_seq(
    set: IndexSet<(BTreeSet<usize>, BTreeSet<usize>), RandomState>,
) -> Seq<(Set<usize>, Set<usize>)>;

/// `IndexSet::new`: a set that holds nothing.
#[verifier::external_body]
pub(crate) fn key_set_new() -> (set: IndexSet<u64, RandomState>)
    ensures
        key_seq(set) == Seq::<u64>::empty(),
{
    IndexSet::new()
}

/// `IndexSet::insert_full`: if an equal key is present, the set stays as it
/// was and that key's index comes back with `false`; otherwise the key goes
/// behind all others and its new index comes back with `true`.
#[verifier::external_body]
pub(crate) fn key_set_insert_full(set: &mut IndexSet<u64, RandomState>, key: u64) -> (r: (
    usize,
    bool,
))
    ensures
        r.1 == !key_seq(*old(set)).contains(key),
        !r.1 ==> key_seq(*final(set)) == key_seq(*old(set)),
        r.1 ==> key_seq(*final(set)) == key_seq(*old(set)).push(key),
        r.0 < key_seq(*final(set)).len(),
        key_seq(*final(set))[r.0 as int] == key,
        r.1 ==> r.0 == key_seq(*old(set)).len(),
{
    set.insert_full(key)
}

/// `IndexSet::get_index_of`: the index of the key, if the set holds it.
#[verifier::external_body]
pub(crate) fn key_set_get_index_of(set: &IndexSet<u64, RandomState>, key: u64) -> (r: Option<
    usize,
>)
    ensures
        r is Some <==> key_seq(*set).contains(key),
        r matches Some(index) ==> index < key_seq(*set).len() && key_seq(*set)[index as int] == key,
{
    set.get_index_of(&key)
}

/// `IndexSet::get_index`: the key at the index, if the index is below the
/// number of keys.
#[verifier::external_body]
pub(crate) fn key_set_get_index(set: &IndexSet<u64, RandomState>, index: usize) -> (r: Option<u64>)
    ensures
        r is Some <==> index < key_seq(*set).len(),
        r matches Some(key) ==> key == key_seq(*set)[index as int],
{
    set.get_index(index).copied()
}

/// `IndexSet::new`: a set that holds nothing.
#[verifier::external_body]
pub(crate) fn shape_set_new() -> (set: IndexSet<(BTreeSet<usize>, BTreeSet<usize>), RandomState>)
    ensures
        shape_seq(set) == Seq::<(Set<usize>, Set<usize>)>::empty(),
{
    IndexSet::new()
}

/// `IndexSet::insert_full`: if a shape with the same two sets is present, the
/// set stays as it was and that shape's index comes back with `false`;
/// otherwise the shape goes behind all others and its new index comes back
/// with `true`.
#[verifier::external_body]
pub(crate) fn shape_set_insert_full(
    set: &mut IndexSet<(BTreeSet<usize>, BTreeSet<usize>), RandomState>,
    sources: BTreeSet<usize>,
    destinations: BTreeSet<usize>,
) -> (r: (usize, bool))
    ensures
        r.1 == !shape_seq(*old(set)).contains((sources@, destinations@)),
        !r.1 ==> shape_seq(*final(set)) == shape_seq(*old(set)),
        r.1 ==> shape_seq(*final(set)) == shape_seq(*old(set)).push((sources@, destinations@)),
        r.0 < shape_seq(*final(set)).len(),
        shape_seq(*final(set))[r.0 as int] == (sources@, destinations@),
        r.1 ==> r.0 == shape_seq(*old(set)).len(),
{
    set.insert_full((sources, destinations))
}

} // verus!
