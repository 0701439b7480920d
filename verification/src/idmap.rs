//! The identifier-to-order side index: an fxhash hash map behind a small
//! trusted boundary.
//!
//! The index only needs plain map behaviour from the outside crate. vstd
//! models any `std::collections::HashMap` value, whatever its hasher, with
//! a mathematical `Map` view; the wrappers below state how each call
//! changes or reads that view. Their contracts are what vstd itself states
//! for the same methods under its valid-hasher model, which fxhash's
//! hasher meets: `FxBuildHasher` builds identical, deterministic hashers,
//! so equal keys always land in the same bucket.

use vstd::prelude::*;

use crate::order::Order;

verus! {

/// fxhash's hasher, declared so that `fxhash::FxHashMap` can stand in
/// fields and signatures. Nothing is relied on about the hashing itself.
#[verifier::external_type_specification]
#[verifier::external_body]
pub struct ExFxHasher(fxhash::FxHasher);

/// std's `BuildHasherDefault`, which `fxhash::FxBuildHasher` is an alias
/// of; declared for the same reason, with nothing relied on about it.
#[verifier::external_type_specification]
#[verifier::external_body]
#[verifier::reject_recursive_types(H)]
pub struct ExBuildHasherDefault<H>(core::hash::BuildHasherDefault<H>);

/// The empty identifier map.
pub open spec fn id_map_empty() -> Map<i32, Order> {
    Map::empty()
}

/// Relies on `HashMap::default` (through the `FxHashMap` alias): a fresh
/// map with no entries.
#[verifier::external_body]
pub(crate) fn id_map_new() -> (r: fxhash::FxHashMap<i32, Order>)
    ensures
        r@ == id_map_empty(),
{
    fxhash::FxHashMap::default()
}

/// Relies on `HashMap::insert`: afterwards the key maps to the given
/// value, and every other entry is unchanged.
#[verifier::external_body]
pub(crate) fn id_map_insert(m: &mut fxhash::FxHashMap<i32, Order>, id: i32, o: Order)
    ensures
        final(m)@ == old(m)@.insert(id, o),
{
    m.insert(id, o);
}

/// Relies on `HashMap::remove`: hands back the key's value if the key was
/// present, removing that entry and no other; a no-op returning `None` if
/// it was absent.
#[verifier::external_body]
pub(crate) fn id_map_remove(m: &mut fxhash::FxHashMap<i32, Order>, id: i32) -> (r: Option<Order>)
    ensures
        old(m)@.dom().contains(id) ==> r == Some(old(m)@[id]) && final(m)@ == old(m)@.remove(id),
        !old(m)@.dom().contains(id) ==> r == None::<Order> && final(m)@ == old(m)@,
{
    m.remove(&id)
}

/// Relies on `HashMap::is_empty`: true exactly when the map holds no
/// entries.
#[verifier::external_body]
pub(crate) fn id_map_is_empty(m: &fxhash::FxHashMap<i32, Order>) -> (r: bool)
    ensures
        r <==> m@.dom() == Set::<i32>::empty(),
{
    m.is_empty()
}

/// Relies on `HashMap::len`: the number of entries in the map.
#[verifier::external_body]
pub(crate) fn id_map_len(m: &fxhash::FxHashMap<i32, Order>) -> (r: usize)
    ensures
        r == m@.dom().len(),
{
    m.len()
}

} // verus!
