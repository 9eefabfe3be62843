//! The hash map from gradient identity to ramp record.
//!
//! The map is `hashbrown::HashMap`, keyed by the cache key that
//! `vello_common` derives for a gradient. Verus sees neither the inside of
//! the map nor that of a key: what the cache needs of them is stated here,
//! and believed. The contracts model the map as a mathematical map over the
//! keys, in which two keys are the same key exactly when the map's `Eq`
//! (bit-for-bit equality of the gradient's colour stops and interpolation
//! settings) holds of them.

use crate::ramp::CachedRamp;
use hashbrown::HashMap;
use vello_common::encode::GradientCacheKey;
use vello_common::peniko::color::cache_key::CacheKey;
use vstd::prelude::*;

verus! {

/// `vello_common::encode::GradientCacheKey`: the colour-affecting properties
/// of a gradient. Opaque here.
#[verifier::external_type_specification]
#[verifier::external_body]
pub struct ExGradientCacheKey(GradientCacheKey);

/// `peniko::color::cache_key::CacheKey`: makes its content usable as a hash
/// map key by comparing and hashing bit patterns. Opaque here.
#[verifier::external_type_specification]
#[verifier::external_body]
#[verifier::reject_recursive_types(T)]
pub struct ExCacheKey<T>(CacheKey<T>);

/// The identity of a gradient's ramp.
pub type RampKey = CacheKey<GradientCacheKey>;

/// The map from ramp identity to ramp record.
///
/// Trusted: holds a `hashbrown::HashMap`, whose inside Verus does not see.
#[verifier::external_body]
pub struct RampStore {
    map: HashMap<RampKey, CachedRamp>,
}

/// The entries that a store holds.
pub uninterp spec fn store_entries(store: RampStore) -> Map<RampKey, CachedRamp>;

/// An empty store.
///
/// Trusted: `HashMap::new` makes a map without entries.
#[verifier::external_body]
pub(crate) fn store_new() -> (store: RampStore)
    ensures
        store_entries(store) =~= Map::empty(),
{
    RampStore { map: HashMap::new() }
}

/// The number of entries.
///
/// Trusted: `HashMap::len` counts the entries of the map.
#[verifier::external_body]
pub(crate) fn store_len(store: &RampStore) -> (count: usize)
    ensures
        count == store_entries(*store).dom().len(),
{
    store.map.len()
}

/// The record stored under `key`, for reading and writing, if there is one.
///
/// Trusted: `HashMap::get_mut` returns a reference to the value stored under
/// a key equal to `key`, or `None` where the map has none. Writing through
/// the reference changes that value and nothing else.
#[verifier::external_body]
pub(crate) fn store_get_mut<'a>(store: &'a mut RampStore, key: &RampKey) -> (found: Option<
    &'a mut CachedRamp,
>)
    ensures
        match found {
            Some(ramp) => store_entries(*old(store)).contains_key(*key)
                && *ramp == store_entries(*old(store))[*key]
                && store_entries(*final(store)) == store_entries(*old(store)).insert(
                *key,
                *final(ramp),
            ),
            None => !store_entries(*old(store)).contains_key(*key)
                && store_entries(*final(store)) == store_entries(*old(store)),
        },
{
    store.map.get_mut(key)
}

/// Stores `ramp` under `key` and returns the record it replaces, if any.
///
/// Trusted: `HashMap::insert` sets the value of `key`, leaves every other
/// entry alone, and returns the value that `key` had before.
#[verifier::external_body]
pub(crate) fn store_insert(store: &mut RampStore, key: RampKey, ramp: CachedRamp) -> (replaced:
    Option<CachedRamp>)
    ensures
        store_entries(*final(store)) == store_entries(*old(store)).insert(key, ramp),
        replaced == if store_entries(*old(store)).contains_key(key) {
            Some(store_entries(*old(store))[key])
        } else {
            None
        },
{
    store.map.insert(key, ramp)
}

/// Drops every entry that was not used in `epoch` or later.
///
/// Trusted: `HashMap::retain` calls the closure once on each entry and
/// removes the entries for which it answers `false`; the others keep key and
/// value. The closure is one call of [`CachedRamp::used_since`].
#[verifier::external_body]
pub(crate) fn store_retain_used_since(store: &mut RampStore, epoch: u64)
    ensures
        store_entries(*final(store)) == Map::new(
            |key: RampKey|
                store_entries(*old(store)).contains_key(key) && store_entries(
                    *old(store),
                )[key].is_used_since(epoch),
            |key: RampKey| store_entries(*old(store))[key],
        ),
{
    store.map.retain(|_, ramp| ramp.used_since(epoch))
}

/// Every entry once, in the order in which the map walks them, each record
/// open for writing.
///
/// Trusted: `HashMap::iter_mut` yields each entry of the map exactly once, in
/// an order that is not specified, as the key and a mutable reference to the
/// value. Writing through the references changes those values; the keys stay.
#[verifier::external_body]
pub(crate) fn store_iter_mut<'a>(store: &'a mut RampStore) -> (items: Vec<
    (&'a RampKey, &'a mut CachedRamp),
>)
    ensures
        forall|i: int|
            0 <= i < items@.len() ==> store_entries(*old(store)).contains_key(
                *(#[trigger] items@[i]).0,
            ) && *items@[i].1 == store_entries(*old(store))[*items@[i].0],
        forall|i: int, j: int|
            0 <= i < j < items@.len() ==> *(#[trigger] items@[i]).0 != *(#[trigger] items@[j]).0,
        forall|key: RampKey| #[trigger]
            store_entries(*old(store)).contains_key(key) ==> exists|i: int|
                0 <= i < items@.len() && *(#[trigger] items@[i]).0 == key,
        store_entries(*final(store)).dom() == store_entries(*old(store)).dom(),
        forall|i: int|
            0 <= i < items@.len() ==> store_entries(*final(store))[*(#[trigger] items@[i]).0]
                == *final(items@[i].1),
{
    store.map.iter_mut().collect()
}

/// A copy of `key`.
///
/// Trusted: `Clone` of `CacheKey` and of `GradientCacheKey` is derived, and
/// copies the colour stops and the interpolation settings as they are, so the
/// copy and `key` are the same key to the map.
#[verifier::external_body]
pub(crate) fn clone_key(key: &RampKey) -> (copy: RampKey)
    ensures
        copy == *key,
{
    key.clone()
}

} // verus!
