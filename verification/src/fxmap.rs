//! Maps from positions to positions, kept in `rustc_hash::FxHashMap`.
use vstd::prelude::*;
use rustc_hash::FxHashMap;

verus! {

/// A map from positions to positions.
pub type IndexMap = FxHashMap<usize, usize>;

#[verifier::external_type_specification]
#[verifier::external_body]
pub struct ExFxBuildHasher(rustc_hash::FxBuildHasher);

/// An empty map (`FxHashMap::default`).
#[verifier::external_body]
pub fn index_map_new() -> (r: IndexMap)
    ensures
        r@.dom().is_empty(),
{
    FxHashMap::default()
}

/// Binds `key` to `value` (`HashMap::insert`). The hasher of `rustc_hash` is
/// deterministic, so the map behaves as a map of `usize` keys.
#[verifier::external_body]
pub fn index_map_insert(m: &mut IndexMap, key: usize, value: usize)
    ensures
        final(m)@ == old(m)@.insert(key, value),
{
    m.insert(key, value);
}

/// The value bound to `key`, if any (`HashMap::get`, copied).
#[verifier::external_body]
pub fn index_map_get(m: &IndexMap, key: usize) -> (r: Option<usize>)
    ensures
        r == (if m@.contains_key(key) { Some(m@[key]) } else { None::<usize> }),
{
    m.get(&key).copied()
}

} // verus!
