use vstd::prelude::*;
use rustc_hash::{FxBuildHasher, FxHashMap};
use std::collections::HashMap;
use crate::ticks::Ticks;

verus! {

#[verifier::external_type_specification]
#[verifier::external_body]
pub struct ExFxBuildHasher(FxBuildHasher);

/// A map from world identifiers to ticks.
pub type TickMap = HashMap<u64, Ticks, FxBuildHasher>;

/// What a `TickMap` holds.
pub uninterp spec fn tick_entries(m: TickMap) -> Map<u64, Ticks>;

/// Relies on `FxHashMap::default` (`HashMap::default` with rustc_hash's
/// `FxBuildHasher`): the new map is empty.
#[verifier::external_body]
pub(crate) fn tick_map_new() -> (r: TickMap)
    ensures
        tick_entries(r).dom().is_empty(),
{
    FxHashMap::default()
}

/// Relies on `HashMap::get` over rustc_hash's `FxBuildHasher`: the value
/// stored under `key`, if any.
#[verifier::external_body]
pub(crate) fn tick_map_get(m: &TickMap, key: u64) -> (r: Option<Ticks>)
    ensures
        r == (if tick_entries(*m).contains_key(key) {
            Some(tick_entries(*m)[key])
        } else {
            None
        }),
{
    m.get(&key).copied()
}

/// Relies on `HashMap::insert` over rustc_hash's `FxBuildHasher`: `key` now
/// maps to `value` and every other entry is kept.
#[verifier::external_body]
pub(crate) fn tick_map_insert(m: &mut TickMap, key: u64, value: Ticks)
    ensures
        tick_entries(*final(m)) == tick_entries(*old(m)).insert(key, value),
{
    m.insert(key, value);
}

} // verus!
