//! Trusted boundary to the sparse color table.
//!
//! The color table is a `std::collections::HashMap` hashed by
//! `ahash::RandomState`. vstd's hash-map specifications are conditioned on
//! the build hasher being deterministic per instance; `ahash` seeds one
//! random state per map and then hashes deterministically, which is exactly
//! that condition, so the two wrappers below restate vstd's conditional
//! contracts unconditionally for this hasher.

use std::collections::HashMap;
use vstd::prelude::*;

verus! {

#[verifier::external_type_specification]
#[verifier::external_body]
pub struct ExRandomState(ahash::RandomState);

/// Relies on `HashMap::insert` with an `ahash::RandomState` build hasher:
/// the map afterwards holds `value` under `key` and is otherwise unchanged.
#[verifier::external_body]
pub(crate) fn color_map_insert(m: &mut HashMap<u16, u8, ahash::RandomState>, key: u16, value: u8)
    ensures
        final(m)@ == old(m)@.insert(key, value),
{
    m.insert(key, value);
}

/// Relies on `HashMap::get` with an `ahash::RandomState` build hasher:
/// it returns the value stored under `key`, or `None` if there is none.
#[verifier::external_body]
pub(crate) fn color_map_get(m: &HashMap<u16, u8, ahash::RandomState>, key: u16) -> (r: Option<u8>)
    ensures
        r == (if m@.contains_key(key) {
            Some(m@[key])
        } else {
            None::<u8>
        }),
{
    m.get(&key).copied()
}

} // verus!
