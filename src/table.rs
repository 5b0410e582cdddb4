//! Contracts for the few `HashMap` operations that vstd leaves unspecified.

use std::collections::HashMap;
use std::hash::{BuildHasher, Hash};
use vstd::prelude::*;
use vstd::std_specs::hash::spec_hash_map_len;

verus! {

/// Relies on `HashMap::with_hasher`: it creates an empty table.
pub assume_specification<K, V, S>[ HashMap::<K, V, S>::with_hasher ](
    hash_builder: S,
) -> (r: HashMap<K, V, S>)
    ensures
        r@.dom() == Set::<K>::empty(),
;

/// Relies on `HashMap::with_capacity_and_hasher`: it creates an empty table.
pub assume_specification<K, V, S>[ HashMap::<K, V, S>::with_capacity_and_hasher ](
    capacity: usize,
    hasher: S,
) -> (r: HashMap<K, V, S>)
    ensures
        r@.dom() == Set::<K>::empty(),
;

/// Relies on `HashMap::shrink_to_fit`: it changes the allocation, never the entries.
#[verifier::external_body]
pub(crate) fn shrink_table<K: Eq + Hash, V, S: BuildHasher>(m: &mut HashMap<K, V, S>)
    ensures
        final(m)@ == old(m)@,
{
    m.shrink_to_fit()
}

/// Relies on `HashMap::capacity`: the table holds at least its current
/// entries without reallocating. The exact value depends on the allocator.
#[verifier::external_body]
pub(crate) fn table_capacity<K, V, S>(m: &HashMap<K, V, S>) -> (r: usize)
    ensures
        r >= spec_hash_map_len(m),
{
    m.capacity()
}

/// Relies on `HashMap::hasher`, which hands out the table's hash builder.
#[verifier::external_body]
pub(crate) fn table_hasher<K, V, S>(m: &HashMap<K, V, S>) -> &S {
    m.hasher()
}

} // verus!
