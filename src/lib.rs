//! A scoped, hierarchical key-value map.
//!
//! A [`TieredMap`] is one tier of a chain: it owns a local hash table and
//! borrows its parent tier. Lookups fall through from the innermost tier to
//! the root; insertions only ever touch the innermost tier.

mod table;
mod tiered;

pub use tiered::{Iter, TieredMap};
