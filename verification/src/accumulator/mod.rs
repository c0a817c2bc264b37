//! Accumulating values per key.
pub mod fraction;

use std::collections::HashMap;
use vstd::prelude::*;

verus! {

/// A value per key, each the sum of what was accumulated under that key.
#[derive(Clone, Debug)]
pub struct Accumulator<K, V> {
    pub memory: HashMap<K, V>,
}

impl<K, V> Accumulator<K, V> {
    /// Nothing accumulated yet.
    pub fn new() -> (r: Self)
        ensures
            r.memory@ == Map::<K, V>::empty(),
    {
        Self { memory: HashMap::new() }
    }
}

impl<K, V> Default for Accumulator<K, V> {
    /// Nothing accumulated yet.
    fn default() -> (r: Self)
        ensures
            r.memory@ == Map::<K, V>::empty(),
    {
        Self::new()
    }
}

} // verus!
