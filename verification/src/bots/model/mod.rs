//! What a bot learns about positions.
pub mod prioritized;

use vstd::prelude::*;

verus! {

/// A learnt value, with the priority it was learnt at.
#[derive(Copy, Clone, Debug, Default, PartialEq)]
pub struct EvaluationEntry<P, V> {
    pub priority: P,
    pub value: V,
}

} // verus!
