//! Games that a bot can play.
pub mod twenty_forty_eight;

use vstd::prelude::*;

verus! {

/// A move: the action taken, the reward it earned and the state it led to.
#[derive(Copy, Clone, Debug, PartialEq)]
pub struct Transition<Action, Reward, State> {
    pub action: Action,
    pub reward: Reward,
    pub next: State,
}

/// What comes of an action: a distribution over states, which collapses into
/// one of them.
pub trait Outcome<G>: Sized {
    /// One of the states, drawn at random.
    fn collapse(self) -> G;
}

/// A type with finitely many values, which can all be listed.
pub trait Discrete: Sized {
    /// All the values, in order.
    fn iter() -> Vec<Self>;
}

/// A distribution over values of type `T`, each with a weight of type `Weight`.
pub trait DiscreteDistribution {
    type T;

    type Weight;
}

} // verus!
