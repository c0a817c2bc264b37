//! The board of the game, by its shorter path.
pub use crate::game::twenty_forty_eight::board::{fast_swipe, Cell, Cells, Direction};
use vstd::prelude::*;

verus! {

/// How likely a spawn is, relative to the other spawns of the same board.
pub type Weight = u8;

} // verus!
