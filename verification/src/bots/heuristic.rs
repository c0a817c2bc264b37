//! Features of a board that a heuristic evaluation looks at.
use crate::game::twenty_forty_eight::board::{Cell, Cells};
use vstd::prelude::*;

verus! {

/// Number of empty cells, kept in a byte.
#[derive(Copy, Clone, Debug, Hash, Default, PartialEq, Eq, PartialOrd, Ord)]
pub struct EmptyCount(pub u8);

/// The largest tile exponent on the board.
#[derive(Copy, Clone, Debug, Hash, Default, PartialEq, Eq, PartialOrd, Ord)]
pub struct MaxCell(pub Cell);

/// The features of a board: its number of empty cells and its largest tile.
pub type PreprocessedBoard = (EmptyCount, MaxCell);

/// The features of a board: its number of empty cells (modulo 256, as the
/// count is cut to a byte) and its largest tile exponent.
pub fn preprocess_board<const ROWS: usize, const COLS: usize>(board: &Cells<ROWS, COLS>) -> (r: (
    EmptyCount,
    MaxCell,
))
    requires
        COLS > 0,
        ROWS > 0,
        COLS * ROWS <= usize::MAX,
    ensures
        r.0.0 == board.empty_count() as u8,
        board.is_max_cell(r.1.0),
{
    let empty = board.count_empty();
    (EmptyCount(#[verifier::truncate] (empty as u8)), MaxCell(board.max_cell()))
}

} // verus!
