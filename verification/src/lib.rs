//! A 2048 engine and the building blocks of a search bot: boards and their
//! swipes, tile spawns, boards up to symmetry, a priority cache, and the
//! depth limits and schedule of a deepening search.
pub mod accumulator;
pub mod game;
pub mod shift_row;
pub mod algebra;
pub mod board;
pub mod bots;
pub mod time;
pub mod utils;
pub mod symmetric_board;
