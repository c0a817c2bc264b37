use rust_2048_solver::board::Cells;
use rust_2048_solver::bots::heuristic::{preprocess_board, EmptyCount, MaxCell};

#[test]
fn preprocess_counts_empty_cells_and_finds_the_largest() {
    let board = Cells::from([[1, 0, 0, 0], [0, 7, 0, 0], [0, 0, 3, 0], [0, 0, 0, 2]]);
    assert_eq!(preprocess_board(&board), (EmptyCount(12), MaxCell(7)));
}
