use rust_2048_solver::board::Cells;
use rust_2048_solver::symmetric_board::{direction_from_index, random_direction, Direction, SymmetricBoard};

#[test]
fn test_board_eq() {
    let corner1 = SymmetricBoard::from([[0, 0, 0, 1], [0, 0, 0, 0], [0, 0, 0, 0]]);
    let corner2 = SymmetricBoard::from([[1, 0, 0, 0], [0, 0, 0, 0], [0, 0, 0, 0]]);
    assert_eq!(corner1, corner2);
}

#[test]
fn test_symmetry() {
    let board = Cells::from([
        // board
        [1, 0, 0, 0],
        [0, 0, 0, 0],
        [0, 0, 0, 0],
        [2, 0, 0, 0],
    ]);

    let sym_board = SymmetricBoard::from(board.clone());
    println!("{}", sym_board.render());
}

#[test]
fn symmetric_board_holds_the_greatest_reading() {
    let board = Cells::from([[1, 0, 0, 0], [0, 0, 0, 0], [0, 0, 0, 0], [2, 0, 0, 0]]);
    let sym_board = SymmetricBoard::from(board);
    assert_eq!(sym_board.render(), "2 . . 1 \n. . . . \n. . . . \n. . . . \n");
}

#[test]
fn mirror_images_share_a_representative() {
    let grid = [[3, 1, 0], [0, 2, 5]];
    let flipped_rows = [[0, 2, 5], [3, 1, 0]];
    let flipped_cols = [[0, 1, 3], [5, 2, 0]];
    let other = [[3, 1, 0], [0, 5, 2]];
    let s = SymmetricBoard::from(grid);
    assert_eq!(s, SymmetricBoard::from(flipped_rows));
    assert_eq!(s, SymmetricBoard::from(flipped_cols));
    assert_ne!(s, SymmetricBoard::from(other));
}

#[test]
fn rotations_of_a_square_share_a_representative() {
    let grid = [[1, 2, 3], [4, 5, 6], [7, 8, 9]];
    let transposed = [[1, 4, 7], [2, 5, 8], [3, 6, 9]];
    let turned = [[7, 4, 1], [8, 5, 2], [9, 6, 3]];
    let s = SymmetricBoard::from(grid);
    assert_eq!(s, SymmetricBoard::from(transposed));
    assert_eq!(s, SymmetricBoard::from(turned));
    assert_eq!(s.render(), "9 8 7 \n6 5 4 \n3 2 1 \n");
}

#[test]
fn default_is_the_empty_board() {
    let s: SymmetricBoard<2, 3> = SymmetricBoard::default();
    assert_eq!(s, SymmetricBoard::from([[0, 0], [0, 0], [0, 0]]));
}

#[test]
fn directions_by_index() {
    assert_eq!(direction_from_index(0), Direction::Up);
    assert_eq!(direction_from_index(1), Direction::Down);
    assert_eq!(direction_from_index(2), Direction::Left);
    assert_eq!(direction_from_index(3), Direction::Right);
    assert_eq!(direction_from_index(200), Direction::Right);
    for _ in 0..10 {
        let _ = random_direction();
    }
}

#[test]
fn boards_share_a_representative_only_by_a_symmetry() {
    let grid = [[1, 2], [3, 4]];
    let turned_twice = [[4, 3], [2, 1]];
    let transposed = [[1, 3], [2, 4]];
    let swapped = [[2, 1], [3, 4]];
    let s = SymmetricBoard::from(grid);
    assert_eq!(s, SymmetricBoard::from(turned_twice));
    assert_eq!(s, SymmetricBoard::from(transposed));
    assert_ne!(s, SymmetricBoard::from(swapped));
    let wide = [[1, 2, 0], [0, 0, 0]];
    let wide_other = [[1, 0, 2], [0, 0, 0]];
    assert_ne!(SymmetricBoard::from(wide), SymmetricBoard::from(wide_other));
}
