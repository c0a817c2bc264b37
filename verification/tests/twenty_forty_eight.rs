use rust_2048_solver::board::Cells;
use rust_2048_solver::game::twenty_forty_eight::board::Direction;
use rust_2048_solver::game::twenty_forty_eight::{TwentyFortyEight, TwentyFortyEightOutcome};
use rust_2048_solver::game::{Discrete, Outcome, Transition};

#[test]
fn new_game_has_one_tile() {
    for _ in 0..20 {
        let game = TwentyFortyEight::<4, 4>::new();
        assert_eq!(game.cells.count_empty(), 15);
        assert!(game.cells.max_cell() == 1 || game.cells.max_cell() == 2);
        assert!(!game.terminal());
    }
}

#[test]
fn outcome_of_a_swipe() {
    let game = TwentyFortyEight::from_state(Cells::from([[1, 1, 0, 0], [0; 4], [0; 4], [0; 4]]));
    let (moved, outcome) = game.clone().outcome(Direction::Left);
    assert!(moved);
    assert_eq!(outcome.cells.cells, [[2, 0, 0, 0], [0; 4], [0; 4], [0; 4]]);

    let (moved, outcome) = game.outcome(Direction::Up);
    assert!(!moved);
    assert!(outcome.cells.is_empty());
}

#[test]
fn outcome_distribution_and_collapse() {
    let outcome = TwentyFortyEightOutcome { cells: Cells::from([[1, 2, 3, 4], [5, 6, 7, 8], [1, 2, 3, 4], [5, 6, 7, 0]]) };
    let all = outcome.clone().distribution();
    assert_eq!(all.len(), 2);
    assert_eq!(all[0].value.cells.cells[3][3], 2);
    assert_eq!(all[0].weight.get(), 1);
    assert_eq!(all[1].value.cells.cells[3][3], 1);
    assert_eq!(all[1].weight.get(), 2);

    let next = outcome.collapse();
    assert!(next.cells.cells[3][3] == 1 || next.cells.cells[3][3] == 2);

    let empty = TwentyFortyEightOutcome { cells: Cells::<4, 4>::new() };
    assert!(empty.clone().distribution().is_empty());
    assert!(empty.collapse().cells.is_empty());
}

#[test]
fn terminal_when_stuck() {
    let stuck = TwentyFortyEight::from_cells(Cells::from([[1, 2], [2, 1]]));
    assert!(stuck.terminal());
    assert!(stuck.is_terminal());
    let free = TwentyFortyEight::from_cells(Cells::from([[1, 1], [2, 1]]));
    assert!(!free.terminal());
}

#[test]
fn directions_are_listed() {
    assert_eq!(
        Direction::iter(),
        vec![Direction::Up, Direction::Down, Direction::Left, Direction::Right]
    );
}

#[test]
fn game_renders_its_board() {
    let game = TwentyFortyEight::from_cells(Cells::from([[0, 1], [12, 3]]));
    assert_eq!(game.render(), ". 1 \nc 3 \n");
}

#[test]
fn transition_holds_its_parts() {
    let t = Transition { action: Direction::Up, reward: 1u8, next: 5u8 };
    assert_eq!(t, Transition { action: Direction::Up, reward: 1, next: 5 });
}

#[test]
fn moves_lists_the_swipes_that_change_the_grid() {
    let game = TwentyFortyEight::from_cells(Cells::from([
        [1, 0, 0, 0],
        [0, 0, 0, 0],
        [0, 0, 0, 0],
        [0, 0, 0, 0],
    ]));
    let moves = game.moves();
    let directions: Vec<Direction> = moves.iter().map(|(d, _)| *d).collect();
    assert_eq!(directions, vec![Direction::Down, Direction::Right]);
    assert_eq!(moves[0].1, Cells::from([[0, 0, 0, 0], [0, 0, 0, 0], [0, 0, 0, 0], [1, 0, 0, 0]]));
    let stuck = TwentyFortyEight::from_cells(Cells::from([
        [1, 2, 1, 2],
        [2, 1, 2, 1],
        [1, 2, 1, 2],
        [2, 1, 2, 1],
    ]));
    assert!(stuck.moves().is_empty());
}
