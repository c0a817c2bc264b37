use rust_2048_solver::accumulator::fraction::Weighted;
use rust_2048_solver::game::twenty_forty_eight::board::{Cells, Direction, SizeMismatch, Spawns, Weight};
use std::sync::Once;

type TestCase = ([[u8; 4]; 4], [[u8; 4]; 4]);

const TEST_CASES: &[TestCase] = &[
    (
        [[0, 0, 0, 0], [0, 0, 0, 0], [0, 0, 0, 0], [0, 0, 0, 0]],
        [[0, 0, 0, 0], [0, 0, 0, 0], [0, 0, 0, 0], [0, 0, 0, 0]],
    ),
    (
        [[1, 0, 0, 0], [0, 0, 0, 0], [3, 0, 0, 0], [0, 0, 0, 0]],
        [[1, 0, 0, 0], [0, 0, 0, 0], [3, 0, 0, 0], [0, 0, 0, 0]],
    ),
    (
        [[1, 0, 1, 0], [0, 2, 1, 1], [0, 0, 0, 0], [1, 2, 1, 0]],
        [[2, 0, 0, 0], [2, 2, 0, 0], [0, 0, 0, 0], [1, 2, 1, 0]],
    ),
    (
        [[0, 0, 1, 1], [0, 0, 9, 1], [0, 1, 1, 3], [1, 6, 2, 5]],
        [[2, 0, 0, 0], [9, 1, 0, 0], [2, 3, 0, 0], [1, 6, 2, 5]],
    ),
    (
        [[2, 0, 0, 2], [1, 3, 0, 0], [6, 1, 5, 0], [1, 2, 9, 2]],
        [[3, 0, 0, 0], [1, 3, 0, 0], [6, 1, 5, 0], [1, 2, 9, 2]],
    ),
    (
        [[1, 6, 3, 2], [0, 0, 9, 1], [0, 0, 0, 3], [0, 2, 0, 5]],
        [[1, 6, 3, 2], [9, 1, 0, 0], [3, 0, 0, 0], [2, 5, 0, 0]],
    ),
    (
        [[0, 0, 0, 0], [1, 0, 0, 0], [0, 1, 3, 9], [3, 6, 1, 5]],
        [[0, 0, 0, 0], [1, 0, 0, 0], [1, 3, 9, 0], [3, 6, 1, 5]],
    ),
    (
        [[0, 0, 0, 2], [2, 0, 1, 1], [0, 0, 9, 3], [2, 6, 1, 5]],
        [[2, 0, 0, 0], [2, 2, 0, 0], [9, 3, 0, 0], [2, 6, 1, 5]],
    ),
    (
        [[1, 6, 1, 5], [1, 2, 5, 1], [1, 3, 4, 1], [6, 0, 0, 0]],
        [[1, 6, 1, 5], [1, 2, 5, 1], [1, 3, 4, 1], [6, 0, 0, 0]],
    ),
    (
        [[2, 7, 3, 1], [3, 5, 7, 0], [2, 7, 2, 1], [1, 0, 0, 0]],
        [[2, 7, 3, 1], [3, 5, 7, 0], [2, 7, 2, 1], [1, 0, 0, 0]],
    ),
];

static INIT: Once = Once::new();

/// Setup function that is only run once, even if called multiple times.
fn setup() {
    INIT.call_once(|| {
        env_logger::Builder::new()
            .filter_level(log::LevelFilter::Trace)
            .parse_default_env()
            .init();
    });
}

#[test]
fn mod_test_swipe() {
    setup();
    let reversed = |mut row: [u8; 4]| {
        row.reverse();
        row
    };

    for (inp, expected_out) in TEST_CASES.iter().copied() {
        let inp = Cells::from_cells(inp);
        let expected_out = Cells::from_cells(expected_out);

        {
            let mut cells = inp;
            assert_eq!(cells.swipe_left(), inp != expected_out, "Input: {inp:?}");
            assert_eq!(cells, expected_out, "Input: {inp:?}");
        }
        {
            let inp = Cells::from_cells(inp.cells.map(reversed));
            let expected_out = Cells::from_cells(expected_out.cells.map(reversed));

            let mut cells = inp;
            assert_eq!(cells.swipe_right(), inp != expected_out, "Input: {inp:?}");
            assert_eq!(cells, expected_out, "Input: {inp:?}");
        }
        {
            let inp = inp.transposed();
            let expected_out = expected_out.transposed();

            let mut cells = inp;
            assert_eq!(cells.swipe_up(), inp != expected_out, "Input: {inp:?}");
            assert_eq!(cells, expected_out, "Input: {inp:?}");
        }
        {
            let inp = Cells::from_cells(inp.cells.map(reversed)).transposed();
            let expected_out = Cells::from_cells(expected_out.cells.map(reversed)).transposed();

            let mut cells = inp;
            assert_eq!(cells.swipe_down(), inp != expected_out, "Input: {inp:?}");
            assert_eq!(cells, expected_out, "Input: {inp:?}");
        }
    }
}

#[test]
fn test_spawns() {
    setup();
    for &cells in TEST_CASES.iter().flat_map(|(i, o)| [i, o]) {
        let cells = Cells::from_cells(cells);
        let mut fast: Vec<Weighted<Cells<4, 4>, Weight>> = Spawns::new(cells).collect();
        fast.sort_by_key(|spawn| spawn.value.cells);

        let mut slow: Vec<Weighted<Cells<4, 4>, Weight>> = Vec::new();
        for i in 0..4 {
            for j in 0..4 {
                if cells.cells[i][j] == 0 {
                    for (weight, cell) in [(1, 2), (2, 1)] {
                        let mut new_board = cells;
                        new_board.cells[i][j] = cell;
                        slow.push(Weighted::new_weighted(new_board, Weight::new(weight).unwrap()));
                    }
                }
            }
        }
        slow.sort_by_key(|spawn| spawn.value.cells);

        let mut fast_spawns = fast.into_iter();
        let mut slow_spawns = slow.into_iter();
        for (fast, slow) in (&mut fast_spawns).zip(&mut slow_spawns) {
            assert_eq!(
                fast.value, fast.value,
                "Fast cell:\n{:?}\nis not equal to slow cell:\n{:?}",
                fast.value, fast.value
            );
            assert_eq!(
                fast.value, slow.value,
                "Weights are not equal for: \n{:?}",
                fast.value
            );
        }

        if let Some(weighted) = fast_spawns.next() {
            panic!(
                "Fast spawn yielded an extra spawn: weight={:?}\n{:?}",
                weighted.weight, weighted.value
            );
        }

        if let Some(weighted) = slow_spawns.next() {
            panic!(
                "Slow spawn yielded an extra spawn: weight={:?}\n{:?}",
                weighted.weight, weighted.value
            );
        }
    }
}

#[test]
fn spawns_weights_follow_the_tiles() {
    let cells = Cells::from_cells([[1, 1, 1, 1], [1, 1, 1, 1], [1, 1, 0, 1], [1, 1, 1, 1]]);
    let all: Vec<(u8, u8)> = Spawns::new(cells)
        .collect()
        .into_iter()
        .map(|w| (w.value.cells[2][2], w.weight.get()))
        .collect();
    assert_eq!(all, vec![(2, 1), (1, 2)]);
    assert!(Spawns::<4, 4>::empty().collect().is_empty());
}

#[test]
fn into_spawns_lists_cells_in_order() {
    let cells = Cells::from_cells([[0, 1], [1, 0]]);
    let spawns = cells.into_spawns();
    let expected = vec![
        (Cells::from_cells([[1, 1], [1, 0]]), 2),
        (Cells::from_cells([[2, 1], [1, 0]]), 1),
        (Cells::from_cells([[0, 1], [1, 1]]), 2),
        (Cells::from_cells([[0, 1], [1, 2]]), 1),
    ];
    assert_eq!(spawns, expected);
    assert_eq!(cells.spawns(), expected);
}

#[test]
fn iter_spawns_random_is_a_reordering() {
    let cells = Cells::from_cells([[0, 1, 0], [1, 1, 0]]);
    let mut random = cells.iter_spawns_random();
    let mut ordered = cells.spawns();
    assert_eq!(random.len(), 6);
    for pair in random.chunks(2) {
        assert_eq!(pair[0].1, 2);
        assert_eq!(pair[1].1, 1);
    }
    random.sort_by_key(|s| (s.0.cells, s.1));
    ordered.sort_by_key(|s| (s.0.cells, s.1));
    assert_eq!(random, ordered);
}

#[test]
fn spawns_at_given_positions() {
    let cells = Cells::from_cells([[0, 0], [3, 0]]);
    let spawns = cells.spawns_at(&vec![(1, 1), (0, 0)]);
    assert_eq!(
        spawns,
        vec![
            (Cells::from_cells([[0, 0], [3, 1]]), 2),
            (Cells::from_cells([[0, 0], [3, 2]]), 1),
            (Cells::from_cells([[1, 0], [3, 0]]), 2),
            (Cells::from_cells([[2, 0], [3, 0]]), 1),
        ]
    );
    assert_eq!(cells.empty_position_list(), vec![(0, 0), (0, 1), (1, 1)]);
}

#[test]
fn count_empty_counts_zero_cells() {
    assert_eq!(Cells::<4, 4>::new().count_empty(), 16);
    let cells = Cells::from_cells([[1, 0, 2, 0], [0, 0, 0, 0], [3, 3, 3, 3], [0, 1, 0, 1]]);
    assert_eq!(cells.count_empty(), 8);
    assert!(Cells::<4, 4>::new().is_empty());
    assert!(!cells.is_empty());
}

#[test]
fn has_move_and_is_lost() {
    let stuck = Cells::from_cells([[1, 2, 1, 2], [2, 1, 2, 1], [1, 2, 1, 2], [2, 1, 2, 1]]);
    assert!(!stuck.has_move());
    assert!(stuck.is_lost());

    let pair_in_row = Cells::from_cells([[1, 1, 2, 3], [2, 3, 4, 5], [3, 4, 5, 6], [4, 5, 6, 7]]);
    assert!(pair_in_row.has_move());
    assert!(!pair_in_row.is_lost());

    let pair_in_column = Cells::from_cells([[1, 2], [1, 3]]);
    assert!(pair_in_column.has_move());

    let with_gap = Cells::from_cells([[1, 2], [3, 0]]);
    assert!(with_gap.has_move());
}

#[test]
fn swipe_by_direction() {
    let start = Cells::from_cells([[0, 1, 0, 1], [0, 0, 0, 0], [2, 0, 2, 0], [0, 0, 0, 3]]);

    let mut left = start;
    assert!(left.swipe(Direction::Left));
    assert_eq!(left.cells, [[2, 0, 0, 0], [0, 0, 0, 0], [3, 0, 0, 0], [3, 0, 0, 0]]);

    let mut right = start;
    assert!(right.swipe(Direction::Right));
    assert_eq!(right.cells, [[0, 0, 0, 2], [0, 0, 0, 0], [0, 0, 0, 3], [0, 0, 0, 3]]);

    let mut up = start;
    assert!(up.swipe(Direction::Up));
    assert_eq!(up.cells, [[2, 1, 2, 1], [0, 0, 0, 3], [0, 0, 0, 0], [0, 0, 0, 0]]);

    let mut down = start;
    assert!(down.swipe(Direction::Down));
    assert_eq!(down.cells, [[0, 0, 0, 0], [0, 0, 0, 0], [0, 0, 0, 1], [2, 1, 2, 3]]);

    assert_eq!(start.swiped(Direction::Left), Some(left));
    let settled = Cells::from_cells([[1, 0], [2, 0]]);
    assert_eq!(settled.swiped(Direction::Left), None);
    assert_eq!(settled.swiped(Direction::Right), Some(Cells::from_cells([[0, 1], [0, 2]])));
}

#[test]
fn transposed_rows_and_columns() {
    let cells = Cells::from_cells([[1, 2, 3], [4, 5, 6]]);
    assert_eq!(cells.transposed().cells, [[1, 4], [2, 5], [3, 6]]);
    assert_eq!(cells.rows(), vec![[1, 2, 3], [4, 5, 6]]);
    assert_eq!(cells.columns(), vec![[1, 4], [2, 5], [3, 6]]);
}

#[test]
fn u128_round_trip() {
    let cells = Cells::from_cells([[1, 2, 3, 4], [5, 6, 7, 8], [9, 10, 11, 12], [13, 14, 15, 16]]);
    let x = cells.as_u128();
    assert_eq!(x & 0xff, 1);
    assert_eq!(x >> 120, 16);
    assert_eq!(Cells::<4, 4>::try_from(x).unwrap(), cells);
    assert_eq!(Cells::<4, 4>::try_from(0u128).unwrap(), Cells::new());
}

#[test]
fn u128_into_wrong_size_fails() {
    let r: Result<Cells<3, 3>, SizeMismatch<3, 3>> = Cells::try_from(5u128);
    assert!(r.is_err());
}

#[test]
fn max_cell_is_the_largest_exponent() {
    let cells = Cells::from_cells([[1, 0, 2, 0], [0, 9, 0, 0], [3, 3, 3, 3], [0, 1, 0, 1]]);
    assert_eq!(cells.max_cell(), 9);
}

#[test]
fn render_shows_digits_and_letters() {
    let cells = Cells::from_cells([[0, 1, 9, 10], [11, 0, 0, 35]]);
    assert_eq!(cells.render(), ". 1 9 a \nb . . z \n");
}

#[test]
fn random_spawn_fills_one_empty_cell() {
    let cells = Cells::from_cells([[1, 0], [1, 1]]);
    for _ in 0..20 {
        let spawned = cells.random_spawn();
        assert!(spawned.cells[0][1] == 1 || spawned.cells[0][1] == 2);
        assert_eq!(spawned.cells[0][0], 1);
        assert_eq!(spawned.cells[1], [1, 1]);
    }
}

#[test]
fn weight_is_never_zero() {
    assert!(Weight::new(0).is_none());
    assert_eq!(Weight::new(3).unwrap().get(), 3);
}

#[test]
fn lost_exactly_when_no_swipe_moves() {
    let boards = [
        [[1, 2, 1, 2], [2, 1, 2, 1], [1, 2, 1, 2], [2, 1, 2, 1]],
        [[1, 2, 1, 2], [2, 1, 2, 1], [1, 2, 1, 2], [2, 1, 2, 2]],
        [[1, 2, 1, 2], [2, 1, 2, 1], [1, 2, 1, 2], [2, 1, 2, 0]],
        [[0, 0, 0, 0], [0, 0, 0, 0], [0, 0, 0, 0], [0, 0, 0, 3]],
        [[3, 4, 5, 6], [3, 7, 8, 9], [10, 11, 12, 13], [14, 15, 16, 17]],
    ];
    for grid in boards {
        let cells = Cells::from_cells(grid);
        let some_swipe_moves = [Direction::Up, Direction::Down, Direction::Left, Direction::Right]
            .into_iter()
            .any(|dir| cells.swiped(dir).is_some());
        assert_eq!(cells.has_move(), some_swipe_moves, "Input: {cells:?}");
        assert_eq!(cells.is_lost(), !some_swipe_moves, "Input: {cells:?}");
    }
}

#[test]
fn spawns_next_runs_out_and_stays_out() {
    let cells = Cells::from([[1, 0, 2, 0], [0, 3, 0, 0], [4, 4, 4, 4], [0, 0, 0, 5]]);
    let mut spawns = Spawns::new(cells);
    let mut seen: Vec<Weighted<Cells<4, 4>, Weight>> = Vec::new();
    while let Some(spawn) = spawns.next() {
        seen.push(spawn);
    }
    assert_eq!(seen.len(), 2 * cells.count_empty());
    let first = &seen[0];
    assert_eq!(first.value.cells[0][1], 2);
    assert_eq!(first.weight.get(), 1);
    let last = &seen[seen.len() - 1];
    assert_eq!(last.value.cells[3][2], 1);
    assert_eq!(last.weight.get(), 2);
    for _ in 0..3 {
        assert!(spawns.next().is_none());
    }
}

#[test]
fn swipe_safety_by_direction() {
    let cells = Cells::from([[31, 31, 0, 0], [0, 0, 0, 0], [0, 0, 0, 0], [0, 0, 0, 0]]);
    assert!(!cells.is_swipe_safe(Direction::Left));
    assert!(!cells.is_swipe_safe(Direction::Right));
    assert!(cells.is_swipe_safe(Direction::Up));
    assert!(cells.is_swipe_safe(Direction::Down));
    assert_eq!(cells.line_cells(Direction::Right, 0), vec![0, 0, 31, 31]);
    assert_eq!(cells.line_cells(Direction::Down, 1), vec![0, 0, 0, 31]);
}
