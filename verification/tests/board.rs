use rust_2048_solver::board::Cells;

type TestCase = ([[u8; 4]; 4], [[u8; 4]; 4]);

const TEST_CASES: &[TestCase] = &[
    (
        [[0, 0, 0, 0], [0, 0, 0, 0], [0, 0, 0, 0], [0, 0, 0, 0]],
        [[0, 0, 0, 0], [0, 0, 0, 0], [0, 0, 0, 0], [0, 0, 0, 0]],
    ),
    (
        [[1, 0, 0, 0], [0, 0, 0, 0], [3, 0, 0, 0], [0, 0, 0, 0]],
        [[1, 0, 0, 0], [0, 0, 0, 0], [3, 0, 0, 0], [0, 0, 0, 0]],
    ),
    (
        [[1, 0, 1, 0], [0, 2, 1, 1], [0, 0, 0, 0], [1, 2, 1, 0]],
        [[2, 0, 0, 0], [2, 2, 0, 0], [0, 0, 0, 0], [1, 2, 1, 0]],
    ),
    (
        [[0, 0, 1, 1], [0, 0, 9, 1], [0, 1, 1, 3], [1, 6, 2, 5]],
        [[2, 0, 0, 0], [9, 1, 0, 0], [2, 3, 0, 0], [1, 6, 2, 5]],
    ),
    (
        [[2, 0, 0, 2], [1, 3, 0, 0], [6, 1, 5, 0], [1, 2, 9, 2]],
        [[3, 0, 0, 0], [1, 3, 0, 0], [6, 1, 5, 0], [1, 2, 9, 2]],
    ),
    (
        [[1, 6, 3, 2], [0, 0, 9, 1], [0, 0, 0, 3], [0, 2, 0, 5]],
        [[1, 6, 3, 2], [9, 1, 0, 0], [3, 0, 0, 0], [2, 5, 0, 0]],
    ),
    (
        [[0, 0, 0, 0], [1, 0, 0, 0], [0, 1, 3, 9], [3, 6, 1, 5]],
        [[0, 0, 0, 0], [1, 0, 0, 0], [1, 3, 9, 0], [3, 6, 1, 5]],
    ),
    (
        [[0, 0, 0, 2], [2, 0, 1, 1], [0, 0, 9, 3], [2, 6, 1, 5]],
        [[2, 0, 0, 0], [2, 2, 0, 0], [9, 3, 0, 0], [2, 6, 1, 5]],
    ),
    (
        [[1, 6, 1, 5], [1, 2, 5, 1], [1, 3, 4, 1], [6, 0, 0, 0]],
        [[1, 6, 1, 5], [1, 2, 5, 1], [1, 3, 4, 1], [6, 0, 0, 0]],
    ),
    (
        [[2, 7, 3, 1], [3, 5, 7, 0], [2, 7, 2, 1], [1, 0, 0, 0]],
        [[2, 7, 3, 1], [3, 5, 7, 0], [2, 7, 2, 1], [1, 0, 0, 0]],
    ),
];

#[test]
fn board_test_swipe() {
    let reversed = |mut row: [u8; 4]| {
        row.reverse();
        row
    };

    for (inp, expected_out) in TEST_CASES.iter().copied() {
        let inp = Cells::from(inp);
        let expected_out = Cells::from(expected_out);

        {
            let mut cells = inp;
            assert_eq!(cells.swipe_left(), inp != expected_out, "Input: {inp:?}");
            assert_eq!(cells, expected_out, "Input: {inp:?}");
        }
        {
            let inp = Cells::from(inp.cells.map(reversed));
            let expected_out = Cells::from(expected_out.cells.map(reversed));

            let mut cells = inp;
            assert_eq!(cells.swipe_right(), inp != expected_out, "Input: {inp:?}");
            assert_eq!(cells, expected_out, "Input: {inp:?}");
        }
        {
            let inp = inp.transposed();
            let expected_out = expected_out.transposed();

            let mut cells = inp;
            assert_eq!(cells.swipe_up(), inp != expected_out, "Input: {inp:?}");
            assert_eq!(cells, expected_out, "Input: {inp:?}");
        }
        {
            let inp = Cells::from(inp.cells.map(reversed)).transposed();
            let expected_out = Cells::from(expected_out.cells.map(reversed)).transposed();

            let mut cells = inp;
            assert_eq!(cells.swipe_down(), inp != expected_out, "Input: {inp:?}");
            assert_eq!(cells, expected_out, "Input: {inp:?}");
        }
    }
}

#[test]
fn board_from_and_into_array() {
    let grid = [[1, 2, 3, 4], [5, 6, 7, 8], [9, 10, 11, 12], [13, 14, 15, 0]];
    let cells = Cells::from(grid);
    let back: [[u8; 4]; 4] = cells.into();
    assert_eq!(back, grid);
}
