use rust_2048_solver::shift_row::{swipe_left, Row, SwipeResult};

#[test]
fn test_shift_row() {
    let test_cases = [
        ([0, 0, 0, 0], [0, 0, 0, 0]),
        ([0, 0, 0, 1], [1, 0, 0, 0]),
        ([0, 0, 1, 0], [1, 0, 0, 0]),
        ([0, 0, 1, 1], [2, 0, 0, 0]),
        ([1, 0, 1, 1], [2, 1, 0, 0]),
        ([1, 1, 1, 0], [2, 1, 0, 0]),
        ([0, 2, 1, 2], [2, 1, 2, 0]),
        ([1, 3, 2, 4], [1, 3, 2, 4]),
        ([1, 2, 2, 3], [1, 3, 3, 0]),
        ([1, 0, 1, 2], [2, 2, 0, 0]),
        ([1, 1, 1, 1], [2, 2, 0, 0]),
        ([2, 1, 0, 1], [2, 2, 0, 0]),
    ];

    for (inp, out) in test_cases.into_iter() {
        let inp = Row::from(inp);
        let out = Row::from(out);
        let mut row = inp;
        row.swipe_left();
        assert_eq!(row, out, "input: {inp:?}");
    }

    let mut row = Row::from([]);
    row.swipe_left();
    assert_eq!(row, Row::from([]));

    let mut row = Row::from([1]);
    row.swipe_left();
    assert_eq!(row, Row::from([1]));
}

#[test]
fn shift_row_reports_the_score() {
    let mut row = Row::from([1, 1, 2, 2, 0]);
    assert_eq!(row.swipe_left(), SwipeResult::Changed { score: 12 });
    assert_eq!(row.into_cells(), [2, 3, 0, 0, 0]);
    let mut row = Row::from([1, 2, 1, 2, 1]);
    assert_eq!(row.swipe_left(), SwipeResult::UnChanged);
    let mut row = Row::from([1, 1, 2, 2]);
    assert_eq!(row.swipe_left(), SwipeResult::Changed { score: 0 });
    assert_eq!(row.into_cells(), [2, 3, 0, 0]);
    let mut row = Row::from([1, 2, 1, 2]);
    assert_eq!(row.swipe_left(), SwipeResult::UnChanged);
    let mut row = Row::from([0, 3, 0, 0, 3]);
    assert_eq!(row.swipe_left(), SwipeResult::Changed { score: 16 });
    assert_eq!(row.into_cells(), [4, 0, 0, 0, 0]);
}

#[test]
fn shift_row_swipe_left_function() {
    let mut cells = [0, 1, 1, 0];
    assert!(swipe_left(&mut cells));
    assert_eq!(cells, [2, 0, 0, 0]);
    assert!(!swipe_left(&mut cells));
}

#[test]
fn row_into_cells() {
    let mut row = Row::from([0, 2, 0, 2, 3]);
    row.swipe_left();
    let cells: [u8; 5] = row.into();
    assert_eq!(cells, [3, 3, 0, 0, 0]);
}
