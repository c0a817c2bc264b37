use rust_2048_solver::game::twenty_forty_eight::board::fast_swipe::{
    row_swipe_is_safe, swipe_left, swipe_left_4_fast, swipe_right,
};

const TEST_CASES: &[([u8; 4], [u8; 4])] = &[
    ([0, 0, 0, 0], [0, 0, 0, 0]),
    ([0, 0, 0, 1], [1, 0, 0, 0]),
    ([0, 0, 1, 0], [1, 0, 0, 0]),
    ([0, 1, 0, 0], [1, 0, 0, 0]),
    ([0, 0, 1, 1], [2, 0, 0, 0]),
    ([0, 2, 1, 2], [2, 1, 2, 0]),
    ([0, 1, 2, 1], [1, 2, 1, 0]),
    ([0, 2, 2, 2], [3, 2, 0, 0]),
    ([1, 0, 0, 0], [1, 0, 0, 0]),
    ([1, 0, 1, 1], [2, 1, 0, 0]),
    ([1, 0, 1, 2], [2, 2, 0, 0]),
    ([1, 1, 1, 0], [2, 1, 0, 0]),
    ([1, 1, 1, 1], [2, 2, 0, 0]),
    ([1, 2, 2, 3], [1, 3, 3, 0]),
    ([1, 3, 2, 4], [1, 3, 2, 4]),
    ([2, 1, 0, 1], [2, 2, 0, 0]),
    ([2, 2, 2, 2], [3, 3, 0, 0]),
    ([2, 3, 2, 2], [2, 3, 3, 0]),
];

fn test_for<const SIZE: usize>(
    f: impl FnOnce(&mut [u8; SIZE]) -> bool,
    inp: [u8; SIZE],
    expected_out: [u8; SIZE],
) {
    let mut row = inp;
    let changed = f(&mut row);
    assert_eq!(row, expected_out, "input: {inp:?}");
    assert_eq!(changed, inp != expected_out, "input: {inp:?}");
}

#[test]
fn test_swipe_left() {
    for (inp, expected_out) in TEST_CASES.iter().copied() {
        test_for(swipe_left, inp, expected_out);
    }

    test_for(swipe_left, [], []);
    test_for(swipe_left, [1], [1]);
}

#[test]
fn test_swipe_right() {
    for (inp, expected_out) in TEST_CASES.iter().copied().map(|(mut inp, mut out)| {
        inp.reverse();
        out.reverse();
        (inp, out)
    }) {
        test_for(swipe_right, inp, expected_out);
    }

    test_for(swipe_right, [], []);
    test_for(swipe_right, [1], [1]);
}

#[test]
fn swipe_left_of_longer_rows() {
    test_for(swipe_left, [1, 1, 0, 2, 2, 0, 3], [2, 3, 3, 0, 0, 0, 0]);
    test_for(swipe_left, [0, 5], [5, 0]);
}

#[test]
fn swipe_left_4_fast_on_packed_rows() {
    let pack = |row: [u8; 4]| u32::from_le_bytes(row);
    for (inp, expected_out) in TEST_CASES.iter().copied() {
        assert_eq!(swipe_left_4_fast(pack(inp)), pack(expected_out), "input: {inp:?}");
    }
}

#[test]
fn swipe_left_4_fast_carries_a_merge_of_255_tiles() {
    assert_eq!(swipe_left_4_fast(0x0000_FFFF), 0x0000_0100);
    assert_eq!(swipe_left_4_fast(0x0001_FFFF), 0x0000_0200);
}

#[test]
fn row_swipe_safety() {
    assert!(row_swipe_is_safe(&vec![]));
    assert!(row_swipe_is_safe(&vec![1, 1, 2, 0]));
    assert!(row_swipe_is_safe(&vec![30, 30, 0, 0]));
    assert!(row_swipe_is_safe(&vec![255, 255, 0, 0]));
    assert!(!row_swipe_is_safe(&vec![0, 31, 31, 0]));
    assert!(!row_swipe_is_safe(&vec![30, 30, 30, 30]));
    assert!(row_swipe_is_safe(&vec![30, 31, 30, 31]));
}
