use rust_2048_solver::utils::{HumanDuration, MaxIter, Signed};
use std::time::Duration;

#[test]
fn max_iter_example() {
    let a = [1, 2, 2, 0];
    let b = [1, 2, 1, 0];
    let c = [1, 2, 2, 0, 0];

    let mut max_iter = MaxIter::new();
    max_iter.add_iter(a.to_vec());
    max_iter.add_iter(b.to_vec());
    max_iter.add_iter(c.to_vec());

    assert_eq!(max_iter.collect(), vec![1, 2, 2, 0, 0]);
}

#[test]
fn max_iter_reads_one_item_at_a_time() {
    let mut max_iter = MaxIter::new();
    max_iter.add_iter(vec![3, 1]);
    max_iter.add_iter(vec![3, 4]);
    max_iter.add_iter(vec![2, 9, 9]);
    assert_eq!(max_iter.next(), Some(3));
    assert_eq!(max_iter.next(), Some(4));
    assert_eq!(max_iter.next(), None);
}

#[test]
fn max_iter_without_sequences_is_empty() {
    let mut max_iter = MaxIter::new();
    assert_eq!(max_iter.next(), None);
    assert_eq!(max_iter.collect(), Vec::<u8>::new());
}

#[test]
fn signed_and_human_duration_values() {
    let s = Signed::Negative(2u8);
    assert_eq!(s, Signed::Negative(2));
    assert_ne!(s, Signed::Positive(2));
    assert_eq!(HumanDuration::default(), HumanDuration(Duration::ZERO));
}
