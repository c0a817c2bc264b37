use rust_2048_solver::bots::mean_max::max_depth::MaxDepth;
use rust_2048_solver::bots::mean_max::searcher::SearchConstraint;
use std::time::{Duration, Instant};

#[test]
fn search_constraint_builders() {
    let c = SearchConstraint::new();
    assert!(c.deadline.is_none());
    assert_eq!(c.max_depth, MaxDepth::Unlimited);
    assert_eq!(SearchConstraint::default(), c);

    let deadline = Instant::now() + Duration::from_secs(3600);
    let c = c.with_deadline(deadline).with_max_depth(MaxDepth::new(4));
    assert_eq!(c.deadline, Some(deadline));
    assert_eq!(c.max_depth, MaxDepth::new(4));
}

#[test]
fn search_constraint_deadline() {
    assert!(SearchConstraint::new().check_deadline());
    let far = SearchConstraint::new().with_deadline(Instant::now() + Duration::from_secs(3600));
    assert!(far.check_deadline());
    if let Some(earlier) = Instant::now().checked_sub(Duration::from_millis(10)) {
        let past = SearchConstraint::new().with_deadline(earlier);
        assert!(!past.check_deadline());
    }
}

#[test]
fn search_constraint_lower_depth() {
    assert!(SearchConstraint::new().has_lower_depth());
    assert!(SearchConstraint::new().with_max_depth(MaxDepth::new(1)).has_lower_depth());
    assert!(!SearchConstraint::new().with_max_depth(MaxDepth::new(0)).has_lower_depth());
}

#[test]
fn deadline_open_given_the_time_left() {
    let none = SearchConstraint::new();
    assert!(none.deadline_open_given(None));
    assert!(none.deadline_open_given(Some(0)));
    let timed = none.with_deadline(Instant::now());
    assert!(timed.deadline_open_given(Some(5)));
    assert!(!timed.deadline_open_given(Some(0)));
    assert!(!timed.deadline_open_given(None));
}

#[test]
fn search_constraint_in_words() {
    let c = SearchConstraint::new();
    assert_eq!(c.text("3s"), "for ever");
    assert_eq!(c.with_max_depth(MaxDepth::new(4)).text("3s"), "4 levels deep");
    let timed = c.with_deadline(Instant::now() + Duration::from_secs(3));
    assert_eq!(timed.text("3s"), "for 3s");
    assert_eq!(timed.with_max_depth(MaxDepth::new(12)).text("3s"), "for 3s, 12 levels deep");
}
