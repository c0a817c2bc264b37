use rust_2048_solver::bots::dfs::{next_depth, SearchConstraint, SearchError, MAX_DEPTH};
use std::time::{Duration, Instant};

#[test]
fn next_depth_without_deadline_goes_to_the_limit() {
    let constraint = SearchConstraint { deadline: None, max_depth: 6 };
    assert_eq!(next_depth(2, &constraint).unwrap(), 6);
    let unlimited = SearchConstraint::default();
    assert_eq!(next_depth(2, &unlimited).unwrap(), MAX_DEPTH);
}

#[test]
fn next_depth_with_deadline_goes_one_deeper() {
    let constraint = SearchConstraint {
        deadline: Some(Instant::now() + Duration::from_secs(60)),
        max_depth: 6,
    };
    assert_eq!(next_depth(2, &constraint).unwrap(), 3);
}

#[test]
fn next_depth_at_the_limit_fails() {
    let constraint = SearchConstraint { deadline: None, max_depth: 6 };
    assert!(matches!(next_depth(6, &constraint), Err(SearchError::AtMaximumDepth)));
    let unlimited = SearchConstraint::default();
    assert!(matches!(next_depth(MAX_DEPTH, &unlimited), Err(SearchError::AtMaximumDepth)));
}

#[test]
fn search_error_messages() {
    assert_eq!(SearchError::TimeOut.message(), "reached deadline before finishing search");
    assert_eq!(SearchError::AtMaximumDepth.message(), "already at maximum depth");
}
