use rust_2048_solver::bots::mean_max::max_depth::MaxDepth;
use rust_2048_solver::bots::mean_max::schedule::{depth_is_le, SearchOutcome, SearchSchedule};
use rust_2048_solver::bots::mean_max::searcher::SearchConstraint;
use std::time::{Duration, Instant};

#[test]
fn depth_order_puts_unlimited_last() {
    assert!(depth_is_le(MaxDepth::new(3), MaxDepth::new(4)));
    assert!(depth_is_le(MaxDepth::new(4), MaxDepth::new(4)));
    assert!(!depth_is_le(MaxDepth::new(5), MaxDepth::new(4)));
    assert!(depth_is_le(MaxDepth::new(200), MaxDepth::Unlimited));
    assert!(!depth_is_le(MaxDepth::Unlimited, MaxDepth::new(0)));
}

#[test]
fn first_tasks_go_one_level_deeper_each() {
    let deadline = Instant::now() + Duration::from_secs(60);
    let constraint = SearchConstraint::new().with_deadline(deadline).with_max_depth(MaxDepth::new(2));
    let mut schedule = SearchSchedule::start(constraint);

    let first = schedule.first_task();
    assert_eq!(first.deadline, None);
    assert_eq!(first.max_depth, MaxDepth::new(0));

    let second = schedule.first_task();
    assert_eq!(second.deadline, Some(deadline));
    assert_eq!(second.max_depth, MaxDepth::new(1));

    let third = schedule.first_task();
    assert_eq!(third.max_depth, MaxDepth::new(2));
    let fourth = schedule.first_task();
    assert_eq!(fourth.max_depth, MaxDepth::new(2));
}

#[test]
fn without_deadline_the_first_task_goes_to_the_limit() {
    let constraint = SearchConstraint::new().with_max_depth(MaxDepth::new(5));
    let mut schedule = SearchSchedule::start(constraint);
    assert_eq!(schedule.first_task().max_depth, MaxDepth::new(5));
}

#[test]
fn results_move_the_search_deeper() {
    let deadline = Instant::now() + Duration::from_secs(60);
    let constraint = SearchConstraint::new().with_deadline(deadline);
    let mut schedule = SearchSchedule::start(constraint);
    let _ = schedule.first_task();

    let (adopt, next) = schedule.on_result(Some(SearchOutcome { min_depth: MaxDepth::new(0), resign: false }));
    assert!(adopt);
    assert_eq!(next.map(|c| c.max_depth), Some(MaxDepth::new(2)));

    // A result that is not deeper than the one kept is not adopted.
    let (adopt, _) = schedule.on_result(Some(SearchOutcome { min_depth: MaxDepth::new(0), resign: false }));
    assert!(!adopt);

    let (adopt, next) = schedule.on_result(Some(SearchOutcome { min_depth: MaxDepth::new(4), resign: false }));
    assert!(adopt);
    assert_eq!(next.map(|c| c.max_depth), Some(MaxDepth::new(5)));
}

#[test]
fn a_failure_ends_the_search() {
    let constraint = SearchConstraint::new().with_deadline(Instant::now());
    let mut schedule = SearchSchedule::start(constraint);
    let _ = schedule.first_task();
    assert_eq!(schedule.on_result(None), (false, None));
    assert!(schedule.done);
    let (adopt, next) = schedule.on_result(Some(SearchOutcome { min_depth: MaxDepth::new(3), resign: false }));
    assert!(adopt);
    assert_eq!(next, None);
}

#[test]
fn resigning_or_reaching_the_limit_ends_the_search() {
    let constraint = SearchConstraint::new().with_deadline(Instant::now()).with_max_depth(MaxDepth::new(3));
    let mut schedule = SearchSchedule::start(constraint);
    let (adopt, next) = schedule.on_result(Some(SearchOutcome { min_depth: MaxDepth::new(3), resign: false }));
    assert!(adopt);
    assert_eq!(next, None);
    assert!(schedule.done);

    let mut schedule = SearchSchedule::start(SearchConstraint::new().with_deadline(Instant::now()));
    let (adopt, next) = schedule.on_result(Some(SearchOutcome { min_depth: MaxDepth::Unlimited, resign: true }));
    assert!(adopt);
    assert_eq!(next, None);
}
