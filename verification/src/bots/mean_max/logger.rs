//! Records of the searches that a bot ran.
use crate::bots::mean_max::searcher::SearchConstraint;
use std::time::Instant;
use vstd::prelude::*;

verus! {

/// One search: its limits, when it started and, once it has, when it ended.
pub struct SearchInfo {
    pub constraint: SearchConstraint,
    pub start_time: Instant,
    pub end_time: Option<Instant>,
}

} // verus!
