//! The limits of a depth-first search, and the depth that each deeper search
//! goes to.
use std::time::Instant;
use vstd::prelude::*;

verus! {

/// How deep a search goes, in moves.
pub type Depth = u8;

/// The greatest depth.
pub const MAX_DEPTH: Depth = 255u8;

/// Why a search stopped without a new result.
#[derive(Debug)]
pub enum SearchError {
    /// The search reached its deadline.
    TimeOut,
    /// The previous search already went as deep as allowed.
    AtMaximumDepth,
}

impl SearchError {
    /// What went wrong, in words.
    pub fn message(&self) -> (m: &'static str)
        ensures
            self is TimeOut ==> m@ == "reached deadline before finishing search"@,
            self is AtMaximumDepth ==> m@ == "already at maximum depth"@,
    {
        match self {
            SearchError::TimeOut => "reached deadline before finishing search",
            SearchError::AtMaximumDepth => "already at maximum depth",
        }
    }
}

/// Limits on a search: a moment by which it must end, and a deepest depth.
#[derive(Copy, Clone, Debug, PartialEq, Eq)]
pub struct SearchConstraint {
    pub deadline: Option<Instant>,
    pub max_depth: usize,
}

impl Default for SearchConstraint {
    /// No deadline, and no depth limit short of the greatest `usize`.
    fn default() -> (r: Self)
        ensures
            r.deadline is None,
            r.max_depth == usize::MAX,
    {
        Self { deadline: None, max_depth: usize::MAX }
    }
}

/// When a search began and ended, and under which limits it ran.
pub struct SearchInfo {
    pub constraint: SearchConstraint,
    pub start_time: Instant,
    pub end_time: Option<Instant>,
}

/// The depth that the next search goes to, after one that reached
/// `prev_depth`: one level deeper, which must not pass `max_depth` nor the
/// greatest depth. Without a deadline the search goes straight to the
/// deepest allowed depth.
pub open spec fn spec_next_depth(prev_depth: Depth, constraint: SearchConstraint) -> Option<Depth> {
    if prev_depth == MAX_DEPTH || prev_depth + 1 > constraint.max_depth {
        None
    } else if constraint.deadline is None {
        let cap = if constraint.max_depth < MAX_DEPTH {
            constraint.max_depth as int
        } else {
            MAX_DEPTH as int
        };
        Some(
            if prev_depth + 1 < cap {
                cap as u8
            } else {
                (prev_depth + 1) as u8
            },
        )
    } else {
        Some((prev_depth + 1) as u8)
    }
}

/// A deeper search is allowed exactly when the depth after `prev_depth` is a
/// depth at all and does not pass the constraint's `max_depth`, which the
/// next search may reach. The next search then goes one level deeper with a
/// deadline, and straight to the deepest allowed depth (`max_depth`, or 255
/// when that is greater) without one.
pub proof fn lemma_next_depth_bounds(prev_depth: Depth, constraint: SearchConstraint)
    ensures
        spec_next_depth(prev_depth, constraint) is Some <==> prev_depth < 255 && prev_depth + 1
            <= constraint.max_depth,
        spec_next_depth(prev_depth, constraint) matches Some(d) ==> prev_depth < d && d
            <= constraint.max_depth,
        spec_next_depth(prev_depth, constraint) matches Some(d) ==> (constraint.deadline is Some
            ==> d == prev_depth + 1),
        spec_next_depth(prev_depth, constraint) matches Some(d) ==> (constraint.deadline is None
            ==> d == if constraint.max_depth < 255 {
            constraint.max_depth as int
        } else {
            255
        }),
{
}

/// The depth of the next, deeper search after one that reached
/// `prev_depth`; `AtMaximumDepth` when no deeper search is allowed.
pub fn next_depth(prev_depth: Depth, constraint: &SearchConstraint) -> (r: Result<
    Depth,
    SearchError,
>)
    ensures
        match r {
            Ok(d) => spec_next_depth(prev_depth, *constraint) == Some(d),
            Err(e) => spec_next_depth(prev_depth, *constraint) is None && e is AtMaximumDepth,
        },
        r is Ok <==> prev_depth < 255 && prev_depth + 1 <= constraint.max_depth,
        r matches Ok(d) ==> prev_depth < d && d <= constraint.max_depth,
        r matches Ok(d) ==> (constraint.deadline is Some ==> d == prev_depth + 1),
        r matches Ok(d) ==> (constraint.deadline is None ==> d == (if constraint.max_depth < 255 {
            constraint.max_depth as int
        } else {
            255
        })),
{
    let new_depth = match prev_depth.checked_add(1) {
        Some(depth) => depth,
        None => {
            return Err(SearchError::AtMaximumDepth);
        },
    };
    if (new_depth as usize) > constraint.max_depth {
        return Err(SearchError::AtMaximumDepth);
    }
    let mut new_depth = new_depth;
    if constraint.deadline.is_none() {
        let max_depth: u8 = if constraint.max_depth < (MAX_DEPTH as usize) {
            constraint.max_depth as u8
        } else {
            MAX_DEPTH
        };
        if new_depth < max_depth {
            new_depth = max_depth;
        }
    }
    Ok(new_depth)
}

} // verus!
