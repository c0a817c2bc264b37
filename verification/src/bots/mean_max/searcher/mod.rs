//! What a search is asked to do, and how it can fail.
pub mod cache;

use crate::bots::mean_max::max_depth::{depth_text, MaxDepth};
use crate::time::{nanos_between, now};
use std::time::Instant;
use vstd::prelude::*;

verus! {

/// Why a search stopped without a result.
#[derive(Debug)]
pub enum SearchError {
    /// The search reached its deadline.
    TimeOut,
}

/// Limits on a search: a moment by which it must end, and a deepest level.
#[derive(Copy, Clone, Debug, PartialEq, Eq)]
pub struct SearchConstraint {
    pub deadline: Option<Instant>,
    pub max_depth: MaxDepth,
}

/// The limits of a search in words: "for " and `time_left` (the time until
/// the deadline, as the caller words it) where there is a deadline; then, where
/// there is a depth limit, its level and " levels deep", after ", " when both
/// stand; "for ever" where there is neither.
pub open spec fn limits_text(has_deadline: bool, depth: MaxDepth, time_left: Seq<char>) -> Seq<char> {
    let head = if has_deadline {
        "for "@ + time_left
    } else {
        Seq::empty()
    };
    match depth {
        MaxDepth::Bounded(_) => head + (if has_deadline {
            ", "@
        } else {
            Seq::empty()
        }) + depth_text(depth) + " levels deep"@,
        MaxDepth::Unlimited => if has_deadline {
            head
        } else {
            "for ever"@
        },
    }
}

impl SearchConstraint {
    /// The limits in words, as [`limits_text`] says, with `time_left` as the
    /// words for the time until the deadline.
    pub fn text(&self, time_left: &str) -> (s: String)
        ensures
            s@ == limits_text(self.deadline is Some, self.max_depth, time_left@),
    {
        let has_deadline = self.deadline.is_some();
        let mut s = String::new();
        if has_deadline {
            s.append("for ");
            s.append(time_left);
        }
        match self.max_depth {
            MaxDepth::Bounded(_) => {
                if has_deadline {
                    s.append(", ");
                }
                let depth = self.max_depth.text();
                s.append(depth.as_str());
                s.append(" levels deep");
            },
            MaxDepth::Unlimited => {
                if !has_deadline {
                    s.append("for ever");
                }
            },
        }
        s
    }

    /// No deadline and no depth limit.
    pub fn new() -> (r: Self)
        ensures
            r.deadline is None,
            r.max_depth == MaxDepth::Unlimited,
    {
        Self { deadline: None, max_depth: MaxDepth::Unlimited }
    }

    /// Whether the deadline, if any, is still ahead, given `time_left`: how
    /// many nanoseconds are left from the current moment until the deadline,
    /// or `None` when the current moment is past it. Without a deadline this
    /// is always true; with one, exactly when some time is left.
    pub fn deadline_open_given(&self, time_left: Option<u128>) -> (r: bool)
        ensures
            r == match self.deadline {
                None => true,
                Some(_) => match time_left {
                    Some(nanos) => nanos > 0,
                    None => false,
                },
            },
    {
        match &self.deadline {
            None => true,
            Some(_) => match time_left {
                Some(nanos) => nanos > 0,
                None => false,
            },
        }
    }

    /// The deadline, if any, has not passed yet: the current moment comes
    /// before it. Without a deadline this is always true; with one, it is
    /// [`SearchConstraint::deadline_open_given`] of the time left that the
    /// clock gives, which nothing here can foresee.
    pub fn check_deadline(&self) -> (r: bool)
        ensures
            self.deadline is None ==> r,
    {
        match &self.deadline {
            Some(deadline) => {
                let time_left = nanos_between(&now(), deadline);
                self.deadline_open_given(time_left)
            },
            None => true,
        }
    }

    /// The depth limit can be lowered by one level: there is no limit, or the
    /// deepest level is at least 1.
    pub fn has_lower_depth(&self) -> (r: bool)
        ensures
            r == match self.max_depth.level() {
                Some(level) => level >= 1,
                None => true,
            },
    {
        self.max_depth.sub(1).is_some()
    }

    /// The same limits with the deadline `deadline`.
    pub fn with_deadline(self, deadline: Instant) -> (r: Self)
        ensures
            r.deadline == Some(deadline),
            r.max_depth == self.max_depth,
    {
        let mut this = self;
        this.deadline = Some(deadline);
        this
    }

    /// The same limits with the deepest level `max_depth`.
    pub fn with_max_depth(self, max_depth: MaxDepth) -> (r: Self)
        ensures
            r.deadline == self.deadline,
            r.max_depth == max_depth,
    {
        let mut this = self;
        this.max_depth = max_depth;
        this
    }
}

impl Default for SearchConstraint {
    /// No deadline and no depth limit.
    fn default() -> (r: Self)
        ensures
            r.deadline is None,
            r.max_depth == MaxDepth::Unlimited,
    {
        Self::new()
    }
}

} // verus!
