//! How a search for a decision is handed out to searchers and taken further:
//! each searcher gets a depth limit, and each result moves the limit deeper
//! until the search is deep enough or has run out of time.
use crate::bots::mean_max::max_depth::{lemma_add_spec_level, MaxDepth};
use crate::bots::mean_max::searcher::SearchConstraint;
use vstd::prelude::*;

verus! {

/// `a` is no deeper than `b`: bounded limits by their level, and no limit
/// after every bounded one.
pub open spec fn depth_le(a: MaxDepth, b: MaxDepth) -> bool {
    match (a.level(), b.level()) {
        (_, None) => true,
        (None, Some(_)) => false,
        (Some(x), Some(y)) => x <= y,
    }
}

/// The shallower of two limits.
pub open spec fn depth_min(a: MaxDepth, b: MaxDepth) -> MaxDepth {
    if depth_le(a, b) {
        a
    } else {
        b
    }
}

/// The deeper of two limits.
pub open spec fn depth_max(a: MaxDepth, b: MaxDepth) -> MaxDepth {
    if depth_le(a, b) {
        b
    } else {
        a
    }
}

/// Whether `a` is no deeper than `b`.
pub fn depth_is_le(a: MaxDepth, b: MaxDepth) -> (r: bool)
    ensures
        r == depth_le(a, b),
{
    match (a.bound(), b.bound()) {
        (_, None) => true,
        (None, Some(_)) => false,
        (Some(x), Some(y)) => x.get() <= y.get(),
    }
}

/// The result of one searcher: the depth down to which its decision is sure,
/// and whether the decision is to resign.
#[derive(Copy, Clone, Debug, PartialEq, Eq)]
pub struct SearchOutcome {
    pub min_depth: MaxDepth,
    pub resign: bool,
}

/// Where a search for a decision stands.
#[derive(Copy, Clone, Debug, PartialEq, Eq)]
pub struct SearchSchedule {
    /// The limits of the whole search.
    pub overall: SearchConstraint,
    /// The limits of the next task to hand out.
    pub next: SearchConstraint,
    /// The outcome of the decision kept so far.
    pub best: Option<SearchOutcome>,
    /// No further task is to be handed out.
    pub done: bool,
}

/// What becomes of a search when a searcher reports `result` (`None` for a
/// search that failed): the new state, whether the reported decision replaces
/// the one kept, and the task to hand back to that searcher, if any.
pub open spec fn after_result(s: SearchSchedule, result: Option<SearchOutcome>) -> (
    SearchSchedule,
    bool,
    Option<SearchConstraint>,
) {
    match result {
        None => (SearchSchedule { done: true, ..s }, false, None),
        Some(d) => {
            let next1 = SearchConstraint {
                max_depth: depth_max(s.next.max_depth, d.min_depth),
                ..s.next
            };
            let adopt = match s.best {
                None => true,
                Some(b) => !depth_le(d.min_depth, b.min_depth),
            };
            let best = if adopt {
                d
            } else {
                s.best->0
            };
            if best.resign || depth_le(s.overall.max_depth, best.min_depth) {
                (SearchSchedule { next: next1, best: Some(best), done: true, ..s }, adopt, None)
            } else {
                let next2 = SearchConstraint { max_depth: next1.max_depth.add_spec(1), ..next1 };
                let state = SearchSchedule { next: next2, best: Some(best), ..s };
                (state, adopt, if s.done {
                    None
                } else {
                    Some(next2)
                })
            }
        },
    }
}

impl SearchSchedule {
    /// A search within `constraint`: the first task has no deadline and goes
    /// to level 0 when the search has a deadline, else straight to the depth
    /// limit; no decision yet.
    pub fn start(constraint: SearchConstraint) -> (r: Self)
        ensures
            r.overall == constraint,
            r.next.deadline is None,
            constraint.deadline is Some ==> r.next.max_depth.level() == Some(0int),
            constraint.deadline is None ==> r.next.max_depth == constraint.max_depth,
            r.best is None,
            !r.done,
    {
        let max_depth = match constraint.deadline {
            Some(_) => MaxDepth::new(0),
            None => constraint.max_depth,
        };
        SearchSchedule {
            overall: constraint,
            next: SearchConstraint { deadline: None, max_depth },
            best: None,
            done: false,
        }
    }

    /// The task for the next searcher at the start of a search. The tasks
    /// after it carry the search's deadline, each one level deeper, up to the
    /// depth limit of the search.
    pub fn first_task(&mut self) -> (task: SearchConstraint)
        ensures
            task == old(self).next,
            final(self).next.deadline == old(self).overall.deadline,
            final(self).next.max_depth == depth_min(
                old(self).next.max_depth.add_spec(1),
                old(self).overall.max_depth,
            ),
            final(self).overall == old(self).overall,
            final(self).best == old(self).best,
            final(self).done == old(self).done,
    {
        let task = self.next;
        self.next.deadline = self.overall.deadline;
        self.next.max_depth.add_assign(1);
        if !depth_is_le(self.next.max_depth, self.overall.max_depth) {
            self.next.max_depth = self.overall.max_depth;
        }
        task
    }

    /// Takes in the result of a searcher (`None` when its search failed, as
    /// on reaching the deadline). Returns whether its decision replaces the
    /// one kept (it does when it is sure to a greater depth, or when none is
    /// kept), and the next task for that searcher, if the search goes on:
    /// it stops after a failure, after a decision to resign, and once the
    /// decision kept is sure down to the depth limit.
    pub fn on_result(&mut self, result: Option<SearchOutcome>) -> (r: (bool, Option<SearchConstraint>))
        ensures
            (*final(self), r.0, r.1) == after_result(*old(self), result),
    {
        let d = match result {
            None => {
                self.done = true;
                return (false, None);
            },
            Some(d) => d,
        };
        if depth_is_le(self.next.max_depth, d.min_depth) {
            self.next.max_depth = d.min_depth;
        }
        let adopt = match self.best {
            None => true,
            Some(b) => !depth_is_le(d.min_depth, b.min_depth),
        };
        if adopt {
            self.best = Some(d);
        }
        let best = match self.best {
            Some(b) => b,
            None => d,
        };
        if best.resign || depth_is_le(self.overall.max_depth, best.min_depth) {
            self.done = true;
            return (adopt, None);
        }
        self.next.max_depth.add_assign(1);
        if self.done {
            (adopt, None)
        } else {
            (adopt, Some(self.next))
        }
    }
}

/// A task handed out after a result goes one level deeper than both the
/// limit of the task before it and the depth the result is sure to, whether
/// or not the result's decision is kept; it has no limit where that level
/// would pass 254 or either of the two has none. The task is the limit of
/// the next one.
pub proof fn lemma_task_one_level_deeper(s: SearchSchedule, result: Option<SearchOutcome>)
    ensures
        after_result(s, result).2 matches Some(t) ==> {
            &&& result is Some
            &&& after_result(s, result).0.next == t
            &&& t.max_depth.level() == match (s.next.max_depth.level(), result->0.min_depth.level()) {
                (Some(a), Some(b)) => {
                    let deeper = if a < b {
                        b
                    } else {
                        a
                    };
                    if deeper + 2 <= u8::MAX {
                        Some(deeper + 1)
                    } else {
                        None
                    }
                },
                _ => None,
            }
        },
{
    if let Some(d) = result {
        lemma_add_spec_level(depth_max(s.next.max_depth, d.min_depth), 1);
    }
}

/// Each task handed out is deeper than the one handed out just before it:
/// after two results in a row that both hand out a task, the second task
/// has no limit or a greater level than the first.
pub proof fn lemma_tasks_deepen(s: SearchSchedule, first: Option<SearchOutcome>, second: Option<SearchOutcome>)
    ensures
        ({
            let (s1, _, t1) = after_result(s, first);
            let t2 = after_result(s1, second).2;
            (t1 is Some && t2 is Some && t1->0.max_depth.level() is Some) ==> (
            t2->0.max_depth.level() is None || t2->0.max_depth.level()->0
                > t1->0.max_depth.level()->0)
        }),
{
    lemma_task_one_level_deeper(s, first);
    let s1 = after_result(s, first).0;
    lemma_task_one_level_deeper(s1, second);
}

/// Once a search is over, it stays over: no result hands out a further task.
pub proof fn lemma_done_stays_done(s: SearchSchedule, result: Option<SearchOutcome>)
    requires
        s.done,
    ensures
        after_result(s, result).0.done,
        after_result(s, result).2 is None,
{
}

/// The decision kept only gets surer: after any result, the decision kept is
/// sure down to at least the depth of the one kept before.
pub proof fn lemma_kept_decision_deepens(s: SearchSchedule, result: Option<SearchOutcome>)
    requires
        s.best is Some,
    ensures
        after_result(s, result).0.best is Some,
        depth_le(s.best->0.min_depth, after_result(s, result).0.best->0.min_depth),
{
}

} // verus!
