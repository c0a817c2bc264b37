//! Moments in time, as the standard library's monotonic clock gives them.
use std::time::Instant;
use vstd::prelude::*;

verus! {

/// `std::time::Instant`, declared so that it can stand in signatures and
/// fields; what it holds is not visible.
#[verifier::external_type_specification]
#[verifier::external_body]
pub struct ExInstant(Instant);

/// `Instant::now`: the current moment. Each call may give another moment.
#[verifier::external_body]
pub(crate) fn now() -> Instant {
    Instant::now()
}

/// `Instant::checked_duration_since`, in nanoseconds: how long from
/// `earlier` until `later`, or `None` when `earlier` comes after `later`.
/// An `Instant` shows nothing of itself to Verus, so nothing is stated of
/// the result.
#[verifier::external_body]
pub(crate) fn nanos_between(earlier: &Instant, later: &Instant) -> Option<u128> {
    match later.checked_duration_since(*earlier) {
        Some(span) => Some(span.as_nanos()),
        None => None,
    }
}

} // verus!
