//! Values that only combine with values of the same priority.
use std::cmp::Ordering;
use std::ops::Add;
use vstd::prelude::*;
use vstd::std_specs::cmp::OrdSpec;
use vstd::std_specs::ops::AddSpec;

verus! {

/// A value with a priority: of two, the one of higher priority wins, and two
/// of the same priority add up.
#[derive(Copy, Clone, Debug, Default)]
pub struct Prioritized<V, P> {
    pub value: V,
    pub priority: P,
}

impl<V: Add<Output = V>, P: Ord> Prioritized<V, P> {
    /// The one of higher priority; the sum of the values where the priorities
    /// are equal.
    pub fn add(self, rhs: Self) -> (r: Self)
        requires
            self.value.add_req(rhs.value),
        ensures
            P::obeys_cmp_spec() ==> match self.priority.cmp_spec(&rhs.priority) {
                Ordering::Less => r == rhs,
                Ordering::Greater => r == self,
                Ordering::Equal => r.priority == self.priority && (V::obeys_add_spec() ==> r.value
                    == self.value.add_spec(rhs.value)),
            },
    {
        match self.priority.cmp(&rhs.priority) {
            Ordering::Less => rhs,
            Ordering::Equal => Prioritized { value: self.value + rhs.value, priority: self.priority },
            Ordering::Greater => self,
        }
    }
}

} // verus!
