//! Fractions, weighted values and weighted averages.
use std::ops::{Div, Mul};
use vstd::prelude::*;
use vstd::std_specs::ops::{DivSpec, MulSpec};

verus! {

/// A numerator over a denominator.
#[derive(Copy, Clone, Debug)]
pub struct Fraction<N, D> {
    pub numerator: N,
    pub denominator: D,
}

impl<N, D> Fraction<N, D> {
    /// The numerator divided by the denominator, as `N`'s division computes it.
    pub fn evaluate(self) -> (r: <N as Div<D>>::Output) where N: Div<D>
        requires
            self.numerator.div_req(self.denominator),
        ensures
            <N as DivSpec<D>>::obeys_div_spec() ==> r == self.numerator.div_spec(self.denominator),
    {
        self.numerator / self.denominator
    }
}

/// A running weighted average: the sum of the weighted values over the sum of
/// the weights.
#[derive(Clone, Debug)]
pub struct WeightedAverage<N, D>(pub Fraction<N, D>);

impl<N, D> WeightedAverage<N, D> {
    /// The average: the weighted sum divided by the total weight.
    pub fn evaluate(self) -> (r: <N as Div<D>>::Output) where N: Div<D>
        requires
            self.0.numerator.div_req(self.0.denominator),
        ensures
            <N as DivSpec<D>>::obeys_div_spec() ==> r == self.0.numerator.div_spec(self.0.denominator),
    {
        self.0.evaluate()
    }
}

/// A value with the weight it carries.
#[derive(Copy, Clone, Debug)]
pub struct Weighted<T, W> {
    pub value: T,
    pub weight: W,
}

impl<T, W> Weighted<T, W> {
    /// `value` with the weight `weight`.
    pub fn new_weighted(value: T, weight: W) -> (r: Self)
        ensures
            r.value == value,
            r.weight == weight,
    {
        Self { value, weight }
    }

    /// The value mapped by `f`, with the same weight.
    pub fn map<U, F: FnOnce(T) -> U>(self, f: F) -> (r: Weighted<U, W>)
        requires
            f.requires((self.value,)),
        ensures
            f.ensures((self.value,), r.value),
            r.weight == self.weight,
    {
        Weighted { value: f(self.value), weight: self.weight }
    }

    /// The value times its weight.
    pub fn evaluate(self) -> (r: <T as Mul<W>>::Output) where T: Mul<W>
        requires
            self.value.mul_req(self.weight),
        ensures
            <T as MulSpec<W>>::obeys_mul_spec() ==> r == self.value.mul_spec(self.weight),
    {
        self.value * self.weight
    }
}

} // verus!
