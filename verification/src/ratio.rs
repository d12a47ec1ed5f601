//! Exact fractions, for the averages and shares that the statistics report.

use vstd::prelude::*;

verus! {

/// A fraction of two natural numbers. Every function of this library that
/// returns one returns it with a denominator above zero.
#[derive(Debug, Clone, Copy, PartialEq, Eq)]
pub struct Ratio {
    pub numerator: u128,
    pub denominator: u128,
}

impl Ratio {
    /// Whether the fraction has a value.
    pub open spec fn is_defined(self) -> bool {
        self.denominator > 0
    }

    /// Whether the fraction is exactly `n / d`, written with these numbers.
    pub open spec fn written_as(self, n: int, d: int) -> bool {
        self.numerator == n && self.denominator == d
    }

    /// The fraction zero, written `0 / 1`.
    pub fn zero() -> (r: Ratio)
        ensures
            r.written_as(0, 1),
    {
        Ratio { numerator: 0, denominator: 1 }
    }

    /// The fraction `numerator / denominator`.
    pub fn new(numerator: u128, denominator: u128) -> (r: Ratio)
        requires
            denominator > 0,
        ensures
            r.written_as(numerator as int, denominator as int),
    {
        Ratio { numerator, denominator }
    }
}

} // verus!
