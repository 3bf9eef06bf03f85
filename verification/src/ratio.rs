//! Quotients that stay exact.

use vstd::prelude::*;

verus! {

/// A quotient of two counts, kept as its two parts.
///
/// The denominator is never zero: a quotient that has nothing to divide by is
/// stored as zero over one.
#[derive(Debug, Clone, Copy, PartialEq, Eq, Structural)]
pub struct Ratio {
    /// The number that is divided.
    pub numerator: u64,
    /// The number that divides.
    pub denominator: u64,
}

impl Ratio {
    /// `numerator` over `denominator`, or zero where `denominator` is zero.
    pub open spec fn of(numerator: u64, denominator: u64) -> Ratio {
        if denominator == 0 {
            Ratio { numerator: 0, denominator: 1 }
        } else {
            Ratio { numerator, denominator }
        }
    }

    /// Form `numerator` over `denominator`, or zero where `denominator` is zero.
    pub fn new(numerator: u64, denominator: u64) -> (ratio: Ratio)
        ensures
            ratio == Ratio::of(numerator, denominator),
            ratio.denominator > 0,
    {
        if denominator == 0 {
            Ratio { numerator: 0, denominator: 1 }
        } else {
            Ratio { numerator, denominator }
        }
    }
}

/// A quotient is the first number over the second, and zero where there is nothing to divide
/// by.
pub proof fn law_quotients(numerator: u64, denominator: u64)
    ensures
        denominator > 0 ==> Ratio::of(numerator, denominator).numerator == numerator && Ratio::of(
            numerator,
            denominator,
        ).denominator == denominator,
        Ratio::of(numerator, 0).numerator == 0,
        Ratio::of(numerator, 0).denominator == 1,
{
}

} // verus!
