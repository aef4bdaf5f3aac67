//! Fractions of integers, which hold the derived figures exactly.

use vstd::prelude::*;

verus! {

/// The fraction `num / den`. The denominator of every `Ratio` that this
/// library hands out is positive.
#[derive(Debug, Clone, Copy)]
pub struct Ratio {
    pub num: i128,
    pub den: i128,
}

impl Ratio {
    /// The denominator is positive.
    pub open spec fn wf(&self) -> bool {
        self.den > 0
    }
}

impl View for Ratio {
    type V = real;

    /// The number that the fraction stands for.
    open spec fn view(&self) -> real {
        self.num as real / (self.den as real)
    }
}

} // verus!
