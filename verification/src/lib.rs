//! Arbitrary-precision signed integers in base 1,000,000,000, with verified
//! arithmetic, comparison and decimal text conversion.

use vstd::prelude::*;

pub mod limbs;
pub mod magnitude;
pub mod decimal;
pub mod number;
pub mod laws;

pub use crate::number::{BigInt, DivisionByZero, ParseError};

verus! {

/// Adds two machine words.
///
/// The sum has to fit in a `u64`; the result is then the exact sum.
pub fn add(left: u64, right: u64) -> (sum: u64)
    requires
        left + right <= u64::MAX,
    ensures
        sum == left + right,
{
    left + right
}

} // verus!
