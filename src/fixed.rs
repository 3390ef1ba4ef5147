use vstd::prelude::*;

verus! {

/// Number of fixed-point units in 1.0: rates and factors are stored in billionths.
pub const SCALE: u64 = 1_000_000_000;

/// Errors reported at the boundary of the library.
#[derive(Debug, Clone, Copy, PartialEq, Eq, Structural)]
pub enum ForecastError {
    /// A parameter lies outside the domain the computation is defined on.
    InvalidParameter,
    /// An intermediate fixed-point value does not fit the machine integers used.
    Overflow,
}

} // verus!
