use vstd::prelude::*;

verus! {

/// Why an analysis was refused.
#[derive(Debug, Clone, Copy, PartialEq, Eq, Structural)]
pub enum PeakError {
    /// The number of spectrum bins is not a power of two.
    InvalidLength,
    /// The height threshold is negative or not a number.
    DegenerateParameters,
}

} // verus!
