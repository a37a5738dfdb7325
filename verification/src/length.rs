//! Which block lengths the transform takes.
//!
//! The radix-4 transform that produces the spectrum works on blocks whose
//! length is a power of two; a block of any other length is refused before
//! anything is computed.

use vstd::prelude::*;
use vstd::arithmetic::power2::is_pow2;
use crate::error::PeakError;

verus! {

/// Tells whether `n` is a power of two.
pub fn is_power_of_two(n: usize) -> (b: bool)
    ensures
        b == is_pow2(n as int),
{
    let mut m: usize = n;
    proof {
        reveal(is_pow2);
    }
    while m > 1 && m % 2 == 0
        invariant
            is_pow2(m as int) == is_pow2(n as int),
        decreases m,
    {
        proof {
            reveal(is_pow2);
        }
        m = m / 2;
    }
    proof {
        reveal(is_pow2);
    }
    m == 1
}

/// Accepts a block length that is a power of two and refuses every other.
pub fn check_length(n: usize) -> (r: Result<(), PeakError>)
    ensures
        is_pow2(n as int) ==> r == Ok::<(), PeakError>(()),
        !is_pow2(n as int) ==> r == Err::<(), PeakError>(PeakError::InvalidLength),
{
    if is_power_of_two(n) {
        Ok(())
    } else {
        Err(PeakError::InvalidLength)
    }
}

} // verus!
