//! An integer order on single-precision bit patterns.
//!
//! A pattern is a sign bit over 31 bits of magnitude. For patterns that
//! encode numbers, a larger magnitude is a number farther from zero, so the
//! signed magnitude orders the patterns exactly as the numbers they encode,
//! with both zeros at level zero. Patterns beyond the infinities encode no
//! number, and their levels order nothing: whoever compares levels tells
//! those patterns apart first.

use vstd::prelude::*;

verus! {

/// The sign bit of a pattern; every pattern from here up is negative.
pub const SIGN_BIT: u32 = 0x8000_0000;

/// The pattern of positive infinity, which is also its level.
pub const INFINITY_BITS: u32 = 0x7f80_0000;

/// The largest level any pattern has.
pub const LEVEL_MAX: i64 = 0x7fff_ffff;

/// The 31 magnitude bits of a pattern.
pub open spec fn magnitude(bits: u32) -> int {
    if bits < SIGN_BIT {
        bits as int
    } else {
        bits - SIGN_BIT
    }
}

/// The signed magnitude of a pattern.
pub open spec fn level(bits: u32) -> int {
    if bits < SIGN_BIT {
        magnitude(bits)
    } else {
        -magnitude(bits)
    }
}

/// Whether a pattern encodes no number.
pub open spec fn is_nan(bits: u32) -> bool {
    magnitude(bits) > INFINITY_BITS
}

/// Computes the level of a pattern.
pub fn level_of(bits: u32) -> (l: i64)
    ensures
        l == level(bits),
        -LEVEL_MAX <= l <= LEVEL_MAX,
{
    if bits < SIGN_BIT {
        bits as i64
    } else {
        let mag: u32 = bits - SIGN_BIT;
        -(mag as i64)
    }
}

/// Tells whether a pattern encodes no number.
pub fn is_nan_bits(bits: u32) -> (b: bool)
    ensures
        b == is_nan(bits),
{
    if bits < SIGN_BIT {
        bits > INFINITY_BITS
    } else {
        bits - SIGN_BIT > INFINITY_BITS
    }
}

} // verus!
