//! Feature values, labels and scores travel through the library as the
//! IEEE-754 bit patterns of binary64 numbers. The library never computes
//! with them; it only orders them, through a monotone integer key.
use vstd::prelude::*;

verus! {

/// The sign bit of a binary64 pattern.
pub const SIGN_BIT: u64 = 0x8000_0000_0000_0000;

/// The pattern of positive infinity: the last threshold of every map.
pub const POS_INFINITY_BITS: u64 = 0x7ff0_0000_0000_0000;

/// The pattern of `+0.0`.
pub const ZERO_BITS: u64 = 0;

/// The magnitude bits of a pattern (everything but the sign).
pub open spec fn magnitude(b: u64) -> int {
    if b < SIGN_BIT { b as int } else { b - SIGN_BIT }
}

/// A pattern is NaN when its exponent is all ones and its fraction is not zero.
pub open spec fn is_nan(b: u64) -> bool {
    magnitude(b) > POS_INFINITY_BITS
}

/// The order key of a pattern: for numbers that are not NaN,
/// `key(a) <= key(b)` exactly when `a <= b` as binary64 values
/// (so `-0.0` and `+0.0` share one key). NaN patterns sort beyond the
/// infinities, by sign.
pub open spec fn key(b: u64) -> int {
    if b < SIGN_BIT { b + SIGN_BIT } else { SIGN_BIT - (b - SIGN_BIT) }
}

/// `a <= b` in the order of keys.
pub open spec fn le(a: u64, b: u64) -> bool {
    key(a) <= key(b)
}

/// Computes the order key of a pattern.
pub fn order_key(b: u64) -> (r: u64)
    ensures
        r == key(b),
{
    if b < SIGN_BIT {
        b + SIGN_BIT
    } else {
        SIGN_BIT - (b - SIGN_BIT)
    }
}

/// Whether `a <= b` in the order of keys.
pub fn value_le(a: u64, b: u64) -> (r: bool)
    ensures
        r == le(a, b),
{
    order_key(a) <= order_key(b)
}

/// Whether a pattern is NaN.
pub fn is_nan_bits(b: u64) -> (r: bool)
    ensures
        r == is_nan(b),
{
    if b < SIGN_BIT {
        b > POS_INFINITY_BITS
    } else {
        b - SIGN_BIT > POS_INFINITY_BITS
    }
}

} // verus!
