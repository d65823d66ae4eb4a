//! Benchmark scores as total-order keys.
//!
//! A benchmark result is a 64-bit floating-point score, but the aggregation
//! core never does arithmetic on it: it only compares, ranks and copies
//! scores. The core therefore carries a score as its *order key*: the IEEE-754
//! bit pattern mapped so that unsigned integer order agrees with numeric order
//! on every non-NaN score (a negative score's bits are complemented, a
//! non-negative score's bits get the sign bit set). The mapping is a bijection
//! on bit patterns, so no two distinct scores collapse into one key and the
//! original score is recoverable. The collection layer converts between
//! floating-point scores and keys.

use vstd::prelude::*;

verus! {

/// The bit that carries the IEEE-754 sign of a 64-bit float.
pub const SIGN_MASK: u64 = 0x8000_0000_0000_0000;

/// The IEEE-754 exponent bits of a 64-bit float.
pub const EXPONENT_MASK: u64 = 0x7FF0_0000_0000_0000;

/// The IEEE-754 fraction bits of a 64-bit float.
pub const FRACTION_MASK: u64 = 0x000F_FFFF_FFFF_FFFF;

/// The IEEE-754 bit pattern that the order key `key` stands for.
pub open spec fn float_bits_of_key(key: u64) -> u64 {
    if key >= SIGN_MASK {
        (key - SIGN_MASK) as u64
    } else {
        !key
    }
}

/// Whether `key` stands for a NaN score: all exponent bits set and a non-zero
/// fraction. NaN scores are incomparable; extremum selection never prefers
/// them over a comparable score.
pub open spec fn is_nan_key(key: u64) -> bool {
    float_bits_of_key(key) & EXPONENT_MASK == EXPONENT_MASK
        && float_bits_of_key(key) & FRACTION_MASK != 0
}

/// Decides whether `key` stands for a NaN score.
pub fn key_is_nan(key: u64) -> (r: bool)
    ensures
        r == is_nan_key(key),
{
    let bits: u64 = if key >= SIGN_MASK {
        key - SIGN_MASK
    } else {
        !key
    };
    bits & EXPONENT_MASK == EXPONENT_MASK && bits & FRACTION_MASK != 0
}

} // verus!
