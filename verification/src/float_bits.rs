//! IEEE-754 binary64 values held as their bit patterns.
//!
//! The geometry this library reasons about is measured in doubles, but what
//! its combinatorial logic reads of a double is only its ORDER: which of two
//! coordinates is smaller, whether a value is NaN, where `total_cmp` puts it.
//! All of that is a function of the bit pattern alone, so a coordinate is
//! carried here as the `u64` that `f64::to_bits` returns and compared in
//! integer arithmetic.
//!
//! The model: a non-NaN double is placed on the line by its `rank`, the signed
//! magnitude of its bit pattern (sign bit applied to the low 63 bits). Both
//! zeros have rank 0, and for every pair of non-NaN doubles `a <= b` holds
//! exactly when `rank(a) <= rank(b)`, because exponent-then-mantissa order is
//! value order for each sign. NaN (exponent all ones, mantissa non-zero)
//! compares false with everything.
use vstd::prelude::*;

verus! {

/// The sign bit of a binary64 pattern.
pub const SIGN_BIT: u64 = 0x8000_0000_0000_0000;

/// `f64::INFINITY.to_bits()`.
pub const INFINITY: u64 = 0x7FF0_0000_0000_0000;

/// `f64::NEG_INFINITY.to_bits()`.
pub const NEG_INFINITY: u64 = 0xFFF0_0000_0000_0000;

/// `0.0f64.to_bits()`.
pub const ZERO: u64 = 0;

/// The low 63 bits: exponent and mantissa, without the sign.
pub open spec fn magnitude(bits: u64) -> int {
    if bits >= SIGN_BIT {
        bits - SIGN_BIT
    } else {
        bits as int
    }
}

/// Whether the pattern is a NaN: exponent all ones and a non-zero mantissa.
pub open spec fn is_nan(bits: u64) -> bool {
    magnitude(bits) > INFINITY
}

/// Position of a non-NaN double on the real line, up to order.
pub open spec fn rank(bits: u64) -> int {
    if bits >= SIGN_BIT {
        -magnitude(bits)
    } else {
        magnitude(bits)
    }
}

/// IEEE `a <= b`.
pub open spec fn ieee_le(a: u64, b: u64) -> bool {
    !is_nan(a) && !is_nan(b) && rank(a) <= rank(b)
}

/// IEEE `a < b`.
pub open spec fn ieee_lt(a: u64, b: u64) -> bool {
    !is_nan(a) && !is_nan(b) && rank(a) < rank(b)
}

/// The key `f64::total_cmp` orders by: the bit pattern read as a signed
/// integer, with the magnitude bits of negative values flipped.
pub open spec fn total_key(bits: u64) -> int {
    if bits >= SIGN_BIT {
        -1 - magnitude(bits)
    } else {
        magnitude(bits)
    }
}

/// Whether `bits` is a NaN pattern.
pub fn nan(bits: u64) -> (result: bool)
    ensures
        result == is_nan(bits),
{
    let magnitude_bits = if bits >= SIGN_BIT {
        bits - SIGN_BIT
    } else {
        bits
    };
    magnitude_bits > INFINITY
}

/// The rank of a pattern as a machine integer.
fn rank_of(bits: u64) -> (result: i64)
    ensures
        result == rank(bits),
{
    if bits >= SIGN_BIT {
        let magnitude_bits = bits - SIGN_BIT;
        -(magnitude_bits as i64)
    } else {
        bits as i64
    }
}

/// `f64::from_bits(a) <= f64::from_bits(b)`.
pub fn le(a: u64, b: u64) -> (result: bool)
    ensures
        result == ieee_le(a, b),
{
    !nan(a) && !nan(b) && rank_of(a) <= rank_of(b)
}

/// `f64::from_bits(a) < f64::from_bits(b)`.
pub fn lt(a: u64, b: u64) -> (result: bool)
    ensures
        result == ieee_lt(a, b),
{
    !nan(a) && !nan(b) && rank_of(a) < rank_of(b)
}

/// `f64::from_bits(a) >= f64::from_bits(b)`.
pub fn ge(a: u64, b: u64) -> (result: bool)
    ensures
        result == ieee_le(b, a),
{
    le(b, a)
}

/// The smaller of two doubles as [`min`] returns it: a NaN argument is
/// ignored, and of two equal values the first is kept.
pub open spec fn min_value(a: u64, b: u64) -> u64 {
    if is_nan(a) {
        b
    } else if is_nan(b) {
        a
    } else if rank(b) < rank(a) {
        b
    } else {
        a
    }
}

/// The larger of two doubles as [`max`] returns it: a NaN argument is
/// ignored, and of two equal values the first is kept.
pub open spec fn max_value(a: u64, b: u64) -> u64 {
    if is_nan(a) {
        b
    } else if is_nan(b) {
        a
    } else if rank(a) < rank(b) {
        b
    } else {
        a
    }
}

/// `f64::from_bits(a).min(f64::from_bits(b))`, as bits.
///
/// As the standard library documents `f64::min`: a NaN argument is ignored
/// and the other one returned. Of two equal values (the two zeros) the
/// standard library may return either; this one returns `a`.
pub fn min(a: u64, b: u64) -> (result: u64)
    ensures
        result == min_value(a, b),
{
    if nan(a) {
        b
    } else if nan(b) {
        a
    } else if lt(b, a) {
        b
    } else {
        a
    }
}

/// `f64::from_bits(a).max(f64::from_bits(b))`, as bits.
///
/// A NaN argument is ignored and the other one returned; of two equal values
/// this one returns `a`.
pub fn max(a: u64, b: u64) -> (result: u64)
    ensures
        result == max_value(a, b),
{
    if nan(a) {
        b
    } else if nan(b) {
        a
    } else if lt(a, b) {
        b
    } else {
        a
    }
}

/// The key `f64::total_cmp` orders `f64::from_bits(bits)` by.
pub fn total_key_of(bits: u64) -> (result: i64)
    ensures
        result == total_key(bits),
{
    if bits >= SIGN_BIT {
        let magnitude_bits = bits - SIGN_BIT;
        -1 - (magnitude_bits as i64)
    } else {
        bits as i64
    }
}

/// What `f64::min` promises of [`min`]: one of its arguments comes back, a
/// NaN is passed over, and between two non-NaN values the smaller one is
/// returned.
pub proof fn lemma_min_value(a: u64, b: u64)
    ensures
        min_value(a, b) == a || min_value(a, b) == b,
        is_nan(a) ==> min_value(a, b) == b,
        is_nan(b) ==> min_value(a, b) == a || is_nan(a),
        !is_nan(a) && !is_nan(b) ==> ieee_le(min_value(a, b), a) && ieee_le(min_value(a, b), b),
{
}

/// What `f64::max` promises of [`max`], as for [`lemma_min_value`].
pub proof fn lemma_max_value(a: u64, b: u64)
    ensures
        max_value(a, b) == a || max_value(a, b) == b,
        is_nan(a) ==> max_value(a, b) == b,
        is_nan(b) ==> max_value(a, b) == a || is_nan(a),
        !is_nan(a) && !is_nan(b) ==> ieee_le(a, max_value(a, b)) && ieee_le(b, max_value(a, b)),
{
}

/// `<=` between doubles is transitive.
pub proof fn lemma_le_transitive(a: u64, b: u64, c: u64)
    requires
        ieee_le(a, b),
        ieee_le(b, c),
    ensures
        ieee_le(a, c),
{
}

/// A double compares `<=` to itself exactly when it is not NaN.
pub proof fn lemma_le_reflexive(a: u64)
    ensures
        ieee_le(a, a) == !is_nan(a),
{
}

/// `total_cmp` orders non-NaN doubles consistently with `<`: a strictly
/// smaller value always has a strictly smaller total key.
pub proof fn lemma_total_key_respects_lt(a: u64, b: u64)
    requires
        ieee_lt(a, b),
    ensures
        total_key(a) < total_key(b),
{
}

} // verus!
