//! Layout of the boundary-ring sample cache used by point projection's
//! degenerate fallback: four sides, twenty-two halving exponents, thirty-three
//! indices along the side, flattened into one table.
use vstd::prelude::*;

verus! {

/// Sides of the parameter rectangle: v-low, v-high, u-low, u-high.
pub const RING_SIDES: usize = 4;

/// Halving exponents `1..=22` sampled inward from each side.
pub const RING_EXPONENTS: usize = 22;

/// Indices `0..=32` along a side.
pub const RING_INDICES: usize = 33;

/// The flattened slot of `(side, exponent_index, index)`.
pub open spec fn ring_slot_spec(side: int, exponent_index: int, index: int) -> int {
    (side * RING_EXPONENTS + exponent_index) * RING_INDICES + index
}

/// The slot of sample `index` at halving exponent `exponent_index + 1` on
/// `side` in the flattened boundary-ring table.
pub fn ring_slot(side: usize, exponent_index: usize, index: usize) -> (result: usize)
    requires
        ring_slot_spec(side as int, exponent_index as int, index as int) <= usize::MAX,
    ensures
        result == ring_slot_spec(side as int, exponent_index as int, index as int),
{
    proof {
        assert(side * 22 + exponent_index <= (side * 22 + exponent_index) * 33) by (nonlinear_arith);
    }
    (side * RING_EXPONENTS + exponent_index) * RING_INDICES + index
}

/// The table has exactly one slot per sample: every in-range triple lands
/// inside the `4 * 22 * 33` entries, and two different triples never share
/// a slot.
pub proof fn lemma_ring_slot_is_a_bijection(
    side: int,
    exponent_index: int,
    index: int,
    other_side: int,
    other_exponent_index: int,
    other_index: int,
)
    requires
        0 <= side < 4,
        0 <= exponent_index < 22,
        0 <= index < 33,
        0 <= other_side < 4,
        0 <= other_exponent_index < 22,
        0 <= other_index < 33,
    ensures
        0 <= ring_slot_spec(side, exponent_index, index) < RING_SIDES * RING_EXPONENTS * RING_INDICES,
        ring_slot_spec(side, exponent_index, index) == ring_slot_spec(
            other_side,
            other_exponent_index,
            other_index,
        ) ==> side == other_side && exponent_index == other_exponent_index && index == other_index,
{
    let a = side * 22 + exponent_index;
    let b = other_side * 22 + other_exponent_index;
    assert(0 <= a < 88);
    assert(0 <= b < 88);
    assert(a * 33 + index == b * 33 + other_index ==> a == b && index == other_index) by (nonlinear_arith)
        requires
            0 <= index < 33,
            0 <= other_index < 33,
    ;
    assert(a == b ==> side == other_side && exponent_index == other_exponent_index) by (nonlinear_arith)
        requires
            a == side * 22 + exponent_index,
            b == other_side * 22 + other_exponent_index,
            0 <= exponent_index < 22,
            0 <= other_exponent_index < 22,
    ;
    assert(a * 33 + index < 2904) by (nonlinear_arith)
        requires
            0 <= a < 88,
            0 <= index < 33,
    ;
}

} // verus!
