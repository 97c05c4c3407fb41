//! The frame of a surface of revolution.
use vstd::prelude::*;

use crate::spatial::Vec3;

verus! {

/// Where a surface of revolution sits: a point on its axis, the unit axis
/// direction (positive rotation follows the right-hand rule), the unit
/// radial direction of the `u = 0` meridian, and `axis × x_axis`, so that a
/// point's azimuth is measured from `x_axis` towards `y_axis`. Coordinates
/// are doubles held as bit patterns.
#[derive(Clone, Copy, Debug)]
pub struct RevolutionFrame {
    pub origin: Vec3,
    pub axis: Vec3,
    pub x_axis: Vec3,
    pub y_axis: Vec3,
}

} // verus!
