//! Verified combinatorial core of a rational-NURBS geometry kernel: the
//! bounding-volume hierarchy, the cube atlas of a sphere, the slit-cancelling
//! classifier of a trimmed spherical face, point snapping, the choice of
//! interpolation stations, the refinement ladder of a polyline fit, and the
//! fit tallies. Doubles are carried as bit patterns; the floating-point
//! arithmetic the logic needs comes from its caller.
use vstd::prelude::*;

pub mod float_bits;
pub mod spatial;
pub mod bvh;
pub mod sphere_region;
pub mod cube_atlas;
pub mod polyline_fit;
pub mod pcurve_fit;
pub mod compat;
pub mod image_curve;
pub mod projection;
pub mod stations;
pub mod fit_ladder;
pub mod canonical_points;
pub mod revolution;

verus! {

} // verus!
