//! The lanes that can produce the 3D image of a pcurve on a surface.
use vstd::prelude::*;

verus! {

/// Which lane produced an image curve.
#[derive(Clone, Copy, Debug, Eq, PartialEq, Structural)]
pub enum ImageCurveTier {
    /// Exact homogeneous mapping through an affine surface's frame.
    Affine,
    /// Verified iso-curve extraction.
    Iso,
    /// Sampled-and-fitted approximation of the composed curve-on-surface.
    Approximated,
}

} // verus!
