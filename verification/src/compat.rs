//! What a curve-compatibility pass had to do to one curve.
use vstd::prelude::*;

verus! {

/// What a compatibility pass had to do to one curve. Reported, never
/// inferred: a caller that promises "bit for bit" needs to see a zero here.
#[derive(Clone, Copy, Debug, Default, PartialEq, Eq, Structural)]
pub struct CompatWork {
    /// Degrees added by degree elevation.
    pub elevated_by: usize,
    /// Knots added by knot merging.
    pub knots_inserted: usize,
    /// Whether domain normalisation moved the knot domain.
    pub domain_remapped: bool,
}

impl CompatWork {
    /// No elevation, no insertion, no re-mapping: the curve is unchanged.
    pub fn is_identity(&self) -> (result: bool)
        ensures
            result == (self.elevated_by == 0 && self.knots_inserted == 0 && !self.domain_remapped),
    {
        self.elevated_by == 0 && self.knots_inserted == 0 && !self.domain_remapped
    }
}

} // verus!
