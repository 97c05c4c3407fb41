//! Axis-aligned bounding boxes over points whose coordinates are doubles held
//! as bit patterns (see [`crate::float_bits`]).
//!
//! A box is the pair of its minimum and maximum corners. Growing a box takes
//! per-axis `f64::min` / `f64::max`, and a containment test is six IEEE
//! comparisons, so everything here is exact: a box grown by a point contains
//! that point, the empty box contains nothing, and growing never loses a
//! point already inside.
use vstd::prelude::*;

use crate::float_bits::{self, ieee_le, is_nan, max_value, min_value};

verus! {

/// A point or vector whose coordinates are binary64 bit patterns
/// (`f64::to_bits` of each coordinate).
#[derive(Clone, Copy, Debug, PartialEq, Eq, Structural)]
pub struct Vec3 {
    pub x: u64,
    pub y: u64,
    pub z: u64,
}

/// Coordinate `index` of `point`: `x`, `y`, then `z` for every other index.
pub open spec fn coordinate(point: Vec3, index: int) -> u64 {
    if index == 0 {
        point.x
    } else if index == 1 {
        point.y
    } else {
        point.z
    }
}

/// Whether any coordinate of `point` is NaN.
pub open spec fn has_nan(point: Vec3) -> bool {
    is_nan(point.x) || is_nan(point.y) || is_nan(point.z)
}

/// Coordinatewise `a <= b`.
pub open spec fn point_le(a: Vec3, b: Vec3) -> bool {
    ieee_le(a.x, b.x) && ieee_le(a.y, b.y) && ieee_le(a.z, b.z)
}

/// Coordinate `index` of `point`, as `axis` reads it.
pub fn axis(point: Vec3, index: usize) -> (result: u64)
    ensures
        result == coordinate(point, index as int),
{
    match index {
        0 => point.x,
        1 => point.y,
        _ => point.z,
    }
}

#[derive(Clone, Copy, Debug)]
pub struct Aabb {
    pub minimum: Vec3,
    pub maximum: Vec3,
}

/// Whether the closed box contains `point`: every coordinate between the
/// corners under IEEE `<=`, so a NaN coordinate is never contained.
pub open spec fn box_contains(bounds: Aabb, point: Vec3) -> bool {
    point_le(bounds.minimum, point) && point_le(point, bounds.maximum)
}

/// Whether `outer` encloses `inner`: both corners of `inner` lie in `outer`.
pub open spec fn encloses(outer: Aabb, inner: Aabb) -> bool {
    point_le(outer.minimum, inner.minimum) && point_le(inner.maximum, outer.maximum)
}

/// Whether a box has a NaN anywhere in its corners.
pub open spec fn box_has_nan(bounds: Aabb) -> bool {
    has_nan(bounds.minimum) || has_nan(bounds.maximum)
}

/// `bounds` after `include_point(point)`: per-axis `f64::min` into the
/// minimum corner and `f64::max` into the maximum corner.
pub open spec fn grow(bounds: Aabb, point: Vec3) -> Aabb {
    Aabb {
        minimum: Vec3 {
            x: min_value(bounds.minimum.x, point.x),
            y: min_value(bounds.minimum.y, point.y),
            z: min_value(bounds.minimum.z, point.z),
        },
        maximum: Vec3 {
            x: max_value(bounds.maximum.x, point.x),
            y: max_value(bounds.maximum.y, point.y),
            z: max_value(bounds.maximum.z, point.z),
        },
    }
}

/// `bounds` after `include_box(other)`: grown by both corners of `other`.
pub open spec fn union(bounds: Aabb, other: Aabb) -> Aabb {
    grow(grow(bounds, other.minimum), other.maximum)
}

/// The box [`Aabb::from_points`] builds: the empty box grown by each point in
/// turn.
pub open spec fn bounds_of(points: Seq<Vec3>) -> Aabb
    decreases points.len(),
{
    if points.len() == 0 {
        empty_box()
    } else {
        grow(bounds_of(points.drop_last()), points.last())
    }
}

/// The empty box as `Aabb::empty` builds it: minimum `+inf`, maximum `-inf`.
pub open spec fn empty_box() -> Aabb {
    Aabb {
        minimum: Vec3 { x: float_bits::INFINITY, y: float_bits::INFINITY, z: float_bits::INFINITY },
        maximum: Vec3 {
            x: float_bits::NEG_INFINITY,
            y: float_bits::NEG_INFINITY,
            z: float_bits::NEG_INFINITY,
        },
    }
}

impl Aabb {
    /// The box that contains nothing: minimum at `+inf`, maximum at `-inf`,
    /// so the first point included becomes both corners.
    pub fn empty() -> (result: Self)
        ensures
            result == empty_box(),
    {
        Aabb {
            minimum: Vec3 { x: float_bits::INFINITY, y: float_bits::INFINITY, z: float_bits::INFINITY },
            maximum: Vec3 {
                x: float_bits::NEG_INFINITY,
                y: float_bits::NEG_INFINITY,
                z: float_bits::NEG_INFINITY,
            },
        }
    }

    /// Grow the box to take in `point`: per-axis `f64::min` into the minimum
    /// and `f64::max` into the maximum.
    pub fn include_point(&mut self, point: Vec3)
        ensures
            *final(self) == grow(*old(self), point),
    {
        self.minimum.x = float_bits::min(self.minimum.x, point.x);
        self.minimum.y = float_bits::min(self.minimum.y, point.y);
        self.minimum.z = float_bits::min(self.minimum.z, point.z);
        self.maximum.x = float_bits::max(self.maximum.x, point.x);
        self.maximum.y = float_bits::max(self.maximum.y, point.y);
        self.maximum.z = float_bits::max(self.maximum.z, point.z);
    }

    /// Grow the box to take in both corners of `other`.
    pub fn include_box(&mut self, other: Self)
        ensures
            *final(self) == union(*old(self), other),
    {
        self.include_point(other.minimum);
        self.include_point(other.maximum);
    }

    /// The box of every point in `points`, starting from [`Aabb::empty`].
    pub fn from_points(points: &[Vec3]) -> (result: Self)
        ensures
            result == bounds_of(points@),
    {
        let mut bounds = Self::empty();
        let mut index: usize = 0;
        while index < points.len()
            invariant
                index <= points@.len(),
                bounds == bounds_of(points@.subrange(0, index as int)),
            decreases points@.len() - index,
        {
            assert(points@.subrange(0, index + 1).drop_last() == points@.subrange(0, index as int));
            bounds.include_point(points[index]);
            index = index + 1;
        }
        assert(points@.subrange(0, points@.len() as int) == points@);
        bounds
    }

    /// Whether `point` lies in the closed box.
    pub fn contains(self, point: Vec3) -> (result: bool)
        ensures
            result == box_contains(self, point),
    {
        float_bits::ge(point.x, self.minimum.x) && float_bits::le(point.x, self.maximum.x)
            && float_bits::ge(point.y, self.minimum.y) && float_bits::le(point.y, self.maximum.y)
            && float_bits::ge(point.z, self.minimum.z) && float_bits::le(point.z, self.maximum.z)
    }
}

/// The empty box contains no point at all, not even an infinite one.
pub proof fn lemma_empty_contains_nothing(point: Vec3)
    ensures
        !box_contains(empty_box(), point),
{
}

/// A box grown by a point contains that point, unless a coordinate of the
/// point is NaN.
pub proof fn lemma_grow_contains_point(bounds: Aabb, point: Vec3)
    requires
        !has_nan(point),
    ensures
        box_contains(grow(bounds, point), point),
{
}

/// Growing a box never loses a point it already contained.
pub proof fn lemma_grow_keeps_point(bounds: Aabb, point: Vec3, kept: Vec3)
    requires
        box_contains(bounds, kept),
    ensures
        box_contains(grow(bounds, point), kept),
{
}

/// Growing a box never loses a box it already enclosed.
pub proof fn lemma_grow_keeps_box(bounds: Aabb, point: Vec3, inner: Aabb)
    requires
        encloses(bounds, inner),
    ensures
        encloses(grow(bounds, point), inner),
{
}

/// `include_box(other)` leaves a box that encloses `other` (when `other` has no
/// NaN corner) and everything the box enclosed before.
pub proof fn lemma_union_encloses(bounds: Aabb, other: Aabb, inner: Aabb)
    ensures
        !box_has_nan(other) ==> encloses(union(bounds, other), other),
        encloses(bounds, inner) ==> encloses(union(bounds, other), inner),
{
    if encloses(bounds, inner) {
        lemma_grow_keeps_box(bounds, other.minimum, inner);
        lemma_grow_keeps_box(grow(bounds, other.minimum), other.maximum, inner);
    }
}

/// A box that encloses another contains every point the other contains.
pub proof fn lemma_enclosed_points(outer: Aabb, inner: Aabb, point: Vec3)
    requires
        encloses(outer, inner),
        box_contains(inner, point),
    ensures
        box_contains(outer, point),
{
}

/// The box of a point set is a conservative bound: it contains every point of
/// the set that has no NaN coordinate.
pub proof fn lemma_bounds_of_contains(points: Seq<Vec3>, i: int)
    requires
        0 <= i < points.len(),
        !has_nan(points[i]),
    ensures
        box_contains(bounds_of(points), points[i]),
    decreases points.len(),
{
    if i == points.len() - 1 {
        lemma_grow_contains_point(bounds_of(points.drop_last()), points[i]);
    } else {
        lemma_bounds_of_contains(points.drop_last(), i);
        lemma_grow_keeps_point(bounds_of(points.drop_last()), points.last(), points[i]);
    }
}

} // verus!
