# Verified combinatorial core of a rational-NURBS geometry kernel

The kernel's geometry is measured in doubles, but much of what it decides is
combinatorial: which boxes a query can touch, which chart of the cube atlas a
point belongs to, which boundary segments of a trimmed spherical face cancel,
which polyline points become interpolation stations, when a refinement ladder
stops, how fit results are tallied. That logic lives in `src/`, written in
Verus and proved against its contracts.

A double is carried as its bit pattern (`f64::to_bits`); what the logic reads
of it, its IEEE order, is decided exactly on the bits (`float_bits`).
Floating-point arithmetic the logic needs (normalising a direction, the
distance from a point to a chord, whether two great-circle arcs cross) comes
from the caller, as closures or precomputed values, and every contract holds
whatever those answer.

## Layout

- `src/float_bits.rs` — IEEE comparisons, `min`/`max` and the `total_cmp` key
  on bit patterns.
- `src/spatial.rs` — points and axis-aligned boxes.
- `src/bvh.rs` — the bounding-volume hierarchy: build and query walk.
- `src/cube_atlas.rs` — the six charts, twelve cube edges and eight corners of
  the cube atlas of a sphere; locating a point's chart; splitting a closed
  polyline into per-chart pieces.
- `src/sphere_region.rs` — slit cancellation and the crossing-parity
  classifier of a trimmed spherical face.
- `src/canonical_points.rs` — snapping nearly equal points onto one value.
- `src/stations.rs` — Douglas-Peucker simplification, conditioning and
  decimation of interpolation stations.
- `src/fit_ladder.rs` — the refinement ladder of a polyline fit and the choice
  between its interpolation lanes.
- `src/polyline_fit.rs`, `src/pcurve_fit.rs` — fit reports, their tallies and
  the nested scopes they are recorded into.
- `src/projection.rs`, `src/compat.rs`, `src/image_curve.rs` — small tables
  and enums shared with the numerical code.
- `app/` — the `f64` side: points, tolerance-expanded box tests, the sphere
  classifier's geometry, per-thread fit scopes.
- `tests/` — executable tests of the library on concrete values.
