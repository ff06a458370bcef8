//! Walk-on-spheres estimation of solutions to the Laplace equation over a
//! planar domain bounded by a composite of parametric curve segments.
//!
//! Coordinates and scalars are fixed-point values: the integer `SCALE` stands
//! for one domain unit, so a point with both coordinates equal to `SCALE / 2`
//! lies at the centre of the unit square.

pub mod compute;
pub mod geometry;
pub mod numerics;

use vstd::prelude::*;

verus! {

/// Fixed-point scale: this many integer units make one domain unit.
pub const SCALE: i64 = 1_000_000;

/// Bound on the magnitude of every coordinate handled by the library,
/// chosen so that squared distances and projection products fit in `i128`.
pub const COORD_LIMIT: i64 = 0x100_0000_0000;

} // verus!
