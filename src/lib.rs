//! Scanline set operations and convex hulls over simple polygons whose
//! vertices lie on the integer grid.
//!
//! Coordinates are `i32`; every quantity derived from them (differences,
//! cross products, the abscissa where an edge line meets a scanline, the
//! vertex centroid) is computed exactly in wider integers or as a fraction,
//! so equality of points and the sign of a turn are never subject to
//! rounding.
use vstd::prelude::*;

pub mod point;
pub mod intersection;
pub mod polygon;
pub mod scan;
pub mod order;
pub mod boolean;
pub mod union;
pub mod hull;
