//! An immutable 3D coordinate value.

use vstd::prelude::*;

verus! {

/// A point in three-dimensional space with integer coordinates.
///
/// Coordinates are plain `i64` values; a value type that is freely copied.
#[derive(Clone, Copy, Debug, PartialEq, Eq, Structural)]
pub struct Point {
    pub x: i64,
    pub y: i64,
    pub z: i64,
}

impl Point {
    /// Constructs the point (x, y, z).
    pub fn new(x: i64, y: i64, z: i64) -> (p: Point)
        ensures
            p == (Point { x, y, z }),
    {
        Point { x, y, z }
    }
}

} // verus!
