//! An axis-aligned bounding cube: a cubic region given by center and half-size.

use vstd::prelude::*;
use crate::point::Point;

verus! {

/// A cubic region of space, axis-aligned, given by its center point and half
/// its edge length.
///
/// The cube stands for the half-open region
/// `[center.x - half_size, center.x + half_size)` on the x axis, and likewise
/// on y and z. Faces are closed on the low side and open on the high side, so
/// that the eight octants of a subdivided cube are pairwise disjoint and a
/// point on a shared partition plane belongs to exactly one of them.
///
/// Intended invariant (see [`Aabb::wf`]): `half_size > 0`, and the corners do
/// not leave the `i64` range.
#[derive(Clone, Copy, Debug, PartialEq, Eq, Structural)]
pub struct Aabb {
    pub center: Point,
    pub half_size: i64,
}

impl Aabb {
    /// Low end of the cube's x interval, as a mathematical integer.
    pub open spec fn lo_x(self) -> int {
        self.center.x - self.half_size
    }

    /// High end (exclusive) of the cube's x interval.
    pub open spec fn hi_x(self) -> int {
        self.center.x + self.half_size
    }

    /// Low end of the cube's y interval.
    pub open spec fn lo_y(self) -> int {
        self.center.y - self.half_size
    }

    /// High end (exclusive) of the cube's y interval.
    pub open spec fn hi_y(self) -> int {
        self.center.y + self.half_size
    }

    /// Low end of the cube's z interval.
    pub open spec fn lo_z(self) -> int {
        self.center.z - self.half_size
    }

    /// High end (exclusive) of the cube's z interval.
    pub open spec fn hi_z(self) -> int {
        self.center.z + self.half_size
    }

    /// Well-formedness: a positive half-size, and corners that stay
    /// representable in `i64` (a machine limit, needed so that subdivision
    /// arithmetic cannot overflow).
    pub open spec fn wf(self) -> bool {
        &&& 0 < self.half_size
        &&& i64::MIN <= self.lo_x() && self.hi_x() <= i64::MAX
        &&& i64::MIN <= self.lo_y() && self.hi_y() <= i64::MAX
        &&& i64::MIN <= self.lo_z() && self.hi_z() <= i64::MAX
    }

    /// Whether the point lies inside the cube: within
    /// `[center - half_size, center + half_size)` on all three axes.
    pub open spec fn contains_spec(self, p: Point) -> bool {
        &&& self.lo_x() <= p.x < self.hi_x()
        &&& self.lo_y() <= p.y < self.hi_y()
        &&& self.lo_z() <= p.z < self.hi_z()
    }

    /// Whether the two cubes' coordinate ranges overlap on all three axes:
    /// the standard interval-overlap test per axis, conjoined. With half-open
    /// intervals, two intervals overlap iff each starts below the other's end.
    pub open spec fn intersects_spec(self, o: Aabb) -> bool {
        &&& self.lo_x() < o.hi_x() && o.lo_x() < self.hi_x()
        &&& self.lo_y() < o.hi_y() && o.lo_y() < self.hi_y()
        &&& self.lo_z() < o.hi_z() && o.lo_z() < self.hi_z()
    }

    /// Constructs a cube from its center and half-size. `half_size` is
    /// expected to be positive; the value is not validated here.
    pub fn new(center: Point, half_size: i64) -> (r: Aabb)
        ensures
            r == (Aabb { center, half_size }),
    {
        Aabb { center, half_size }
    }

    /// Containment test. True iff the point lies within the cube's half-open
    /// bounds on all three axes.
    pub fn contains(&self, point: &Point) -> (r: bool)
        ensures
            r == self.contains_spec(*point),
    {
        let cx = self.center.x as i128;
        let cy = self.center.y as i128;
        let cz = self.center.z as i128;
        let h = self.half_size as i128;
        let px = point.x as i128;
        let py = point.y as i128;
        let pz = point.z as i128;
        cx - h <= px && px < cx + h && cy - h <= py && py < cy + h && cz - h <= pz && pz < cz + h
    }

    /// Intersection test. True iff the two cubes' regions overlap on every
    /// axis.
    pub fn intersects(&self, other: &Aabb) -> (r: bool)
        ensures
            r == self.intersects_spec(*other),
    {
        let ax = self.center.x as i128;
        let ay = self.center.y as i128;
        let az = self.center.z as i128;
        let ah = self.half_size as i128;
        let bx = other.center.x as i128;
        let by = other.center.y as i128;
        let bz = other.center.z as i128;
        let bh = other.half_size as i128;
        ax - ah < bx + bh && bx - bh < ax + ah && ay - ah < by + bh && by - bh < ay + ah
            && az - ah < bz + bh && bz - bh < az + ah
    }
}

/// Intersection is symmetric: `a.intersects(b) == b.intersects(a)` for all
/// cube pairs.
pub proof fn lemma_intersects_symmetric(a: Aabb, b: Aabb)
    ensures
        a.intersects_spec(b) == b.intersects_spec(a),
{
}

/// Two cubes that both contain some point intersect. This is what justifies
/// pruning a subtree whose boundary is disjoint from the query range: no
/// point of that subtree can fall in the range.
pub proof fn lemma_common_point_intersects(a: Aabb, b: Aabb, p: Point)
    requires
        a.contains_spec(p),
        b.contains_spec(p),
    ensures
        a.intersects_spec(b),
{
}

} // verus!
