//! The octree: a recursive spatial node owning up to eight child octants.

use vstd::prelude::*;
use vstd::multiset::Multiset;
use crate::aabb::Aabb;
use crate::point::Point;

verus! {

/// Whether a cube can be split into eight exactly tiling octants.
///
/// Subdivision halves the half-size, so it is possible only while the
/// half-size is even (and hence at least 2). A node whose cube has reached
/// this minimum granularity never subdivides; it keeps accepting points into
/// its own buffer beyond its capacity instead, which bounds the tree's depth.
pub open spec fn can_split(b: Aabb) -> bool {
    b.half_size >= 2 && b.half_size % 2 == 0
}

/// The octant of `b` in the direction (dx, dy, dz), each component 1 or -1:
/// half the half-size, center offset by half of `b`'s half-size along each
/// axis.
pub open spec fn octant_cube(b: Aabb, dx: int, dy: int, dz: int) -> Aabb {
    Aabb {
        center: Point {
            x: (b.center.x + dx * (b.half_size / 2)) as i64,
            y: (b.center.y + dy * (b.half_size / 2)) as i64,
            z: (b.center.z + dz * (b.half_size / 2)) as i64,
        },
        half_size: (b.half_size / 2) as i64,
    }
}

/// The predicate "lies within `range`", as a function value, for filtering
/// point sequences.
pub open spec fn within(range: Aabb) -> spec_fn(Point) -> bool {
    |p: Point| range.contains_spec(p)
}

/// A node of the octree.
///
/// A node either holds points directly (`divided == false`) or has spawned
/// exactly eight children covering its octants (`divided == true`, empty
/// buffer). Children are named by octant: f/b = front/back (z+/z-),
/// n/s = north/south (y-/y+), e/w = east/west (x+/x-).
pub struct OctTree {
    pub boundary: Aabb,
    pub capacity: usize,
    pub points: Vec<Point>,
    pub divided: bool,
    pub fne: Option<Box<OctTree>>,
    pub fnw: Option<Box<OctTree>>,
    pub fse: Option<Box<OctTree>>,
    pub fsw: Option<Box<OctTree>>,
    pub bne: Option<Box<OctTree>>,
    pub bnw: Option<Box<OctTree>>,
    pub bse: Option<Box<OctTree>>,
    pub bsw: Option<Box<OctTree>>,
}

impl OctTree {
    /// All points stored in an optional subtree, in traversal order.
    pub open spec fn opt_stored(o: Option<Box<OctTree>>) -> Seq<Point>
        decreases o,
    {
        match o {
            None => Seq::empty(),
            Some(c) => c.stored_seq(),
        }
    }

    /// All points stored in this subtree, in traversal order: the node's own
    /// buffer first, then the eight octants in the fixed order
    /// fne, fnw, fse, fsw, bne, bnw, bse, bsw.
    pub open spec fn stored_seq(self) -> Seq<Point>
        decreases self,
    {
        self.points@ + Self::opt_stored(self.fne) + Self::opt_stored(self.fnw)
            + Self::opt_stored(self.fse) + Self::opt_stored(self.fsw)
            + Self::opt_stored(self.bne) + Self::opt_stored(self.bnw)
            + Self::opt_stored(self.bse) + Self::opt_stored(self.bsw)
    }

    /// The multiset of points stored in this subtree.
    pub open spec fn stored_ms(self) -> Multiset<Point> {
        self.stored_seq().to_multiset()
    }

    /// The multiset of points stored in an optional subtree.
    pub open spec fn opt_ms(o: Option<Box<OctTree>>) -> Multiset<Point> {
        Self::opt_stored(o).to_multiset()
    }

    /// The multiset of points stored in the eight children together.
    pub open spec fn children_ms(self) -> Multiset<Point> {
        Self::opt_ms(self.fne).add(Self::opt_ms(self.fnw)).add(Self::opt_ms(self.fse)).add(
            Self::opt_ms(self.fsw),
        ).add(Self::opt_ms(self.bne)).add(Self::opt_ms(self.bnw)).add(Self::opt_ms(self.bse)).add(
            Self::opt_ms(self.bsw),
        )
    }

    /// The child slot holds a well-formed subtree whose boundary is exactly
    /// the cube `b`.
    pub open spec fn opt_child_wf(o: Option<Box<OctTree>>, b: Aabb) -> bool
        decreases o,
    {
        match o {
            None => false,
            Some(c) => c.boundary == b && c.wf(),
        }
    }

    /// All eight child slots are filled with well-formed subtrees whose
    /// boundaries are exactly the eight octants of this node's boundary.
    pub open spec fn children_ok(self) -> bool
        decreases self,
    {
        &&& can_split(self.boundary)
        &&& Self::opt_child_wf(self.fne, octant_cube(self.boundary, 1, -1, 1))
        &&& Self::opt_child_wf(self.fnw, octant_cube(self.boundary, -1, -1, 1))
        &&& Self::opt_child_wf(self.fse, octant_cube(self.boundary, 1, 1, 1))
        &&& Self::opt_child_wf(self.fsw, octant_cube(self.boundary, -1, 1, 1))
        &&& Self::opt_child_wf(self.bne, octant_cube(self.boundary, 1, -1, -1))
        &&& Self::opt_child_wf(self.bnw, octant_cube(self.boundary, -1, -1, -1))
        &&& Self::opt_child_wf(self.bse, octant_cube(self.boundary, 1, 1, -1))
        &&& Self::opt_child_wf(self.bsw, octant_cube(self.boundary, -1, 1, -1))
    }

    /// An undivided node: no children, and the buffer within capacity as long
    /// as the node could still subdivide. A node at minimum granularity may
    /// exceed its capacity, since splitting further is impossible.
    pub open spec fn leaf_ok(self) -> bool {
        &&& self.fne is None
        &&& self.fnw is None
        &&& self.fse is None
        &&& self.fsw is None
        &&& self.bne is None
        &&& self.bnw is None
        &&& self.bse is None
        &&& self.bsw is None
        &&& (can_split(self.boundary) ==> self.points@.len() <= self.capacity)
    }

    /// Each child slot is filled and shares this node's capacity threshold.
    pub open spec fn children_share_capacity(self) -> bool {
        &&& match self.fne {
            Some(c) => c.capacity == self.capacity,
            None => false,
        }
        &&& match self.fnw {
            Some(c) => c.capacity == self.capacity,
            None => false,
        }
        &&& match self.fse {
            Some(c) => c.capacity == self.capacity,
            None => false,
        }
        &&& match self.fsw {
            Some(c) => c.capacity == self.capacity,
            None => false,
        }
        &&& match self.bne {
            Some(c) => c.capacity == self.capacity,
            None => false,
        }
        &&& match self.bnw {
            Some(c) => c.capacity == self.capacity,
            None => false,
        }
        &&& match self.bse {
            Some(c) => c.capacity == self.capacity,
            None => false,
        }
        &&& match self.bsw {
            Some(c) => c.capacity == self.capacity,
            None => false,
        }
    }

    /// Well-formedness of a subtree: a well-formed boundary, every buffered
    /// point inside it, and either a proper leaf or a properly subdivided
    /// node with an empty buffer and eight well-formed octant children.
    pub open spec fn wf(self) -> bool
        decreases self,
    {
        &&& self.boundary.wf()
        &&& forall|i: int|
            0 <= i < self.points@.len() ==> self.boundary.contains_spec(#[trigger] self.points@[i])
        &&& if self.divided {
            &&& self.points@.len() == 0
            &&& can_split(self.boundary)
            &&& Self::opt_child_wf(self.fne, octant_cube(self.boundary, 1, -1, 1))
            &&& Self::opt_child_wf(self.fnw, octant_cube(self.boundary, -1, -1, 1))
            &&& Self::opt_child_wf(self.fse, octant_cube(self.boundary, 1, 1, 1))
            &&& Self::opt_child_wf(self.fsw, octant_cube(self.boundary, -1, 1, 1))
            &&& Self::opt_child_wf(self.bne, octant_cube(self.boundary, 1, -1, -1))
            &&& Self::opt_child_wf(self.bnw, octant_cube(self.boundary, -1, -1, -1))
            &&& Self::opt_child_wf(self.bse, octant_cube(self.boundary, 1, 1, -1))
            &&& Self::opt_child_wf(self.bsw, octant_cube(self.boundary, -1, 1, -1))
        } else {
            self.leaf_ok()
        }
    }
}

/// An octant cube of a splittable well-formed cube is itself well-formed,
/// its half-size is exactly half the parent's, and its center coordinates
/// are the parent's shifted by half the parent's half-size.
pub proof fn lemma_octant_cube_wf(b: Aabb, dx: int, dy: int, dz: int)
    requires
        b.wf(),
        can_split(b),
        dx == 1 || dx == -1,
        dy == 1 || dy == -1,
        dz == 1 || dz == -1,
    ensures
        octant_cube(b, dx, dy, dz).wf(),
        octant_cube(b, dx, dy, dz).half_size == b.half_size / 2,
        octant_cube(b, dx, dy, dz).center.x == b.center.x + dx * (b.half_size / 2),
        octant_cube(b, dx, dy, dz).center.y == b.center.y + dy * (b.half_size / 2),
        octant_cube(b, dx, dy, dz).center.z == b.center.z + dz * (b.half_size / 2),
{
    let h2 = b.half_size / 2;
    assert(h2 + h2 == b.half_size);
    assert(1 <= h2 && h2 < b.half_size);
    assert(i64::MIN <= b.center.x + dx * h2 <= i64::MAX);
    assert(i64::MIN <= b.center.y + dy * h2 <= i64::MAX);
    assert(i64::MIN <= b.center.z + dz * h2 <= i64::MAX);
}

/// A point inside an octant cube is inside the parent cube.
pub proof fn lemma_octant_in_parent(b: Aabb, dx: int, dy: int, dz: int, p: Point)
    requires
        b.wf(),
        can_split(b),
        dx == 1 || dx == -1,
        dy == 1 || dy == -1,
        dz == 1 || dz == -1,
        octant_cube(b, dx, dy, dz).contains_spec(p),
    ensures
        b.contains_spec(p),
{
    lemma_octant_cube_wf(b, dx, dy, dz);
    let h2 = b.half_size / 2;
    assert(h2 + h2 == b.half_size);
}

/// How many of the eight octant cubes of `b` contain `p`.
pub open spec fn octant_count(b: Aabb, p: Point) -> int {
    (if octant_cube(b, 1, -1, 1).contains_spec(p) {
        1int
    } else {
        0
    }) + (if octant_cube(b, -1, -1, 1).contains_spec(p) {
        1int
    } else {
        0
    }) + (if octant_cube(b, 1, 1, 1).contains_spec(p) {
        1int
    } else {
        0
    }) + (if octant_cube(b, -1, 1, 1).contains_spec(p) {
        1int
    } else {
        0
    }) + (if octant_cube(b, 1, -1, -1).contains_spec(p) {
        1int
    } else {
        0
    }) + (if octant_cube(b, -1, -1, -1).contains_spec(p) {
        1int
    } else {
        0
    }) + (if octant_cube(b, 1, 1, -1).contains_spec(p) {
        1int
    } else {
        0
    }) + (if octant_cube(b, -1, 1, -1).contains_spec(p) {
        1int
    } else {
        0
    })
}

/// Subdivision geometry: the eight octant cubes of a splittable cube tile it
/// exactly, with half the half-size and neither gaps nor overlaps. Pointwise:
/// a point of the parent lies in exactly one octant, and a point outside the
/// parent lies in none.
pub proof fn lemma_octants_partition(b: Aabb, p: Point)
    requires
        b.wf(),
        can_split(b),
    ensures
        b.contains_spec(p) ==> octant_count(b, p) == 1,
        !b.contains_spec(p) ==> octant_count(b, p) == 0,
{
    let h2 = b.half_size / 2;
    assert(h2 + h2 == b.half_size);
    assert(1 <= h2 && h2 < b.half_size);
    assert(i64::MIN <= b.center.x - h2 && b.center.x + h2 <= i64::MAX);
    assert(i64::MIN <= b.center.y - h2 && b.center.y + h2 <= i64::MAX);
    assert(i64::MIN <= b.center.z - h2 && b.center.z + h2 <= i64::MAX);
}

impl OctTree {
    /// Decides at run time whether this cube can still be subdivided.
    fn splittable(b: &Aabb) -> (r: bool)
        ensures
            r == can_split(*b),
    {
        b.half_size >= 2 && b.half_size % 2 == 0
    }

    /// Constructs an empty node covering `boundary`, holding at most
    /// `capacity` points directly before it subdivides.
    pub fn new(boundary: Aabb, capacity: usize) -> (t: OctTree)
        requires
            boundary.wf(),
        ensures
            t.wf(),
            t.boundary == boundary,
            t.capacity == capacity,
            !t.divided,
            t.points@ == Seq::<Point>::empty(),
            t.stored_seq() == Seq::<Point>::empty(),
    {
        let t = OctTree {
            boundary,
            capacity,
            points: Vec::new(),
            divided: false,
            fne: None,
            fnw: None,
            fse: None,
            fsw: None,
            bne: None,
            bnw: None,
            bse: None,
            bsw: None,
        };
        proof {
            assert(t.stored_seq() =~= Seq::<Point>::empty());
        }
        t
    }

    /// Splits this node: creates one fresh child per octant, each with half
    /// this node's half-size, its center offset by half of this node's
    /// half-size along each axis, and the same capacity, and marks the node
    /// divided. The buffered points are not moved; `insert` redistributes
    /// them right after subdividing. This is a one-time act: a node that is
    /// already divided must not be subdivided again, or its children (and
    /// the points they hold) would be discarded.
    pub fn subdivide(&mut self)
        requires
            old(self).boundary.wf(),
            can_split(old(self).boundary),
            !old(self).divided,
        ensures
            final(self).divided,
            final(self).boundary == old(self).boundary,
            final(self).capacity == old(self).capacity,
            final(self).points == old(self).points,
            final(self).children_ok(),
            final(self).children_share_capacity(),
            final(self).children_ms() == Multiset::<Point>::empty(),
            old(self).points@.len() == 0 ==> final(self).wf(),
    {
        let x = self.boundary.center.x;
        let y = self.boundary.center.y;
        let z = self.boundary.center.z;
        let half_size = self.boundary.half_size / 2;
        proof {
            lemma_octant_cube_wf(self.boundary, 1, -1, 1);
            lemma_octant_cube_wf(self.boundary, -1, -1, 1);
            lemma_octant_cube_wf(self.boundary, 1, 1, 1);
            lemma_octant_cube_wf(self.boundary, -1, 1, 1);
            lemma_octant_cube_wf(self.boundary, 1, -1, -1);
            lemma_octant_cube_wf(self.boundary, -1, -1, -1);
            lemma_octant_cube_wf(self.boundary, 1, 1, -1);
            lemma_octant_cube_wf(self.boundary, -1, 1, -1);
        }

        let fne = Aabb::new(Point::new(x + half_size, y - half_size, z + half_size), half_size);
        let fnw = Aabb::new(Point::new(x - half_size, y - half_size, z + half_size), half_size);
        let fse = Aabb::new(Point::new(x + half_size, y + half_size, z + half_size), half_size);
        let fsw = Aabb::new(Point::new(x - half_size, y + half_size, z + half_size), half_size);
        let bne = Aabb::new(Point::new(x + half_size, y - half_size, z - half_size), half_size);
        let bnw = Aabb::new(Point::new(x - half_size, y - half_size, z - half_size), half_size);
        let bse = Aabb::new(Point::new(x + half_size, y + half_size, z - half_size), half_size);
        let bsw = Aabb::new(Point::new(x - half_size, y + half_size, z - half_size), half_size);

        self.fne = Some(Box::new(OctTree::new(fne, self.capacity)));
        self.fnw = Some(Box::new(OctTree::new(fnw, self.capacity)));
        self.fse = Some(Box::new(OctTree::new(fse, self.capacity)));
        self.fsw = Some(Box::new(OctTree::new(fsw, self.capacity)));
        self.bne = Some(Box::new(OctTree::new(bne, self.capacity)));
        self.bnw = Some(Box::new(OctTree::new(bnw, self.capacity)));
        self.bse = Some(Box::new(OctTree::new(bse, self.capacity)));
        self.bsw = Some(Box::new(OctTree::new(bsw, self.capacity)));

        self.divided = true;

        proof {
            broadcast use vstd::seq_lib::group_to_multiset_ensures;

            assert(self.children_ms() =~= Multiset::<Point>::empty());
        }
    }

    /// Hands the point to all eight children in turn; each child's own
    /// containment check decides whether it keeps the point. Since the
    /// octants partition the boundary, a point of the boundary is kept by
    /// exactly one child.
    fn insert_all_children(&mut self, point: &Point)
        requires
            old(self).boundary.wf(),
            old(self).children_ok(),
            old(self).boundary.contains_spec(*point),
        ensures
            final(self).boundary == old(self).boundary,
            final(self).capacity == old(self).capacity,
            final(self).points@ == old(self).points@,
            final(self).divided == old(self).divided,
            final(self).children_ok(),
            final(self).children_ms() == old(self).children_ms().insert(*point),
        decreases old(self).boundary.half_size, 0int,
    {
        proof {
            lemma_octant_cube_wf(self.boundary, 1, -1, 1);
            lemma_octant_cube_wf(self.boundary, -1, -1, 1);
            lemma_octant_cube_wf(self.boundary, 1, 1, 1);
            lemma_octant_cube_wf(self.boundary, -1, 1, 1);
            lemma_octant_cube_wf(self.boundary, 1, -1, -1);
            lemma_octant_cube_wf(self.boundary, -1, -1, -1);
            lemma_octant_cube_wf(self.boundary, 1, 1, -1);
            lemma_octant_cube_wf(self.boundary, -1, 1, -1);
        }
        let mut c_fne = self.fne.take().unwrap();
        (&mut *c_fne).insert(point);
        self.fne = Some(c_fne);

        let mut c_fnw = self.fnw.take().unwrap();
        (&mut *c_fnw).insert(point);
        self.fnw = Some(c_fnw);

        let mut c_fse = self.fse.take().unwrap();
        (&mut *c_fse).insert(point);
        self.fse = Some(c_fse);

        let mut c_fsw = self.fsw.take().unwrap();
        (&mut *c_fsw).insert(point);
        self.fsw = Some(c_fsw);

        let mut c_bne = self.bne.take().unwrap();
        (&mut *c_bne).insert(point);
        self.bne = Some(c_bne);

        let mut c_bnw = self.bnw.take().unwrap();
        (&mut *c_bnw).insert(point);
        self.bnw = Some(c_bnw);

        let mut c_bse = self.bse.take().unwrap();
        (&mut *c_bse).insert(point);
        self.bse = Some(c_bse);

        let mut c_bsw = self.bsw.take().unwrap();
        (&mut *c_bsw).insert(point);
        self.bsw = Some(c_bsw);

        proof {
            broadcast use vstd::multiset::group_multiset_axioms;

            lemma_octants_partition(old(self).boundary, *point);
            assert(self.children_ms() =~= old(self).children_ms().insert(*point));
        }
    }

    /// Inserts a point into the subtree.
    ///
    /// A point outside the boundary is silently dropped. Otherwise, an
    /// undivided node with room (or one that can no longer subdivide)
    /// buffers the point directly; an undivided node that is full and can
    /// still split subdivides, redistributes its buffer into the octants,
    /// and then forwards the new point to them; a divided node forwards the
    /// point to its octants directly. In every case the stored multiset
    /// grows by exactly the point, if the boundary contains it, and is
    /// unchanged otherwise.
    pub fn insert(&mut self, point: &Point)
        requires
            old(self).wf(),
        ensures
            final(self).wf(),
            final(self).boundary == old(self).boundary,
            final(self).capacity == old(self).capacity,
            old(self).boundary.contains_spec(*point) ==> final(self).stored_ms() == old(
                self,
            ).stored_ms().insert(*point),
            !old(self).boundary.contains_spec(*point) ==> final(self).stored_ms() == old(
                self,
            ).stored_ms(),
        decreases old(self).boundary.half_size, 1int,
    {
        if !self.boundary.contains(point) {
            return;
        }
        if !self.divided {
            if self.points.len() < self.capacity || !Self::splittable(&self.boundary) {
                self.points.push(*point);
                proof {
                    broadcast use vstd::seq_lib::group_to_multiset_ensures;

                    assert(self.stored_seq() =~= old(self).stored_seq().push(*point));
                    assert(self.stored_ms() == old(self).stored_ms().insert(*point));
                }
                return;
            }
            self.subdivide();
            let ghost pts0 = self.points@;
            proof {
                assert(pts0 == old(self).points@);
                assert(pts0.take(pts0.len() as int) =~= pts0);
            }
            while self.points.len() > 0
                invariant
                    self.divided,
                    self.boundary == old(self).boundary,
                    self.capacity == old(self).capacity,
                    self.boundary.wf(),
                    self.children_ok(),
                    self.points@.len() <= pts0.len(),
                    self.points@ == pts0.take(self.points@.len() as int),
                    forall|i: int|
                        0 <= i < pts0.len() ==> old(self).boundary.contains_spec(
                            #[trigger] pts0[i],
                        ),
                    self.children_ms().add(self.points@.to_multiset()) == pts0.to_multiset(),
                decreases self.points@.len(),
            {
                let ghost n = self.points@.len() as int;
                let ghost ms_before = self.points@.to_multiset();
                let p = self.points.pop().unwrap();
                proof {
                    broadcast use vstd::seq_lib::group_to_multiset_ensures;

                    assert(p == pts0[n - 1]);
                    assert(self.points@ =~= pts0.take(n - 1));
                    assert(pts0.take(n).drop_last() =~= pts0.take(n - 1));
                    assert(pts0.take(n) =~= pts0.take(n - 1).push(p));
                    assert(ms_before == self.points@.to_multiset().insert(p));
                }
                let ghost cms_before = self.children_ms();
                self.insert_all_children(&p);
                proof {
                    broadcast use vstd::multiset::group_multiset_axioms;

                    assert(self.children_ms().add(self.points@.to_multiset())
                        =~= cms_before.add(ms_before));
                }
            }
            proof {
                broadcast use vstd::seq_lib::group_to_multiset_ensures;
                broadcast use vstd::multiset::group_multiset_axioms;

                assert(self.points@.to_multiset().len() == 0);
                assert(self.children_ms() =~= pts0.to_multiset());
            }
        }
        let ghost cms = self.children_ms();
        self.insert_all_children(point);
        proof {
            broadcast use vstd::seq_lib::group_to_multiset_ensures;
            broadcast use vstd::multiset::group_multiset_axioms;

            lemma_stored_ms_split(*self);
            lemma_stored_ms_split(*old(self));
            assert(self.points@.to_multiset().len() == 0);
            if old(self).divided {
                assert(old(self).points@.to_multiset().len() == 0);
                assert(old(self).stored_ms() =~= old(self).children_ms());
            } else {
                assert(old(self).children_ms() =~= Multiset::<Point>::empty()) by {
                    assert(Self::opt_stored(old(self).fne).to_multiset().len() == 0);
                    assert(Self::opt_stored(old(self).fnw).to_multiset().len() == 0);
                    assert(Self::opt_stored(old(self).fse).to_multiset().len() == 0);
                    assert(Self::opt_stored(old(self).fsw).to_multiset().len() == 0);
                    assert(Self::opt_stored(old(self).bne).to_multiset().len() == 0);
                    assert(Self::opt_stored(old(self).bnw).to_multiset().len() == 0);
                    assert(Self::opt_stored(old(self).bse).to_multiset().len() == 0);
                    assert(Self::opt_stored(old(self).bsw).to_multiset().len() == 0);
                }
                assert(old(self).stored_ms() =~= old(self).points@.to_multiset());
            }
            assert(self.stored_ms() =~= cms.insert(*point));
            assert(self.stored_ms() == old(self).stored_ms().insert(*point));
        }
    }
}

impl OctTree {
    /// What a range query returns for an optional subtree.
    pub open spec fn opt_in_range(o: Option<Box<OctTree>>, range: Aabb) -> Seq<Point>
        decreases o,
    {
        match o {
            None => Seq::empty(),
            Some(c) => c.in_range(range),
        }
    }

    /// What a range query returns for this subtree, in traversal order: if
    /// the boundary is disjoint from the range, nothing (the subtree is
    /// pruned); otherwise the buffered points that lie in the range, then
    /// the octants' results in the fixed child order.
    pub open spec fn in_range(self, range: Aabb) -> Seq<Point>
        decreases self,
    {
        if !self.boundary.intersects_spec(range) {
            Seq::empty()
        } else {
            self.points@.filter(within(range)) + Self::opt_in_range(self.fne, range)
                + Self::opt_in_range(self.fnw, range) + Self::opt_in_range(self.fse, range)
                + Self::opt_in_range(self.fsw, range) + Self::opt_in_range(self.bne, range)
                + Self::opt_in_range(self.bnw, range) + Self::opt_in_range(self.bse, range)
                + Self::opt_in_range(self.bsw, range)
        }
    }

    /// Range query: appends to `found_points` every stored point that lies
    /// within `range`, in traversal order. A subtree whose boundary does not
    /// intersect the range contributes nothing and is not descended into.
    pub fn query(&self, range: &Aabb, found_points: &mut Vec<Point>)
        requires
            self.wf(),
        ensures
            final(found_points)@ == old(found_points)@ + self.in_range(*range),
            !self.boundary.intersects_spec(*range) ==> final(found_points)@ == old(
                found_points,
            )@,
        decreases self.boundary.half_size,
    {
        if !self.boundary.intersects(range) {
            proof {
                assert(found_points@ =~= old(found_points)@ + self.in_range(*range));
            }
            return;
        }
        let ghost base = found_points@;
        let mut i: usize = 0;
        while i < self.points.len()
            invariant
                self.wf(),
                i <= self.points@.len(),
                found_points@ == base + self.points@.take(i as int).filter(within(*range)),
            decreases self.points@.len() - i,
        {
            proof {
                assert(self.points@.take(i + 1) =~= self.points@.take(i as int).push(
                    self.points@[i as int],
                ));
                self.points@.take(i as int).lemma_filter_push(self.points@[i as int], within(*range));
            }
            if range.contains(&self.points[i]) {
                let p = self.points[i];
                found_points.push(p);
            }
            i += 1;
        }
        proof {
            assert(self.points@.take(self.points@.len() as int) =~= self.points@);
        }
        if self.divided {
            proof {
                lemma_octant_cube_wf(self.boundary, 1, -1, 1);
            }
            match &self.fne {
                Some(c) => c.query(range, found_points),
                None => {},
            }
            match &self.fnw {
                Some(c) => c.query(range, found_points),
                None => {},
            }
            match &self.fse {
                Some(c) => c.query(range, found_points),
                None => {},
            }
            match &self.fsw {
                Some(c) => c.query(range, found_points),
                None => {},
            }
            match &self.bne {
                Some(c) => c.query(range, found_points),
                None => {},
            }
            match &self.bnw {
                Some(c) => c.query(range, found_points),
                None => {},
            }
            match &self.bse {
                Some(c) => c.query(range, found_points),
                None => {},
            }
            match &self.bsw {
                Some(c) => c.query(range, found_points),
                None => {},
            }
        }
        proof {
            assert(found_points@ =~= old(found_points)@ + self.in_range(*range));
        }
    }
}

/// Filtering keeps nothing when no element satisfies the predicate.
pub proof fn lemma_filter_none(s: Seq<Point>, pred: spec_fn(Point) -> bool)
    requires
        forall|i: int| 0 <= i < s.len() ==> !pred(#[trigger] s[i]),
    ensures
        s.filter(pred) == Seq::<Point>::empty(),
    decreases s.len(),
{
    reveal(Seq::filter);
    if s.len() > 0 {
        lemma_filter_none(s.drop_last(), pred);
    }
}

/// Filtering keeps everything when every element satisfies the predicate.
pub proof fn lemma_filter_all(s: Seq<Point>, pred: spec_fn(Point) -> bool)
    requires
        forall|i: int| 0 <= i < s.len() ==> pred(#[trigger] s[i]),
    ensures
        s.filter(pred) == s,
    decreases s.len(),
{
    reveal(Seq::filter);
    if s.len() > 0 {
        lemma_filter_all(s.drop_last(), pred);
        assert(s =~= s.drop_last().push(s.last()));
    }
}

/// Every point stored in a well-formed subtree lies within that subtree's
/// boundary: buffered points by the node invariant, and deeper points
/// because each octant cube is included in its parent's cube.
pub proof fn lemma_stored_in_boundary(t: OctTree)
    requires
        t.wf(),
    ensures
        forall|i: int|
            0 <= i < t.stored_seq().len() ==> t.boundary.contains_spec(
                #[trigger] t.stored_seq()[i],
            ),
    decreases t,
{
    let b = t.boundary;
    if t.divided {
        match t.fne {
            Some(c) => {
                lemma_stored_in_boundary(*c);
                assert forall|j: int|
                    0 <= j < c.stored_seq().len() implies b.contains_spec(
                    #[trigger] c.stored_seq()[j],
                ) by {
                    lemma_octant_in_parent(b, 1, -1, 1, c.stored_seq()[j]);
                }
            },
            None => {},
        }
        match t.fnw {
            Some(c) => {
                lemma_stored_in_boundary(*c);
                assert forall|j: int|
                    0 <= j < c.stored_seq().len() implies b.contains_spec(
                    #[trigger] c.stored_seq()[j],
                ) by {
                    lemma_octant_in_parent(b, -1, -1, 1, c.stored_seq()[j]);
                }
            },
            None => {},
        }
        match t.fse {
            Some(c) => {
                lemma_stored_in_boundary(*c);
                assert forall|j: int|
                    0 <= j < c.stored_seq().len() implies b.contains_spec(
                    #[trigger] c.stored_seq()[j],
                ) by {
                    lemma_octant_in_parent(b, 1, 1, 1, c.stored_seq()[j]);
                }
            },
            None => {},
        }
        match t.fsw {
            Some(c) => {
                lemma_stored_in_boundary(*c);
                assert forall|j: int|
                    0 <= j < c.stored_seq().len() implies b.contains_spec(
                    #[trigger] c.stored_seq()[j],
                ) by {
                    lemma_octant_in_parent(b, -1, 1, 1, c.stored_seq()[j]);
                }
            },
            None => {},
        }
        match t.bne {
            Some(c) => {
                lemma_stored_in_boundary(*c);
                assert forall|j: int|
                    0 <= j < c.stored_seq().len() implies b.contains_spec(
                    #[trigger] c.stored_seq()[j],
                ) by {
                    lemma_octant_in_parent(b, 1, -1, -1, c.stored_seq()[j]);
                }
            },
            None => {},
        }
        match t.bnw {
            Some(c) => {
                lemma_stored_in_boundary(*c);
                assert forall|j: int|
                    0 <= j < c.stored_seq().len() implies b.contains_spec(
                    #[trigger] c.stored_seq()[j],
                ) by {
                    lemma_octant_in_parent(b, -1, -1, -1, c.stored_seq()[j]);
                }
            },
            None => {},
        }
        match t.bse {
            Some(c) => {
                lemma_stored_in_boundary(*c);
                assert forall|j: int|
                    0 <= j < c.stored_seq().len() implies b.contains_spec(
                    #[trigger] c.stored_seq()[j],
                ) by {
                    lemma_octant_in_parent(b, 1, 1, -1, c.stored_seq()[j]);
                }
            },
            None => {},
        }
        match t.bsw {
            Some(c) => {
                lemma_stored_in_boundary(*c);
                assert forall|j: int|
                    0 <= j < c.stored_seq().len() implies b.contains_spec(
                    #[trigger] c.stored_seq()[j],
                ) by {
                    lemma_octant_in_parent(b, -1, 1, -1, c.stored_seq()[j]);
                }
            },
            None => {},
        }
    }
}

/// A subtree's stored multiset is its own buffer's multiset together with
/// everything its children store.
pub proof fn lemma_stored_ms_split(t: OctTree)
    ensures
        t.stored_ms() == t.points@.to_multiset().add(t.children_ms()),
{
    broadcast use vstd::seq_lib::lemma_multiset_commutative;
    broadcast use vstd::multiset::group_multiset_axioms;

    assert(t.stored_ms() =~= t.points@.to_multiset().add(t.children_ms()));
}


/// A range query visits exactly the stored points that lie within the range:
/// pruning loses nothing, and nothing outside the range is reported. In
/// traversal order, the query result is the stored sequence filtered by
/// containment in the range.
pub proof fn lemma_query_is_filter(t: OctTree, range: Aabb)
    requires
        t.wf(),
    ensures
        t.in_range(range) == t.stored_seq().filter(within(range)),
    decreases t,
{
    broadcast use vstd::prelude::Seq::filter_distributes_over_add;

    if !t.boundary.intersects_spec(range) {
        lemma_stored_in_boundary(t);
        let s = t.stored_seq();
        assert forall|i: int| 0 <= i < s.len() implies !within(range)(#[trigger] s[i]) by {
            if range.contains_spec(s[i]) {
                crate::aabb::lemma_common_point_intersects(t.boundary, range, s[i]);
            }
        }
        lemma_filter_none(s, within(range));
    } else {
        match t.fne {
            Some(c) => lemma_query_is_filter(*c, range),
            None => {},
        }
        match t.fnw {
            Some(c) => lemma_query_is_filter(*c, range),
            None => {},
        }
        match t.fse {
            Some(c) => lemma_query_is_filter(*c, range),
            None => {},
        }
        match t.fsw {
            Some(c) => lemma_query_is_filter(*c, range),
            None => {},
        }
        match t.bne {
            Some(c) => lemma_query_is_filter(*c, range),
            None => {},
        }
        match t.bnw {
            Some(c) => lemma_query_is_filter(*c, range),
            None => {},
        }
        match t.bse {
            Some(c) => lemma_query_is_filter(*c, range),
            None => {},
        }
        match t.bsw {
            Some(c) => lemma_query_is_filter(*c, range),
            None => {},
        }
        assert(t.in_range(range) =~= t.stored_seq().filter(within(range)));
    }
}

/// Insertion conservation: querying a well-formed tree with its own boundary
/// returns every stored point, in traversal order — no point is lost or
/// duplicated. Together with the contract of `insert` (the stored multiset
/// grows by exactly each contained point) this says that a query over the
/// root boundary returns exactly the points inserted into it.
pub proof fn lemma_query_boundary_returns_all(t: OctTree)
    requires
        t.wf(),
    ensures
        t.in_range(t.boundary) == t.stored_seq(),
{
    lemma_query_is_filter(t, t.boundary);
    lemma_stored_in_boundary(t);
    lemma_filter_all(t.stored_seq(), within(t.boundary));
}

/// Capacity respect: an undivided node of a well-formed tree that can still
/// subdivide holds at most `capacity` points. (A node whose cube has reached
/// minimum granularity can no longer split and may hold more.)
pub proof fn lemma_leaf_within_capacity(t: OctTree)
    requires
        t.wf(),
        !t.divided,
        can_split(t.boundary),
    ensures
        t.points@.len() <= t.capacity,
{
}

} // verus!