//! Triangles with a precomputed centroid.
use vstd::prelude::*;
use crate::geom::Vec3;
use crate::aabb::Aabb;

verus! {

/// A triangle. `centroid` holds `vertex0 + vertex1 + vertex2`, three times the
/// centroid, so that it stays exact; only comparisons between centroids are
/// ever made, which the common factor does not change.
#[derive(Clone, Copy, Debug, PartialEq, Eq, Structural)]
pub struct Tri {
    pub vertex0: Vec3,
    pub vertex1: Vec3,
    pub vertex2: Vec3,
    pub centroid: Vec3,
}

impl Tri {
    /// The vertices lie within the coordinate limit and the centroid is derived from them.
    pub open spec fn wf(self) -> bool {
        &&& self.vertex0.in_bounds()
        &&& self.vertex1.in_bounds()
        &&& self.vertex2.in_bounds()
        &&& self.centroid.x == self.vertex0.x + self.vertex1.x + self.vertex2.x
        &&& self.centroid.y == self.vertex0.y + self.vertex1.y + self.vertex2.y
        &&& self.centroid.z == self.vertex0.z + self.vertex1.z + self.vertex2.z
    }

    /// All three vertices lie in `b`.
    pub open spec fn in_box(self, b: Aabb) -> bool {
        &&& b.contains_point(self.vertex0)
        &&& b.contains_point(self.vertex1)
        &&& b.contains_point(self.vertex2)
    }

    pub fn new(v0: Vec3, v1: Vec3, v2: Vec3) -> (r: Tri)
        requires
            v0.in_bounds(),
            v1.in_bounds(),
            v2.in_bounds(),
        ensures
            r.wf(),
            r.vertex0 == v0,
            r.vertex1 == v1,
            r.vertex2 == v2,
    {
        Tri {
            vertex0: v0,
            vertex1: v1,
            vertex2: v2,
            centroid: Vec3 { x: v0.x + v1.x + v2.x, y: v0.y + v1.y + v2.y, z: v0.z + v1.z + v2.z },
        }
    }

    /// Whether the vertices lie within the coordinate limit and the centroid matches them.
    pub fn is_valid(&self) -> (r: bool)
        ensures
            r == self.wf(),
    {
        let lim = crate::geom::COORD_LIMIT;
        let ok0 = -lim <= self.vertex0.x && self.vertex0.x <= lim && -lim <= self.vertex0.y
            && self.vertex0.y <= lim && -lim <= self.vertex0.z && self.vertex0.z <= lim;
        let ok1 = -lim <= self.vertex1.x && self.vertex1.x <= lim && -lim <= self.vertex1.y
            && self.vertex1.y <= lim && -lim <= self.vertex1.z && self.vertex1.z <= lim;
        let ok2 = -lim <= self.vertex2.x && self.vertex2.x <= lim && -lim <= self.vertex2.y
            && self.vertex2.y <= lim && -lim <= self.vertex2.z && self.vertex2.z <= lim;
        if !(ok0 && ok1 && ok2) {
            return false;
        }
        self.centroid.x == self.vertex0.x + self.vertex1.x + self.vertex2.x && self.centroid.y
            == self.vertex0.y + self.vertex1.y + self.vertex2.y && self.centroid.z
            == self.vertex0.z + self.vertex1.z + self.vertex2.z
    }
}

} // verus!
