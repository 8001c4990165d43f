//! Axis-aligned bounding boxes.
use vstd::prelude::*;
use crate::geom::{Vec3, COORD_LIMIT, min_int, max_int};

verus! {

/// An axis-aligned box `[min, max]`. A box with `min > max` on some axis
/// holds no point; `Aabb::init` gives the one that is the identity of `union`.
#[derive(Clone, Copy, Debug, PartialEq, Eq, Structural)]
pub struct Aabb {
    pub min: Vec3,
    pub max: Vec3,
}

impl Aabb {
    /// Both corners lie within the coordinate limit.
    pub open spec fn wf(self) -> bool {
        self.min.in_bounds() && self.max.in_bounds()
    }

    /// Within the limit and holding at least one point.
    pub open spec fn valid(self) -> bool {
        &&& self.wf()
        &&& self.min.x <= self.max.x
        &&& self.min.y <= self.max.y
        &&& self.min.z <= self.max.z
    }

    pub open spec fn contains_point(self, p: Vec3) -> bool {
        &&& self.min.x <= p.x <= self.max.x
        &&& self.min.y <= p.y <= self.max.y
        &&& self.min.z <= p.z <= self.max.z
    }

    /// Every point of `b` lies in `self` (compared by corners).
    pub open spec fn contains_box(self, b: Aabb) -> bool {
        &&& self.min.x <= b.min.x && b.max.x <= self.max.x
        &&& self.min.y <= b.min.y && b.max.y <= self.max.y
        &&& self.min.z <= b.min.z && b.max.z <= self.max.z
    }

    pub open spec fn empty_box() -> Aabb {
        Aabb {
            min: Vec3 { x: COORD_LIMIT, y: COORD_LIMIT, z: COORD_LIMIT },
            max: Vec3 { x: (-COORD_LIMIT) as i64, y: (-COORD_LIMIT) as i64, z: (-COORD_LIMIT) as i64 },
        }
    }

    /// The smallest box holding `self` and `p`.
    pub open spec fn expanded(self, p: Vec3) -> Aabb {
        self.union(Aabb { min: p, max: p })
    }

    /// The smallest box holding `self` and `b`.
    pub open spec fn union(self, b: Aabb) -> Aabb {
        Aabb {
            min: Vec3 {
                x: min_int(self.min.x as int, b.min.x as int) as i64,
                y: min_int(self.min.y as int, b.min.y as int) as i64,
                z: min_int(self.min.z as int, b.min.z as int) as i64,
            },
            max: Vec3 {
                x: max_int(self.max.x as int, b.max.x as int) as i64,
                y: max_int(self.max.y as int, b.max.y as int) as i64,
                z: max_int(self.max.z as int, b.max.z as int) as i64,
            },
        }
    }

    /// Half the surface area: `ex * ey + ey * ez + ez * ex` over the extents.
    pub open spec fn half_area(self) -> int {
        let ex = self.max.x - self.min.x;
        let ey = self.max.y - self.min.y;
        let ez = self.max.z - self.min.z;
        ex * ey + ey * ez + ez * ex
    }

    /// The inverted box that holds no point.
    pub fn init() -> (r: Aabb)
        ensures
            r == Aabb::empty_box(),
            r.wf(),
    {
        Aabb {
            min: Vec3 { x: COORD_LIMIT, y: COORD_LIMIT, z: COORD_LIMIT },
            max: Vec3 { x: -COORD_LIMIT, y: -COORD_LIMIT, z: -COORD_LIMIT },
        }
    }

    /// Half the surface area of the box.
    pub fn area(&self) -> (r: i64)
        requires
            self.wf(),
        ensures
            r == self.half_area(),
    {
        let ex = self.max.x - self.min.x;
        let ey = self.max.y - self.min.y;
        let ez = self.max.z - self.min.z;
        assert(-0x200000 <= ex <= 0x200000 && -0x200000 <= ey <= 0x200000 && -0x200000 <= ez
            <= 0x200000);
        assert(-0x40000000000 <= ex * ey <= 0x40000000000) by (nonlinear_arith)
            requires -0x200000 <= ex <= 0x200000 && -0x200000 <= ey <= 0x200000;
        assert(-0x40000000000 <= ey * ez <= 0x40000000000) by (nonlinear_arith)
            requires -0x200000 <= ez <= 0x200000 && -0x200000 <= ey <= 0x200000;
        assert(-0x40000000000 <= ez * ex <= 0x40000000000) by (nonlinear_arith)
            requires -0x200000 <= ex <= 0x200000 && -0x200000 <= ez <= 0x200000;
        ex * ey + ey * ez + ez * ex
    }

    /// Grows the box to hold `point`.
    pub fn expand(&mut self, point: &Vec3)
        ensures
            *final(self) == old(self).expanded(*point),
    {
        self.min = self.min.min(point);
        self.max = self.max.max(point);
    }

    /// Grows the box to hold `b`.
    pub fn expand_aabb(&mut self, b: &Aabb)
        ensures
            *final(self) == old(self).union(*b),
    {
        self.min = self.min.min(&b.min);
        self.max = self.max.max(&b.max);
    }

    /// The smallest box holding both boxes.
    pub fn merge(&self, b: &Aabb) -> (r: Aabb)
        ensures
            r == self.union(*b),
    {
        Aabb { min: self.min.min(&b.min), max: self.max.max(&b.max) }
    }
}

/// Half the surface area of a box within the limit is bounded by `3 * 2^42`.
pub proof fn lemma_area_bound(b: Aabb)
    requires
        b.wf(),
    ensures
        -0xc0000000000 <= b.half_area() <= 0xc0000000000,
{
    let ex = b.max.x - b.min.x;
    let ey = b.max.y - b.min.y;
    let ez = b.max.z - b.min.z;
    assert(-0x40000000000 <= ex * ey <= 0x40000000000) by (nonlinear_arith)
        requires -0x200000 <= ex <= 0x200000 && -0x200000 <= ey <= 0x200000;
    assert(-0x40000000000 <= ey * ez <= 0x40000000000) by (nonlinear_arith)
        requires -0x200000 <= ez <= 0x200000 && -0x200000 <= ey <= 0x200000;
    assert(-0x40000000000 <= ez * ex <= 0x40000000000) by (nonlinear_arith)
        requires -0x200000 <= ex <= 0x200000 && -0x200000 <= ez <= 0x200000;
}

/// A box that holds a point has a non-negative area; so does the union of two such boxes.
pub proof fn lemma_valid_area(a: Aabb, b: Aabb)
    requires
        a.valid(),
        b.valid(),
    ensures
        a.union(b).valid(),
        0 <= a.half_area(),
        0 <= a.union(b).half_area(),
{
    let u = a.union(b);
    assert(0 <= a.half_area()) by (nonlinear_arith)
        requires a.min.x <= a.max.x, a.min.y <= a.max.y, a.min.z <= a.max.z;
    assert(0 <= u.half_area()) by (nonlinear_arith)
        requires u.min.x <= u.max.x, u.min.y <= u.max.y, u.min.z <= u.max.z;
}

/// The empty box is the identity of `union` on boxes within the limit.
pub proof fn lemma_empty_union(b: Aabb)
    requires
        b.wf(),
    ensures
        Aabb::empty_box().union(b) == b,
{
}

} // verus!
