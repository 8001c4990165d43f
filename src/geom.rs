//! Fixed-point 3D vectors.
use vstd::prelude::*;

verus! {

/// Largest magnitude of a coordinate of a point that the library accepts.
pub const COORD_LIMIT: i64 = 1048576;

/// A point or direction with integer (fixed-point) coordinates.
#[derive(Clone, Copy, Debug, PartialEq, Eq, Structural)]
pub struct Vec3 {
    pub x: i64,
    pub y: i64,
    pub z: i64,
}

pub open spec fn min_int(a: int, b: int) -> int {
    if a < b { a } else { b }
}

pub open spec fn max_int(a: int, b: int) -> int {
    if a < b { b } else { a }
}

pub open spec fn in_limit(c: int) -> bool {
    -COORD_LIMIT <= c <= COORD_LIMIT
}

/// Bounds on factors bound their product.
pub proof fn lemma_mul_bound(x: int, y: int, bx: int, by: int)
    by (nonlinear_arith)
    requires
        0 <= bx,
        0 <= by,
        -bx <= x <= bx,
        -by <= y <= by,
    ensures
        -(bx * by) <= x * y <= bx * by,
{
}

impl Vec3 {
    /// Every coordinate lies within `[-COORD_LIMIT, COORD_LIMIT]`.
    pub open spec fn in_bounds(self) -> bool {
        in_limit(self.x as int) && in_limit(self.y as int) && in_limit(self.z as int)
    }

    /// Coordinate `a` (0 = x, 1 = y, 2 = z).
    pub open spec fn at(self, a: int) -> int {
        if a == 0 {
            self.x as int
        } else if a == 1 {
            self.y as int
        } else {
            self.z as int
        }
    }

    pub fn new(x: i64, y: i64, z: i64) -> (r: Vec3)
        ensures
            r == (Vec3 { x, y, z }),
    {
        Vec3 { x, y, z }
    }

    /// Coordinate along `axis` (0 = x, 1 = y, 2 = z).
    pub fn axis(&self, axis: usize) -> (r: i64)
        requires
            axis < 3,
        ensures
            r as int == self.at(axis as int),
    {
        if axis == 0 {
            self.x
        } else if axis == 1 {
            self.y
        } else {
            self.z
        }
    }

    /// Componentwise minimum.
    pub fn min(&self, o: &Vec3) -> (r: Vec3)
        ensures
            r.x == min_int(self.x as int, o.x as int),
            r.y == min_int(self.y as int, o.y as int),
            r.z == min_int(self.z as int, o.z as int),
    {
        Vec3 {
            x: if self.x < o.x { self.x } else { o.x },
            y: if self.y < o.y { self.y } else { o.y },
            z: if self.z < o.z { self.z } else { o.z },
        }
    }

    /// Componentwise maximum.
    pub fn max(&self, o: &Vec3) -> (r: Vec3)
        ensures
            r.x == max_int(self.x as int, o.x as int),
            r.y == max_int(self.y as int, o.y as int),
            r.z == max_int(self.z as int, o.z as int),
    {
        Vec3 {
            x: if self.x < o.x { o.x } else { self.x },
            y: if self.y < o.y { o.y } else { self.y },
            z: if self.z < o.z { o.z } else { self.z },
        }
    }
}

} // verus!
