//! Integer affine maps from an instance's local space to world space.
use vstd::prelude::*;
use crate::geom::{Vec3, in_limit, lemma_mul_bound};
use crate::aabb::Aabb;

verus! {

/// Largest magnitude of a coefficient of the linear part of a map.
pub const MAT_LIMIT: i64 = 16;

/// A triple of integers, the value of a vector expression in specifications.
pub type Triple = (int, int, int);

pub open spec fn dot(a: Triple, b: Triple) -> int {
    a.0 * b.0 + a.1 * b.1 + a.2 * b.2
}

pub open spec fn cross(a: Triple, b: Triple) -> Triple {
    (a.1 * b.2 - a.2 * b.1, a.2 * b.0 - a.0 * b.2, a.0 * b.1 - a.1 * b.0)
}

pub open spec fn scale(k: int, a: Triple) -> Triple {
    (k * a.0, k * a.1, k * a.2)
}

pub open spec fn add3(a: Triple, b: Triple) -> Triple {
    (a.0 + b.0, a.1 + b.1, a.2 + b.2)
}

pub open spec fn sub3(a: Triple, b: Triple) -> Triple {
    (a.0 - b.0, a.1 - b.1, a.2 - b.2)
}

impl Vec3 {
    pub open spec fn t(self) -> Triple {
        (self.x as int, self.y as int, self.z as int)
    }
}

/// The map `p -> (row_x . p, row_y . p, row_z . p) + translation`. The
/// linear part has integer coefficients within `MAT_LIMIT`, which the exact
/// arithmetic needs: quarter turns, mirrors, shears and integer scales are
/// representable; other rotations and non-integer scales are not.
#[derive(Clone, Copy, Debug, PartialEq, Eq, Structural)]
pub struct Affine {
    pub row_x: Vec3,
    pub row_y: Vec3,
    pub row_z: Vec3,
    pub translation: Vec3,
}

pub open spec fn coef_ok(v: Vec3) -> bool {
    -MAT_LIMIT <= v.x <= MAT_LIMIT && -MAT_LIMIT <= v.y <= MAT_LIMIT && -MAT_LIMIT <= v.z
        <= MAT_LIMIT
}

impl Affine {
    /// Coefficients within `MAT_LIMIT`, translation within the coordinate
    /// limit, and an invertible linear part.
    pub open spec fn wf(self) -> bool {
        &&& coef_ok(self.row_x)
        &&& coef_ok(self.row_y)
        &&& coef_ok(self.row_z)
        &&& self.translation.in_bounds()
        &&& self.det() != 0
    }

    /// The determinant of the linear part.
    pub open spec fn det(self) -> int {
        dot(self.row_x.t(), cross(self.row_y.t(), self.row_z.t()))
    }

    /// The linear part applied to `v`.
    pub open spec fn linear(self, v: Triple) -> Triple {
        (dot(self.row_x.t(), v), dot(self.row_y.t(), v), dot(self.row_z.t(), v))
    }

    /// The adjugate of the linear part applied to `v`: `det` times the inverse.
    pub open spec fn adjugate(self, v: Triple) -> Triple {
        add3(
            add3(
                scale(v.0, cross(self.row_y.t(), self.row_z.t())),
                scale(v.1, cross(self.row_z.t(), self.row_x.t())),
            ),
            scale(v.2, cross(self.row_x.t(), self.row_y.t())),
        )
    }

    /// The image of local point `p` in world space.
    pub open spec fn apply(self, p: Triple) -> Triple {
        add3(self.linear(p), self.translation.t())
    }

    /// World point `q` in local space, scaled by the determinant.
    pub open spec fn unapply(self, q: Triple) -> Triple {
        self.adjugate(sub3(q, self.translation.t()))
    }
}

/// The point with coordinates `t`, when they lie within the coordinate limit.
pub open spec fn point_of(t: Triple) -> Option<Vec3> {
    if in_limit(t.0) && in_limit(t.1) && in_limit(t.2) {
        Some(Vec3 { x: t.0 as i64, y: t.1 as i64, z: t.2 as i64 })
    } else {
        None
    }
}

/// Corner `k` (of `0 .. 8`) of box `b`: bit 0 picks x, bit 1 y, bit 2 z.
pub open spec fn corner(b: Aabb, k: int) -> Vec3 {
    Vec3 {
        x: if k % 2 == 0 { b.min.x } else { b.max.x },
        y: if (k / 2) % 2 == 0 { b.min.y } else { b.max.y },
        z: if (k / 4) % 2 == 0 { b.min.z } else { b.max.z },
    }
}

/// The box around the images of the first `k` corners of `b` under `m`;
/// none when an image leaves the coordinate limit.
pub open spec fn corners_box(b: Aabb, m: Affine, k: int) -> Option<Aabb>
    decreases k,
{
    if k <= 0 {
        Some(Aabb::empty_box())
    } else {
        match corners_box(b, m, k - 1) {
            None => None,
            Some(acc) => match point_of(m.apply(corner(b, k - 1).t())) {
                None => None,
                Some(p) => Some(acc.expanded(p)),
            },
        }
    }
}

fn row_dot(row: &Vec3, p: &Vec3) -> (r: i64)
    requires
        coef_ok(*row),
        p.in_bounds(),
    ensures
        r == dot(row.t(), p.t()),
        -0x3000000 <= r <= 0x3000000,
{
    proof {
        lemma_mul_bound(row.x as int, p.x as int, 16, 0x100000);
        lemma_mul_bound(row.y as int, p.y as int, 16, 0x100000);
        lemma_mul_bound(row.z as int, p.z as int, 16, 0x100000);
    }
    row.x * p.x + row.y * p.y + row.z * p.z
}

impl Affine {
    /// Whether the map meets `wf`: small coefficients, a translation within
    /// the limit, and a non-zero determinant.
    pub fn is_valid(&self) -> (r: bool)
        ensures
            r == self.wf(),
    {
        let lim = MAT_LIMIT;
        let rows_ok = -lim <= self.row_x.x && self.row_x.x <= lim && -lim <= self.row_x.y
            && self.row_x.y <= lim && -lim <= self.row_x.z && self.row_x.z <= lim && -lim
            <= self.row_y.x && self.row_y.x <= lim && -lim <= self.row_y.y && self.row_y.y <= lim
            && -lim <= self.row_y.z && self.row_y.z <= lim && -lim <= self.row_z.x
            && self.row_z.x <= lim && -lim <= self.row_z.y && self.row_z.y <= lim && -lim
            <= self.row_z.z && self.row_z.z <= lim;
        if !rows_ok {
            return false;
        }
        let c = crate::geom::COORD_LIMIT;
        let t = self.translation;
        if !(-c <= t.x && t.x <= c && -c <= t.y && t.y <= c && -c <= t.z && t.z <= c) {
            return false;
        }
        let (y, z) = (self.row_y, self.row_z);
        proof {
            lemma_mul_bound(y.y as int, z.z as int, 16, 16);
            lemma_mul_bound(y.z as int, z.y as int, 16, 16);
            lemma_mul_bound(y.z as int, z.x as int, 16, 16);
            lemma_mul_bound(y.x as int, z.z as int, 16, 16);
            lemma_mul_bound(y.x as int, z.y as int, 16, 16);
            lemma_mul_bound(y.y as int, z.x as int, 16, 16);
        }
        let cx = y.y * z.z - y.z * z.y;
        let cy = y.z * z.x - y.x * z.z;
        let cz = y.x * z.y - y.y * z.x;
        proof {
            lemma_mul_bound(self.row_x.x as int, cx as int, 16, 512);
            lemma_mul_bound(self.row_x.y as int, cy as int, 16, 512);
            lemma_mul_bound(self.row_x.z as int, cz as int, 16, 512);
        }
        let det = self.row_x.x * cx + self.row_x.y * cy + self.row_x.z * cz;
        det != 0
    }

    /// The image of `p`, when it lies within the coordinate limit.
    pub fn transform_point(&self, p: &Vec3) -> (r: Option<Vec3>)
        requires
            coef_ok(self.row_x),
            coef_ok(self.row_y),
            coef_ok(self.row_z),
            self.translation.in_bounds(),
            p.in_bounds(),
        ensures
            r == point_of(self.apply(p.t())),
    {
        let x = row_dot(&self.row_x, p) + self.translation.x;
        let y = row_dot(&self.row_y, p) + self.translation.y;
        let z = row_dot(&self.row_z, p) + self.translation.z;
        let c = crate::geom::COORD_LIMIT;
        if -c <= x && x <= c && -c <= y && y <= c && -c <= z && z <= c {
            Some(Vec3 { x, y, z })
        } else {
            None
        }
    }
}

proof fn lemma_corners_none(b: Aabb, m: Affine, k: int, j: int)
    requires
        0 <= k <= j,
        corners_box(b, m, k) is None,
    ensures
        corners_box(b, m, j) is None,
    decreases j - k,
{
    if k < j {
        lemma_corners_none(b, m, k, j - 1);
    }
}

/// The world box of an instance: the box around the images of the eight
/// corners of its local box `local`; none when an image leaves the limit.
pub fn world_aabb(local: &Aabb, m: &Affine) -> (r: Option<Aabb>)
    requires
        local.wf(),
        m.wf(),
    ensures
        r == corners_box(*local, *m, 8),
        r matches Some(b) ==> b.valid(),
{
    let mut acc = Aabb::init();
    let mut k: usize = 0;
    while k < 8
        invariant
            local.wf(),
            m.wf(),
            k <= 8,
            corners_box(*local, *m, k as int) == Some(acc),
            acc.wf(),
            k > 0 ==> acc.valid(),
        decreases 8 - k,
    {
        let c = Vec3 {
            x: if k % 2 == 0 { local.min.x } else { local.max.x },
            y: if (k / 2) % 2 == 0 { local.min.y } else { local.max.y },
            z: if (k / 4) % 2 == 0 { local.min.z } else { local.max.z },
        };
        assert(c == corner(*local, k as int));
        match m.transform_point(&c) {
            None => {
                proof {
                    lemma_corners_none(*local, *m, (k + 1) as int, 8);
                }
                return None;
            },
            Some(p) => {
                acc.expand(&p);
            },
        }
        k = k + 1;
    }
    Some(acc)
}

/// Regrouping three linear forms weighted by `p`, `q`, `r` by the variables.
proof fn lemma_regroup(
    a: int, b: int, c: int, d: int, e: int, f: int, g: int, h: int, i: int,
    x: int, y: int, z: int, p: int, q: int, r: int,
)
    ensures
        (a * x + b * y + c * z) * p + (d * x + e * y + f * z) * q + (g * x + h * y + i * z) * r
            == x * (a * p + d * q + g * r) + y * (b * p + e * q + h * r) + z * (c * p + f * q + i * r),
{
    broadcast use vstd::arithmetic::mul::group_mul_is_commutative_and_distributive;
}

/// The cofactors of the matrix with rows `(a, b, c)`, `(d, e, f)`,
/// `(g, h, i)`, combined with one of its columns, give the determinant for
/// the matching column and zero for the others.
proof fn lemma_cofactors(a: int, b: int, c: int, d: int, e: int, f: int, g: int, h: int, i: int)
    ensures
        a * (e * i - f * h) + d * (h * c - i * b) + g * (b * f - c * e)
            == a * (e * i - f * h) + b * (f * g - d * i) + c * (d * h - e * g),
        b * (e * i - f * h) + e * (h * c - i * b) + h * (b * f - c * e) == 0,
        c * (e * i - f * h) + f * (h * c - i * b) + i * (b * f - c * e) == 0,
        a * (f * g - d * i) + d * (i * a - g * c) + g * (c * d - a * f) == 0,
        b * (f * g - d * i) + e * (i * a - g * c) + h * (c * d - a * f)
            == a * (e * i - f * h) + b * (f * g - d * i) + c * (d * h - e * g),
        c * (f * g - d * i) + f * (i * a - g * c) + i * (c * d - a * f) == 0,
        a * (d * h - e * g) + d * (g * b - h * a) + g * (a * e - b * d) == 0,
        b * (d * h - e * g) + e * (g * b - h * a) + h * (a * e - b * d) == 0,
        c * (d * h - e * g) + f * (g * b - h * a) + i * (a * e - b * d)
            == a * (e * i - f * h) + b * (f * g - d * i) + c * (d * h - e * g),
{
    lemma_cofactor_0(a, b, c, d, e, f, g, h, i);
    lemma_cofactor_1(a, b, c, d, e, f, g, h, i);
    lemma_cofactor_2(a, b, c, d, e, f, g, h, i);
    lemma_cofactor_3(a, b, c, d, e, f, g, h, i);
    lemma_cofactor_4(a, b, c, d, e, f, g, h, i);
    lemma_cofactor_5(a, b, c, d, e, f, g, h, i);
    lemma_cofactor_6(a, b, c, d, e, f, g, h, i);
    lemma_cofactor_7(a, b, c, d, e, f, g, h, i);
    lemma_cofactor_8(a, b, c, d, e, f, g, h, i);
}

proof fn lemma_cofactor_0(a: int, b: int, c: int, d: int, e: int, f: int, g: int, h: int, i: int)
    ensures
        a * (e * i - f * h) + d * (h * c - i * b) + g * (b * f - c * e)
            == a * (e * i - f * h) + b * (f * g - d * i) + c * (d * h - e * g),
{
    broadcast use vstd::arithmetic::mul::group_mul_is_commutative_and_distributive;
    broadcast use vstd::arithmetic::mul::lemma_mul_is_associative;
}

proof fn lemma_cofactor_1(a: int, b: int, c: int, d: int, e: int, f: int, g: int, h: int, i: int)
    ensures
        b * (e * i - f * h) + e * (h * c - i * b) + h * (b * f - c * e) == 0,
{
    broadcast use vstd::arithmetic::mul::group_mul_is_commutative_and_distributive;
    broadcast use vstd::arithmetic::mul::lemma_mul_is_associative;
}

proof fn lemma_cofactor_2(a: int, b: int, c: int, d: int, e: int, f: int, g: int, h: int, i: int)
    ensures
        c * (e * i - f * h) + f * (h * c - i * b) + i * (b * f - c * e) == 0,
{
    broadcast use vstd::arithmetic::mul::group_mul_is_commutative_and_distributive;
    broadcast use vstd::arithmetic::mul::lemma_mul_is_associative;
}

proof fn lemma_cofactor_3(a: int, b: int, c: int, d: int, e: int, f: int, g: int, h: int, i: int)
    ensures
        a * (f * g - d * i) + d * (i * a - g * c) + g * (c * d - a * f) == 0,
{
    broadcast use vstd::arithmetic::mul::group_mul_is_commutative_and_distributive;
    broadcast use vstd::arithmetic::mul::lemma_mul_is_associative;
}

proof fn lemma_cofactor_4(a: int, b: int, c: int, d: int, e: int, f: int, g: int, h: int, i: int)
    ensures
        b * (f * g - d * i) + e * (i * a - g * c) + h * (c * d - a * f)
            == a * (e * i - f * h) + b * (f * g - d * i) + c * (d * h - e * g),
{
    broadcast use vstd::arithmetic::mul::group_mul_is_commutative_and_distributive;
    broadcast use vstd::arithmetic::mul::lemma_mul_is_associative;
}

proof fn lemma_cofactor_5(a: int, b: int, c: int, d: int, e: int, f: int, g: int, h: int, i: int)
    ensures
        c * (f * g - d * i) + f * (i * a - g * c) + i * (c * d - a * f) == 0,
{
    broadcast use vstd::arithmetic::mul::group_mul_is_commutative_and_distributive;
    broadcast use vstd::arithmetic::mul::lemma_mul_is_associative;
}

proof fn lemma_cofactor_6(a: int, b: int, c: int, d: int, e: int, f: int, g: int, h: int, i: int)
    ensures
        a * (d * h - e * g) + d * (g * b - h * a) + g * (a * e - b * d) == 0,
{
    broadcast use vstd::arithmetic::mul::group_mul_is_commutative_and_distributive;
    broadcast use vstd::arithmetic::mul::lemma_mul_is_associative;
}

proof fn lemma_cofactor_7(a: int, b: int, c: int, d: int, e: int, f: int, g: int, h: int, i: int)
    ensures
        b * (d * h - e * g) + e * (g * b - h * a) + h * (a * e - b * d) == 0,
{
    broadcast use vstd::arithmetic::mul::group_mul_is_commutative_and_distributive;
    broadcast use vstd::arithmetic::mul::lemma_mul_is_associative;
}

proof fn lemma_cofactor_8(a: int, b: int, c: int, d: int, e: int, f: int, g: int, h: int, i: int)
    ensures
        c * (d * h - e * g) + f * (g * b - h * a) + i * (a * e - b * d)
            == a * (e * i - f * h) + b * (f * g - d * i) + c * (d * h - e * g),
{
    broadcast use vstd::arithmetic::mul::group_mul_is_commutative_and_distributive;
    broadcast use vstd::arithmetic::mul::lemma_mul_is_associative;
}

/// The adjugate undoes the linear part up to the determinant: `adj(L v) = det v`.
pub proof fn lemma_adjugate_left(m: Affine, v: Triple)
    ensures
        m.adjugate(m.linear(v)) == scale(m.det(), v),
{
    let (a, b, c) = (m.row_x.x as int, m.row_x.y as int, m.row_x.z as int);
    let (d, e, f) = (m.row_y.x as int, m.row_y.y as int, m.row_y.z as int);
    let (g, h, i) = (m.row_z.x as int, m.row_z.y as int, m.row_z.z as int);
    let (x, y, z) = v;
    lemma_cofactors(a, b, c, d, e, f, g, h, i);
    lemma_regroup(a, b, c, d, e, f, g, h, i, x, y, z, e * i - f * h, h * c - i * b, b * f - c * e);
    lemma_regroup(a, b, c, d, e, f, g, h, i, x, y, z, f * g - d * i, i * a - g * c, c * d - a * f);
    lemma_regroup(a, b, c, d, e, f, g, h, i, x, y, z, d * h - e * g, g * b - h * a, a * e - b * d);
    let det = a * (e * i - f * h) + b * (f * g - d * i) + c * (d * h - e * g);
    assert(m.det() == det);
    lemma_weights(x, y, z, det);
}

/// Weights that keep one coordinate, scaled by `k`, and drop the others.
proof fn lemma_weights(x: int, y: int, z: int, k: int)
    ensures
        x * k + y * 0 + z * 0 == k * x,
        x * 0 + y * k + z * 0 == k * y,
        x * 0 + y * 0 + z * k == k * z,
{
    broadcast use vstd::arithmetic::mul::group_mul_is_commutative_and_distributive;
    broadcast use vstd::arithmetic::mul::group_mul_basics;
}

/// Taking a local point to world space and back to local space gives the
/// point again, scaled by the determinant: the local coordinates that
/// `RayCast::to_local` works in.
pub proof fn lemma_round_trip(m: Affine, p: Triple)
    ensures
        m.unapply(m.apply(p)) == scale(m.det(), p),
{
    assert(sub3(m.apply(p), m.translation.t()) == m.linear(p));
    lemma_adjugate_left(m, p);
}


/// Regrouping three combinations of `x`, `y`, `z`, weighted by `a`, `b`, `c`, by the variables.
proof fn lemma_regroup_rows(
    a: int, b: int, c: int, x: int, y: int, z: int,
    p1: int, q1: int, r1: int, p2: int, q2: int, r2: int, p3: int, q3: int, r3: int,
)
    ensures
        a * (x * p1 + y * q1 + z * r1) + b * (x * p2 + y * q2 + z * r2) + c * (x * p3 + y * q3 + z * r3)
            == x * (a * p1 + b * p2 + c * p3) + y * (a * q1 + b * q2 + c * q3) + z * (a * r1 + b * r2 + c * r3),
{
    broadcast use vstd::arithmetic::mul::group_mul_is_commutative_and_distributive;
    broadcast use vstd::arithmetic::mul::lemma_mul_is_associative;
}

proof fn lemma_row_cofactor_0(a: int, b: int, c: int, d: int, e: int, f: int, g: int, h: int, i: int)
    ensures
        a * (h * c - i * b) + b * (i * a - g * c) + c * (g * b - h * a) == 0,
{
    broadcast use vstd::arithmetic::mul::group_mul_is_commutative_and_distributive;
    broadcast use vstd::arithmetic::mul::lemma_mul_is_associative;
}

proof fn lemma_row_cofactor_1(a: int, b: int, c: int, d: int, e: int, f: int, g: int, h: int, i: int)
    ensures
        a * (b * f - c * e) + b * (c * d - a * f) + c * (a * e - b * d) == 0,
{
    broadcast use vstd::arithmetic::mul::group_mul_is_commutative_and_distributive;
    broadcast use vstd::arithmetic::mul::lemma_mul_is_associative;
}

proof fn lemma_row_cofactor_2(a: int, b: int, c: int, d: int, e: int, f: int, g: int, h: int, i: int)
    ensures
        d * (e * i - f * h) + e * (f * g - d * i) + f * (d * h - e * g) == 0,
{
    broadcast use vstd::arithmetic::mul::group_mul_is_commutative_and_distributive;
    broadcast use vstd::arithmetic::mul::lemma_mul_is_associative;
}

proof fn lemma_row_cofactor_3(a: int, b: int, c: int, d: int, e: int, f: int, g: int, h: int, i: int)
    ensures
        d * (h * c - i * b) + e * (i * a - g * c) + f * (g * b - h * a) == a * (e * i - f * h) + b * (f * g - d * i) + c * (d * h - e * g),
{
    broadcast use vstd::arithmetic::mul::group_mul_is_commutative_and_distributive;
    broadcast use vstd::arithmetic::mul::lemma_mul_is_associative;
}

proof fn lemma_row_cofactor_4(a: int, b: int, c: int, d: int, e: int, f: int, g: int, h: int, i: int)
    ensures
        d * (b * f - c * e) + e * (c * d - a * f) + f * (a * e - b * d) == 0,
{
    broadcast use vstd::arithmetic::mul::group_mul_is_commutative_and_distributive;
    broadcast use vstd::arithmetic::mul::lemma_mul_is_associative;
}

proof fn lemma_row_cofactor_5(a: int, b: int, c: int, d: int, e: int, f: int, g: int, h: int, i: int)
    ensures
        g * (e * i - f * h) + h * (f * g - d * i) + i * (d * h - e * g) == 0,
{
    broadcast use vstd::arithmetic::mul::group_mul_is_commutative_and_distributive;
    broadcast use vstd::arithmetic::mul::lemma_mul_is_associative;
}

proof fn lemma_row_cofactor_6(a: int, b: int, c: int, d: int, e: int, f: int, g: int, h: int, i: int)
    ensures
        g * (h * c - i * b) + h * (i * a - g * c) + i * (g * b - h * a) == 0,
{
    broadcast use vstd::arithmetic::mul::group_mul_is_commutative_and_distributive;
    broadcast use vstd::arithmetic::mul::lemma_mul_is_associative;
}

proof fn lemma_row_cofactor_7(a: int, b: int, c: int, d: int, e: int, f: int, g: int, h: int, i: int)
    ensures
        g * (b * f - c * e) + h * (c * d - a * f) + i * (a * e - b * d) == a * (e * i - f * h) + b * (f * g - d * i) + c * (d * h - e * g),
{
    broadcast use vstd::arithmetic::mul::group_mul_is_commutative_and_distributive;
    broadcast use vstd::arithmetic::mul::lemma_mul_is_associative;
}

/// The linear part undoes the adjugate up to the determinant: `L (adj v) = det v`.
pub proof fn lemma_adjugate_right(m: Affine, v: Triple)
    ensures
        m.linear(m.adjugate(v)) == scale(m.det(), v),
{
    let (a, b, c) = (m.row_x.x as int, m.row_x.y as int, m.row_x.z as int);
    let (d, e, f) = (m.row_y.x as int, m.row_y.y as int, m.row_y.z as int);
    let (g, h, i) = (m.row_z.x as int, m.row_z.y as int, m.row_z.z as int);
    let (x, y, z) = v;
    lemma_row_cofactor_0(a, b, c, d, e, f, g, h, i);
    lemma_row_cofactor_1(a, b, c, d, e, f, g, h, i);
    lemma_row_cofactor_2(a, b, c, d, e, f, g, h, i);
    lemma_row_cofactor_3(a, b, c, d, e, f, g, h, i);
    lemma_row_cofactor_4(a, b, c, d, e, f, g, h, i);
    lemma_row_cofactor_5(a, b, c, d, e, f, g, h, i);
    lemma_row_cofactor_6(a, b, c, d, e, f, g, h, i);
    lemma_row_cofactor_7(a, b, c, d, e, f, g, h, i);
    let (p1, q1, r1) = (e * i - f * h, h * c - i * b, b * f - c * e);
    let (p2, q2, r2) = (f * g - d * i, i * a - g * c, c * d - a * f);
    let (p3, q3, r3) = (d * h - e * g, g * b - h * a, a * e - b * d);
    lemma_regroup_rows(a, b, c, x, y, z, p1, q1, r1, p2, q2, r2, p3, q3, r3);
    lemma_regroup_rows(d, e, f, x, y, z, p1, q1, r1, p2, q2, r2, p3, q3, r3);
    lemma_regroup_rows(g, h, i, x, y, z, p1, q1, r1, p2, q2, r2, p3, q3, r3);
    let det = a * (e * i - f * h) + b * (f * g - d * i) + c * (d * h - e * g);
    assert(m.det() == det);
    lemma_weights(x, y, z, det);
}

} // verus!
