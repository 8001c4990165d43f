//! Rays, hits, and the ray-triangle and ray-hierarchy intersection kernels.
use vstd::prelude::*;
use crate::geom::{Vec3, lemma_mul_bound};
use crate::aabb::Aabb;
use crate::tri::Tri;
use crate::bvh::{Bvh, listed, lemma_node_bounds};
use crate::transform::{Triple, Affine, dot, cross, sub3, scale, coef_ok};

verus! {

/// Hit distances and barycentrics are fixed-point with this many fractional units.
pub const DIST_ONE: i64 = 65536;

/// Largest ray length, in the fixed-point units of `DIST_ONE`.
pub const MAX_DIST: i64 = 0x4000000000000000;

/// Largest magnitude of a coordinate of a ray's direction in world space.
pub const DIR_LIMIT: i64 = 1048576;

/// A ray hit. `distance` is the ray parameter `t`, that is the distance in
/// multiples of the length of the ray's direction vector (the direction is
/// not normalized: pass a direction one unit long to measure in units), and
/// `u`, `v` the barycentrics; each is scaled by `DIST_ONE` and rounded down.
#[derive(Clone, Copy, Debug, PartialEq, Eq, Structural)]
pub struct Hit {
    pub distance: i128,
    pub u: i64,
    pub v: i64,
    pub tri_index: usize,
}

/// The points `(origin + t * direction) / scale` for `t` in `(0, max / DIST_ONE]`.
/// A world-space ray has `scale == 1`; a ray taken into an instance's local
/// space keeps the parameter `t` of the world ray, so distances along it are
/// world distances.
#[derive(Clone, Copy, Debug, PartialEq, Eq, Structural)]
pub struct RayCast {
    pub origin: Vec3,
    pub direction: Vec3,
    pub scale: i64,
    pub max: i64,
}

pub open spec fn bounded(v: Triple, b: int) -> bool {
    -b <= v.0 <= b && -b <= v.1 <= b && -b <= v.2 <= b
}

pub open spec fn t128(v: (i128, i128, i128)) -> Triple {
    (v.0 as int, v.1 as int, v.2 as int)
}

fn cross128(a: (i128, i128, i128), b: (i128, i128, i128), Ghost(ba): Ghost<int>, Ghost(bb): Ghost<int>) -> (r: (i128, i128, i128))
    requires
        0 <= ba,
        0 <= bb,
        ba * bb <= 0x10000000000000000000000000000000,
        bounded(t128(a), ba),
        bounded(t128(b), bb),
    ensures
        t128(r) == cross(t128(a), t128(b)),
        bounded(t128(r), 2 * (ba * bb)),
{
    proof {
        lemma_mul_bound(a.1 as int, b.2 as int, ba, bb);
        lemma_mul_bound(a.2 as int, b.1 as int, ba, bb);
        lemma_mul_bound(a.2 as int, b.0 as int, ba, bb);
        lemma_mul_bound(a.0 as int, b.2 as int, ba, bb);
        lemma_mul_bound(a.0 as int, b.1 as int, ba, bb);
        lemma_mul_bound(a.1 as int, b.0 as int, ba, bb);
    }
    (a.1 * b.2 - a.2 * b.1, a.2 * b.0 - a.0 * b.2, a.0 * b.1 - a.1 * b.0)
}

fn dot128(a: (i128, i128, i128), b: (i128, i128, i128), Ghost(ba): Ghost<int>, Ghost(bb): Ghost<int>) -> (r: i128)
    requires
        0 <= ba,
        0 <= bb,
        ba * bb <= 0x10000000000000000000000000000000,
        bounded(t128(a), ba),
        bounded(t128(b), bb),
    ensures
        r == dot(t128(a), t128(b)),
        -(3 * (ba * bb)) <= r <= 3 * (ba * bb),
{
    proof {
        lemma_mul_bound(a.0 as int, b.0 as int, ba, bb);
        lemma_mul_bound(a.1 as int, b.1 as int, ba, bb);
        lemma_mul_bound(a.2 as int, b.2 as int, ba, bb);
    }
    let px = a.0 * b.0;
    let py = a.1 * b.1;
    let pz = a.2 * b.2;
    let ghost m = ba * bb;
    assert(-m <= px <= m);
    assert(-m <= py <= m);
    assert(-m <= pz <= m);
    assert(px as int + py as int + pz as int <= 3 * m);
    assert(-(3 * m) <= px as int + py as int + pz as int);
    px + py + pz
}

fn wide(v: &Vec3) -> (r: (i128, i128, i128))
    ensures
        t128(r) == v.t(),
{
    (v.x as i128, v.y as i128, v.z as i128)
}

/// The terms of the Moller-Trumbore test of `ray` against `tri`, with the
/// sign of the determinant taken out: `(a, u, v, t)` where `a` is the
/// magnitude of the determinant and `u / a`, `v / a`, `t / a` the
/// barycentrics and the ray parameter of the point where the ray meets the
/// triangle's plane.
pub open spec fn mt(ray: RayCast, tri: Tri) -> (int, int, int, int) {
    let w = ray.scale as int;
    let v0 = scale(w, tri.vertex0.t());
    let e1 = sub3(scale(w, tri.vertex1.t()), v0);
    let e2 = sub3(scale(w, tri.vertex2.t()), v0);
    let d = ray.direction.t();
    let h = cross(d, e2);
    let a0 = dot(e1, h);
    let s = sub3(ray.origin.t(), v0);
    let q = cross(s, e1);
    if a0 < 0 {
        (-a0, -dot(s, h), -dot(d, q), -dot(e2, q))
    } else {
        (a0, dot(s, h), dot(d, q), dot(e2, q))
    }
}

/// The Moller-Trumbore test of `ray` against `tri`, in exact arithmetic:
/// the fixed-point `(t, u, v)` of the hit, each scaled by `DIST_ONE` and
/// rounded down; none when the ray is parallel to the triangle's plane
/// (a zero determinant: the arithmetic is exact, so no tolerance stands in
/// for rounding error), misses the triangle, or meets it at a reported
/// distance of at most 1/10000.
pub open spec fn tri_hit(ray: RayCast, tri: Tri) -> Option<(int, int, int)> {
    let (a, u, v, t) = mt(ray, tri);
    if a == 0 || u < 0 || u > a || v < 0 || u + v > a || t <= 0 || 10000 * (t * DIST_ONE / a)
        <= DIST_ONE {
        None
    } else {
        Some((t * DIST_ONE / a, u * DIST_ONE / a, v * DIST_ONE / a))
    }
}

/// The point of `ray` at parameter `tn / td` lies in box `b`.
pub open spec fn point_in_box(ray: RayCast, b: Aabb, tn: int, td: int) -> bool {
    let w = ray.scale as int;
    &&& td * (w * b.min.x) <= td * ray.origin.x + tn * ray.direction.x <= td * (w * b.max.x)
    &&& td * (w * b.min.y) <= td * ray.origin.y + tn * ray.direction.y <= td * (w * b.max.y)
    &&& td * (w * b.min.z) <= td * ray.origin.z + tn * ray.direction.z <= td * (w * b.max.z)
}

/// Cramer's rule behind the Moller-Trumbore test, one coordinate: with
/// `h = d x e2` and `q = s x e1`, `(e1 . h) s = (s . h) e1 + (d . q) e2 - (e2 . q) d`.
proof fn lemma_cramer(
    dx: int, dy: int, dz: int,
    e1x: int, e1y: int, e1z: int,
    e2x: int, e2y: int, e2z: int,
    sx: int, sy: int, sz: int,
)
    ensures
        (e1x * (dy * e2z - dz * e2y) + e1y * (dz * e2x - dx * e2z) + e1z * (dx * e2y - dy * e2x)) * sx
            == (sx * (dy * e2z - dz * e2y) + sy * (dz * e2x - dx * e2z) + sz * (dx * e2y - dy * e2x)) * e1x
            + (dx * (sy * e1z - sz * e1y) + dy * (sz * e1x - sx * e1z) + dz * (sx * e1y - sy * e1x)) * e2x
            - (e2x * (sy * e1z - sz * e1y) + e2y * (sz * e1x - sx * e1z) + e2z * (sx * e1y - sy * e1x)) * dx,
{
    broadcast use vstd::arithmetic::mul::group_mul_is_commutative_and_distributive;
    broadcast use vstd::arithmetic::mul::lemma_mul_is_associative;
}

/// Solving Cramer's rule for the point: `a o + t d = (a - u - v) p0 + u p1 + v p2`.
proof fn lemma_point_combination(a: int, u: int, v: int, t: int, o: int, d: int, p0: int, p1: int, p2: int)
    requires
        a * (o - p0) == u * (p1 - p0) + v * (p2 - p0) - t * d,
    ensures
        a * o + t * d == (a - u - v) * p0 + u * p1 + v * p2,
{
    broadcast use vstd::arithmetic::mul::group_mul_is_commutative_and_distributive;
}

/// A combination with non-negative weights summing to `a` of values in `[lo, hi]` lies in `[a lo, a hi]`.
proof fn lemma_convex(a: int, u: int, v: int, p0: int, p1: int, p2: int, lo: int, hi: int)
    by (nonlinear_arith)
    requires
        0 <= u,
        0 <= v,
        u + v <= a,
        lo <= p0 <= hi,
        lo <= p1 <= hi,
        lo <= p2 <= hi,
    ensures
        a * lo <= (a - u - v) * p0 + u * p1 + v * p2 <= a * hi,
{
}

/// A factor keeps the order: `lo <= x <= hi` and `w > 0` give `w lo <= w x <= w hi`.
proof fn lemma_scale_order(w: int, lo: int, x: int, hi: int)
    by (nonlinear_arith)
    requires
        0 < w,
        lo <= x <= hi,
    ensures
        w * lo <= w * x <= w * hi,
{
}

/// One coordinate of the hit point lies between the box's bounds.
proof fn lemma_hit_coordinate(
    a0: int, su: int, sv: int, st: int, a: int, u: int, v: int, t: int,
    o: int, d: int, p0: int, p1: int, p2: int, lo: int, hi: int,
)
    requires
        a0 * (o - p0) == su * (p1 - p0) + sv * (p2 - p0) - st * d,
        a0 < 0 ==> a == -a0 && u == -su && v == -sv && t == -st,
        a0 >= 0 ==> a == a0 && u == su && v == sv && t == st,
        0 <= u,
        0 <= v,
        u + v <= a,
        lo <= p0 <= hi,
        lo <= p1 <= hi,
        lo <= p2 <= hi,
    ensures
        a * lo <= a * o + t * d <= a * hi,
{
    if a0 < 0 {
        assert(a * (o - p0) == u * (p1 - p0) + v * (p2 - p0) - t * d) by {
            broadcast use vstd::arithmetic::mul::group_mul_is_commutative_and_distributive;
            broadcast use vstd::arithmetic::mul::group_mul_basics;
            vstd::arithmetic::mul::lemma_mul_unary_negation(a0, o - p0);
            vstd::arithmetic::mul::lemma_mul_unary_negation(su, p1 - p0);
            vstd::arithmetic::mul::lemma_mul_unary_negation(sv, p2 - p0);
            vstd::arithmetic::mul::lemma_mul_unary_negation(st, d);
        }
    }
    lemma_point_combination(a, u, v, t, o, d, p0, p1, p2);
    lemma_convex(a, u, v, p0, p1, p2, lo, hi);
}

/// Where the test finds a hit, the hit point lies in every box that holds
/// the triangle, at a parameter `t / a` with `a > 0` and `t >= 0`.
pub proof fn lemma_hit_in_box(ray: RayCast, tri: Tri, b: Aabb)
    requires
        ray.wf(),
        tri.in_box(b),
        tri_hit(ray, tri) is Some,
    ensures
        ({
            let (a, u, v, t) = mt(ray, tri);
            &&& 0 < a
            &&& 0 <= t
            &&& point_in_box(ray, b, t, a)
        }),
{
    let w = ray.scale as int;
    let v0 = scale(w, tri.vertex0.t());
    let p1 = scale(w, tri.vertex1.t());
    let p2 = scale(w, tri.vertex2.t());
    let e1 = sub3(p1, v0);
    let e2 = sub3(p2, v0);
    let d = ray.direction.t();
    let h = cross(d, e2);
    let a0 = dot(e1, h);
    let s = sub3(ray.origin.t(), v0);
    let q = cross(s, e1);
    let (a, u, v, t) = mt(ray, tri);
    lemma_cramer(d.0, d.1, d.2, e1.0, e1.1, e1.2, e2.0, e2.1, e2.2, s.0, s.1, s.2);
    lemma_cramer(d.1, d.2, d.0, e1.1, e1.2, e1.0, e2.1, e2.2, e2.0, s.1, s.2, s.0);
    lemma_cramer(d.2, d.0, d.1, e1.2, e1.0, e1.1, e2.2, e2.0, e2.1, s.2, s.0, s.1);
    assert(a0 * s.0 == dot(s, h) * e1.0 + dot(d, q) * e2.0 - dot(e2, q) * d.0);
    assert(a0 * s.1 == dot(s, h) * e1.1 + dot(d, q) * e2.1 - dot(e2, q) * d.1);
    assert(a0 * s.2 == dot(s, h) * e1.2 + dot(d, q) * e2.2 - dot(e2, q) * d.2);
    assert(0 < a);
    assert(0 < t);
    lemma_scale_order(w, b.min.x as int, tri.vertex0.x as int, b.max.x as int);
    lemma_scale_order(w, b.min.x as int, tri.vertex1.x as int, b.max.x as int);
    lemma_scale_order(w, b.min.x as int, tri.vertex2.x as int, b.max.x as int);
    lemma_scale_order(w, b.min.y as int, tri.vertex0.y as int, b.max.y as int);
    lemma_scale_order(w, b.min.y as int, tri.vertex1.y as int, b.max.y as int);
    lemma_scale_order(w, b.min.y as int, tri.vertex2.y as int, b.max.y as int);
    lemma_scale_order(w, b.min.z as int, tri.vertex0.z as int, b.max.z as int);
    lemma_scale_order(w, b.min.z as int, tri.vertex1.z as int, b.max.z as int);
    lemma_scale_order(w, b.min.z as int, tri.vertex2.z as int, b.max.z as int);
    assert(a0 * (ray.origin.x - v0.0) == dot(s, h) * (p1.0 - v0.0) + dot(d, q) * (p2.0 - v0.0) - dot(e2, q) * d.0) by {
        broadcast use vstd::arithmetic::mul::lemma_mul_is_commutative;
    }
    assert(a0 * (ray.origin.y - v0.1) == dot(s, h) * (p1.1 - v0.1) + dot(d, q) * (p2.1 - v0.1) - dot(e2, q) * d.1) by {
        broadcast use vstd::arithmetic::mul::lemma_mul_is_commutative;
    }
    assert(a0 * (ray.origin.z - v0.2) == dot(s, h) * (p1.2 - v0.2) + dot(d, q) * (p2.2 - v0.2) - dot(e2, q) * d.2) by {
        broadcast use vstd::arithmetic::mul::lemma_mul_is_commutative;
    }
    lemma_hit_coordinate(a0, dot(s, h), dot(d, q), dot(e2, q), a, u, v, t, ray.origin.x as int, d.0, v0.0, p1.0, p2.0, w * b.min.x, w * b.max.x);
    lemma_hit_coordinate(a0, dot(s, h), dot(d, q), dot(e2, q), a, u, v, t, ray.origin.y as int, d.1, v0.1, p1.1, p2.1, w * b.min.y, w * b.max.y);
    lemma_hit_coordinate(a0, dot(s, h), dot(d, q), dot(e2, q), a, u, v, t, ray.origin.z as int, d.2, v0.2, p1.2, p2.2, w * b.min.z, w * b.max.z);
}

/// `hit` is the hit of `ray` with triangle `hit.tri_index` of `bvh`, within the ray's length.
pub open spec fn is_hit_of(ray: RayCast, bvh: Bvh, hit: Hit) -> bool {
    &&& hit.tri_index < bvh.tris@.len()
    &&& tri_hit(ray, bvh.tris@[hit.tri_index as int]) == Some(
        (hit.distance as int, hit.u as int, hit.v as int),
    )
    &&& 0 <= hit.distance <= ray.max
}

/// `ray` in the local space of an instance placed by `m`: origin and
/// direction through the adjugate of `m`, scaled by the determinant's
/// magnitude, with the sign of the determinant taken out.
pub open spec fn local_ray(ray: RayCast, m: Affine) -> RayCast {
    let o = m.unapply(ray.origin.t());
    let d = m.adjugate(ray.direction.t());
    if m.det() < 0 {
        RayCast {
            origin: Vec3 { x: (-o.0) as i64, y: (-o.1) as i64, z: (-o.2) as i64 },
            direction: Vec3 { x: (-d.0) as i64, y: (-d.1) as i64, z: (-d.2) as i64 },
            scale: (-m.det()) as i64,
            max: ray.max,
        }
    } else {
        RayCast {
            origin: Vec3 { x: o.0 as i64, y: o.1 as i64, z: o.2 as i64 },
            direction: Vec3 { x: d.0 as i64, y: d.1 as i64, z: d.2 as i64 },
            scale: m.det() as i64,
            max: ray.max,
        }
    }
}

/// Bounds of the adjugate of a map applied to a vector of bounded coordinates.
proof fn lemma_adjugate_bound(m: Affine, v: Triple, b: int)
    requires
        coef_ok(m.row_x),
        coef_ok(m.row_y),
        coef_ok(m.row_z),
        0 <= b,
        bounded(v, b),
    ensures
        bounded(m.adjugate(v), 1536 * b),
{
    let (rx, ry, rz) = (m.row_x, m.row_y, m.row_z);
    let cyz = cross(ry.t(), rz.t());
    let czx = cross(rz.t(), rx.t());
    let cxy = cross(rx.t(), ry.t());
    lemma_mul_bound(ry.y as int, rz.z as int, 16, 16);
    lemma_mul_bound(ry.z as int, rz.y as int, 16, 16);
    lemma_mul_bound(ry.z as int, rz.x as int, 16, 16);
    lemma_mul_bound(ry.x as int, rz.z as int, 16, 16);
    lemma_mul_bound(ry.x as int, rz.y as int, 16, 16);
    lemma_mul_bound(ry.y as int, rz.x as int, 16, 16);
    lemma_mul_bound(rz.y as int, rx.z as int, 16, 16);
    lemma_mul_bound(rz.z as int, rx.y as int, 16, 16);
    lemma_mul_bound(rz.z as int, rx.x as int, 16, 16);
    lemma_mul_bound(rz.x as int, rx.z as int, 16, 16);
    lemma_mul_bound(rz.x as int, rx.y as int, 16, 16);
    lemma_mul_bound(rz.y as int, rx.x as int, 16, 16);
    lemma_mul_bound(rx.y as int, ry.z as int, 16, 16);
    lemma_mul_bound(rx.z as int, ry.y as int, 16, 16);
    lemma_mul_bound(rx.z as int, ry.x as int, 16, 16);
    lemma_mul_bound(rx.x as int, ry.z as int, 16, 16);
    lemma_mul_bound(rx.x as int, ry.y as int, 16, 16);
    lemma_mul_bound(rx.y as int, ry.x as int, 16, 16);
    assert(bounded(cyz, 512) && bounded(czx, 512) && bounded(cxy, 512));
    lemma_mul_bound(v.0, cyz.0, b, 512);
    lemma_mul_bound(v.1, czx.0, b, 512);
    lemma_mul_bound(v.2, cxy.0, b, 512);
    lemma_mul_bound(v.0, cyz.1, b, 512);
    lemma_mul_bound(v.1, czx.1, b, 512);
    lemma_mul_bound(v.2, cxy.1, b, 512);
    lemma_mul_bound(v.0, cyz.2, b, 512);
    lemma_mul_bound(v.1, czx.2, b, 512);
    lemma_mul_bound(v.2, cxy.2, b, 512);
}

/// A world ray within the limits, taken to the local space of a valid map,
/// is within the limits of the local arithmetic, and its coordinates are
/// those of the adjugate with the determinant's sign taken out.
pub proof fn lemma_local_ray_facts(ray: RayCast, m: Affine)
    requires
        ray.scale == 1,
        ray.origin.in_bounds(),
        bounded(ray.direction.t(), DIR_LIMIT as int),
        0 <= ray.max <= MAX_DIST,
        m.wf(),
    ensures
        local_ray(ray, m).wf(),
        local_ray(ray, m).max == ray.max,
        local_ray(ray, m).scale == if m.det() < 0 { -m.det() } else { m.det() },
        m.det() > 0 ==> local_ray(ray, m).origin.t() == m.unapply(ray.origin.t())
            && local_ray(ray, m).direction.t() == m.adjugate(ray.direction.t()),
        m.det() < 0 ==> local_ray(ray, m).origin.t() == scale(-1, m.unapply(ray.origin.t()))
            && local_ray(ray, m).direction.t() == scale(-1, m.adjugate(ray.direction.t())),
{
    lemma_adjugate_bound(m, sub3(ray.origin.t(), m.translation.t()), 0x200000);
    lemma_adjugate_bound(m, ray.direction.t(), 0x100000);
    let (rx, ry, rz) = (m.row_x, m.row_y, m.row_z);
    let cyz = cross(ry.t(), rz.t());
    lemma_mul_bound(ry.y as int, rz.z as int, 16, 16);
    lemma_mul_bound(ry.z as int, rz.y as int, 16, 16);
    lemma_mul_bound(ry.z as int, rz.x as int, 16, 16);
    lemma_mul_bound(ry.x as int, rz.z as int, 16, 16);
    lemma_mul_bound(ry.x as int, rz.y as int, 16, 16);
    lemma_mul_bound(ry.y as int, rz.x as int, 16, 16);
    lemma_mul_bound(rx.x as int, cyz.0, 16, 512);
    lemma_mul_bound(rx.y as int, cyz.1, 16, 512);
    lemma_mul_bound(rx.z as int, cyz.2, 16, 512);
}

/// The number of nodes in the subtree of node `i`.
pub open spec fn subtree_size(bvh: Bvh, i: int) -> int
    decreases bvh.nodes@.len() - i,
{
    if 0 <= i < bvh.nodes@.len() && bvh.nodes@[i].tri_count == 0 && i < bvh.nodes@[i].left_first
        && bvh.nodes@[i].left_first + 1 < bvh.nodes@.len() {
        1 + subtree_size(bvh, bvh.nodes@[i].left_first as int) + subtree_size(
            bvh,
            bvh.nodes@[i].left_first + 1,
        )
    } else {
        1
    }
}

pub open spec fn stack_size(bvh: Bvh, s: Seq<usize>) -> int
    decreases s.len(),
{
    if s.len() == 0 {
        0
    } else {
        stack_size(bvh, s.drop_last()) + subtree_size(bvh, s.last() as int)
    }
}

proof fn lemma_subtree_size_pos(bvh: Bvh, i: int)
    ensures
        subtree_size(bvh, i) >= 1,
    decreases bvh.nodes@.len() - i,
{
    if 0 <= i < bvh.nodes@.len() && bvh.nodes@[i].tri_count == 0 && i < bvh.nodes@[i].left_first
        && bvh.nodes@[i].left_first + 1 < bvh.nodes@.len() {
        lemma_subtree_size_pos(bvh, bvh.nodes@[i].left_first as int);
        lemma_subtree_size_pos(bvh, bvh.nodes@[i].left_first + 1);
    }
}

proof fn lemma_stack_size_nonneg(bvh: Bvh, s: Seq<usize>)
    ensures
        stack_size(bvh, s) >= 0,
    decreases s.len(),
{
    if s.len() > 0 {
        lemma_stack_size_nonneg(bvh, s.drop_last());
        lemma_subtree_size_pos(bvh, s.last() as int);
    }
}

impl RayCast {
    /// Coordinates small enough for exact intersection arithmetic.
    pub open spec fn wf(self) -> bool {
        &&& bounded(self.origin.t(), 0x200000000)
        &&& bounded(self.direction.t(), 0x100000000)
        &&& 1 <= self.scale <= 0x8000
        &&& 0 <= self.max <= MAX_DIST
    }

    /// A world-space ray from `origin` along `direction`, up to `max` (in units
    /// of `DIST_ONE` times the length of `direction`).
    pub fn new(origin: Vec3, direction: Vec3, max: i64) -> (r: RayCast)
        requires
            origin.in_bounds(),
            bounded(direction.t(), DIR_LIMIT as int),
            0 <= max <= MAX_DIST,
        ensures
            r.wf(),
            r == (RayCast { origin, direction, scale: 1, max }),
    {
        RayCast { origin, direction, scale: 1, max }
    }

    /// The same ray in the local space of an instance placed by `transform`:
    /// origin and direction go through the inverse map, kept exact by scaling
    /// with the determinant's magnitude. The parameter `t` of every point is
    /// kept, so the length bound and all hit distances stay world distances.
    pub fn to_local(&self, transform: &Affine) -> (r: RayCast)
        requires
            self.scale == 1,
            self.origin.in_bounds(),
            bounded(self.direction.t(), DIR_LIMIT as int),
            0 <= self.max <= MAX_DIST,
            transform.wf(),
        ensures
            r.wf(),
            r == local_ray(*self, *transform),
            r.max == self.max,
            r.scale == if transform.det() < 0 { -transform.det() } else { transform.det() },
            transform.det() > 0 ==> r.origin.t() == transform.unapply(self.origin.t())
                && r.direction.t() == transform.adjugate(self.direction.t()),
            transform.det() < 0 ==> r.origin.t() == scale(-1, transform.unapply(self.origin.t()))
                && r.direction.t() == scale(-1, transform.adjugate(self.direction.t())),
    {
        let rx = wide(&transform.row_x);
        let ry = wide(&transform.row_y);
        let rz = wide(&transform.row_z);
        let cyz = cross128(ry, rz, Ghost(16), Ghost(16));
        let czx = cross128(rz, rx, Ghost(16), Ghost(16));
        let cxy = cross128(rx, ry, Ghost(16), Ghost(16));
        let det = dot128(rx, cyz, Ghost(16), Ghost(512));
        let o = wide(&self.origin);
        let t = wide(&transform.translation);
        let rel = (o.0 - t.0, o.1 - t.1, o.2 - t.2);
        let d = wide(&self.direction);
        proof {
            lemma_mul_bound(rel.0 as int, cyz.0 as int, 0x200000, 512);
            lemma_mul_bound(rel.1 as int, czx.0 as int, 0x200000, 512);
            lemma_mul_bound(rel.2 as int, cxy.0 as int, 0x200000, 512);
            lemma_mul_bound(rel.0 as int, cyz.1 as int, 0x200000, 512);
            lemma_mul_bound(rel.1 as int, czx.1 as int, 0x200000, 512);
            lemma_mul_bound(rel.2 as int, cxy.1 as int, 0x200000, 512);
            lemma_mul_bound(rel.0 as int, cyz.2 as int, 0x200000, 512);
            lemma_mul_bound(rel.1 as int, czx.2 as int, 0x200000, 512);
            lemma_mul_bound(rel.2 as int, cxy.2 as int, 0x200000, 512);
            lemma_mul_bound(d.0 as int, cyz.0 as int, 0x100000, 512);
            lemma_mul_bound(d.1 as int, czx.0 as int, 0x100000, 512);
            lemma_mul_bound(d.2 as int, cxy.0 as int, 0x100000, 512);
            lemma_mul_bound(d.0 as int, cyz.1 as int, 0x100000, 512);
            lemma_mul_bound(d.1 as int, czx.1 as int, 0x100000, 512);
            lemma_mul_bound(d.2 as int, cxy.1 as int, 0x100000, 512);
            lemma_mul_bound(d.0 as int, cyz.2 as int, 0x100000, 512);
            lemma_mul_bound(d.1 as int, czx.2 as int, 0x100000, 512);
            lemma_mul_bound(d.2 as int, cxy.2 as int, 0x100000, 512);
        }
        let lo = (
            rel.0 * cyz.0 + rel.1 * czx.0 + rel.2 * cxy.0,
            rel.0 * cyz.1 + rel.1 * czx.1 + rel.2 * cxy.1,
            rel.0 * cyz.2 + rel.1 * czx.2 + rel.2 * cxy.2,
        );
        let ld = (
            d.0 * cyz.0 + d.1 * czx.0 + d.2 * cxy.0,
            d.0 * cyz.1 + d.1 * czx.1 + d.2 * cxy.1,
            d.0 * cyz.2 + d.1 * czx.2 + d.2 * cxy.2,
        );
        assert(t128(lo) == transform.unapply(self.origin.t()));
        assert(t128(ld) == transform.adjugate(self.direction.t()));
        if det < 0 {
            RayCast {
                origin: Vec3 { x: (-lo.0) as i64, y: (-lo.1) as i64, z: (-lo.2) as i64 },
                direction: Vec3 { x: (-ld.0) as i64, y: (-ld.1) as i64, z: (-ld.2) as i64 },
                scale: (-det) as i64,
                max: self.max,
            }
        } else {
            RayCast {
                origin: Vec3 { x: lo.0 as i64, y: lo.1 as i64, z: lo.2 as i64 },
                direction: Vec3 { x: ld.0 as i64, y: ld.1 as i64, z: ld.2 as i64 },
                scale: det as i64,
                max: self.max,
            }
        }
    }
}

/// The hit of `ray` with `tri`, as triangle `idx`, wherever along the ray it lies.
pub open spec fn tri_result(ray: RayCast, tri: Tri, idx: usize) -> Option<Hit> {
    match tri_hit(ray, tri) {
        Some((t, u, v)) => Some(Hit { distance: t as i128, u: u as i64, v: v as i64, tri_index: idx }),
        None => None,
    }
}

/// The hit of `ray` with `tri`, as triangle `idx`, when it lies within the ray's length.
pub open spec fn ray_tri(ray: RayCast, tri: Tri, idx: usize) -> Option<Hit> {
    match tri_hit(ray, tri) {
        Some((t, u, v)) => if t <= ray.max {
            Some(Hit { distance: t as i128, u: u as i64, v: v as i64, tri_index: idx })
        } else {
            None
        },
        None => None,
    }
}

/// A non-negative fraction scaled by `DIST_ONE` and rounded down stays
/// non-negative, and at most `DIST_ONE` when the fraction is at most one.
proof fn lemma_scaled_div(x: int, a: int)
    by (nonlinear_arith)
    requires
        0 <= x,
        0 < a,
    ensures
        0 <= x * 65536 / a,
        x <= a ==> x * 65536 / a <= 65536,
{
}

/// What one axis of a point-in-box fact says of the ray parameter `tn / td`.
proof fn lemma_slab_axis(tn: int, td: int, w: int, lo: int, hi: int, o: int, d: int)
    requires
        0 < td,
        td * (w * lo) <= td * o + tn * d <= td * (w * hi),
    ensures
        d > 0 ==> (w * lo - o) * td <= tn * d && tn * d <= (w * hi - o) * td,
        d < 0 ==> (o - w * hi) * td <= tn * -d && tn * -d <= (o - w * lo) * td,
        d == 0 ==> w * lo <= o <= w * hi,
{
    broadcast use vstd::arithmetic::mul::group_mul_is_commutative_and_distributive;
    if d == 0 {
        assert(tn * d == 0) by {
            broadcast use vstd::arithmetic::mul::group_mul_basics;
        }
        vstd::arithmetic::mul::lemma_mul_inequality_converse(w * lo, o, td);
        vstd::arithmetic::mul::lemma_mul_inequality_converse(o, w * hi, td);
    }
    if d < 0 {
        vstd::arithmetic::mul::lemma_mul_unary_negation(tn, d);
        assert(tn * -d == -(tn * d)) by {
            broadcast use vstd::arithmetic::mul::group_mul_basics;
            vstd::arithmetic::mul::lemma_mul_unary_negation(tn, d);
            vstd::arithmetic::mul::lemma_mul_is_commutative(tn, -d);
            vstd::arithmetic::mul::lemma_mul_unary_negation(d, tn);
        }
    }
}

/// Fractions with positive denominators compare transitively.
proof fn lemma_frac_trans(en: int, ed: int, tn: int, td: int, xn: int, xd: int)
    requires
        0 < ed,
        0 < td,
        0 < xd,
        en * td <= tn * ed,
        tn * xd <= xn * td,
    ensures
        en * xd <= xn * ed,
{
    broadcast use vstd::arithmetic::mul::group_mul_is_commutative_and_distributive;
    broadcast use vstd::arithmetic::mul::lemma_mul_is_associative;
    vstd::arithmetic::mul::lemma_mul_inequality(en * td, tn * ed, xd);
    vstd::arithmetic::mul::lemma_mul_inequality(tn * xd, xn * td, ed);
    assert((en * xd) * td <= (xn * ed) * td);
    vstd::arithmetic::mul::lemma_mul_inequality_converse(en * xd, xn * ed, td);
}

/// The point of `ray` at parameter `tn / td` lies within its rounded length
/// and in box `b`.
pub open spec fn in_reach(ray: RayCast, b: Aabb, tn: int, td: int) -> bool {
    &&& 0 < td
    &&& 0 <= tn
    &&& tn * DIST_ONE <= (ray.max + 1) * td
    &&& point_in_box(ray, b, tn, td)
}

/// Along axis `j`, the slab of `b` is entered no later than `en / ed` and
/// left no earlier than `xn / xd`; a ray parallel to the slab lies in it.
pub open spec fn axis_between(ray: RayCast, b: Aabb, j: int, en: int, ed: int, xn: int, xd: int) -> bool {
    let w = ray.scale as int;
    let o = ray.origin.at(j);
    let d = ray.direction.at(j);
    let lo = w * b.min.at(j);
    let hi = w * b.max.at(j);
    if d == 0 {
        lo <= o <= hi
    } else if d > 0 {
        (lo - o) * ed <= en * d && xn * d <= (hi - o) * xd
    } else {
        (o - hi) * ed <= en * -d && xn * -d <= (o - lo) * xd
    }
}

/// Moving the entry later and the exit earlier keeps an axis's bounds.
proof fn lemma_axis_keep(ray: RayCast, b: Aabb, j: int, en: int, ed: int, xn: int, xd: int, en2: int, ed2: int, xn2: int, xd2: int)
    requires
        axis_between(ray, b, j, en, ed, xn, xd),
        0 < ed,
        0 < xd,
        0 < ed2,
        0 < xd2,
        en * ed2 <= en2 * ed,
        xn2 * xd <= xn * xd2,
    ensures
        axis_between(ray, b, j, en2, ed2, xn2, xd2),
{
    let w = ray.scale as int;
    let o = ray.origin.at(j);
    let d = ray.direction.at(j);
    let lo = w * b.min.at(j);
    let hi = w * b.max.at(j);
    if d > 0 {
        lemma_frac_trans(lo - o, d, en, ed, en2, ed2);
        lemma_frac_trans(xn2, xd2, xn, xd, hi - o, d);
    } else if d < 0 {
        lemma_frac_trans(o - hi, -d, en, ed, en2, ed2);
        lemma_frac_trans(xn2, xd2, xn, xd, o - lo, -d);
    }
}

/// An entry no later than the exit lies, along axis `j`, within the slab.
proof fn lemma_axis_point(ray: RayCast, b: Aabb, j: int, en: int, ed: int, xn: int, xd: int)
    requires
        axis_between(ray, b, j, en, ed, xn, xd),
        0 < ed,
        0 < xd,
        en * xd <= xn * ed,
    ensures
        ({
            let w = ray.scale as int;
            ed * (w * b.min.at(j)) <= ed * ray.origin.at(j) + en * ray.direction.at(j) <= ed * (w * b.max.at(j))
        }),
{
    let w = ray.scale as int;
    let o = ray.origin.at(j);
    let d = ray.direction.at(j);
    let lo = w * b.min.at(j);
    let hi = w * b.max.at(j);
    broadcast use vstd::arithmetic::mul::group_mul_is_commutative_and_distributive;
    if d == 0 {
        assert(en * d == 0) by {
            broadcast use vstd::arithmetic::mul::group_mul_basics;
        }
        vstd::arithmetic::mul::lemma_mul_inequality(lo, o, ed);
        vstd::arithmetic::mul::lemma_mul_inequality(o, hi, ed);
    } else if d > 0 {
        lemma_frac_trans(en, ed, xn, xd, hi - o, d);
    } else {
        lemma_frac_trans(en, ed, xn, xd, o - lo, -d);
        vstd::arithmetic::mul::lemma_mul_unary_negation(en, d);
        assert(en * -d == -(en * d)) by {
            broadcast use vstd::arithmetic::mul::group_mul_basics;
            vstd::arithmetic::mul::lemma_mul_is_commutative(en, -d);
            vstd::arithmetic::mul::lemma_mul_unary_negation(d, en);
        }
    }
}

/// `n1 / d1 < n2 / d2` for positive denominators.
fn frac_lt(n1: i128, d1: i128, n2: i128, d2: i128) -> (r: bool)
    requires
        0 < d1 <= 0x100000000,
        0 < d2 <= 0x100000000,
        -0x8000000000000000 <= n1 <= 0x8000000000000000,
        -0x8000000000000000 <= n2 <= 0x8000000000000000,
    ensures
        r == (n1 * d2 < n2 * d1),
{
    proof {
        lemma_mul_bound(n1 as int, d2 as int, 0x8000000000000000, 0x100000000);
        lemma_mul_bound(n2 as int, d1 as int, 0x8000000000000000, 0x100000000);
    }
    n1 * d2 < n2 * d1
}

impl RayCast {
    /// The Moller-Trumbore test against `tri`, reported as triangle `tri_index`:
    /// the hit wherever along the ray it lies (the ray's length is not
    /// consulted), with `t > 1/10000`, barycentrics in the triangle, and no
    /// culling of back faces.
    pub fn intersect_triangle(&self, tri: &Tri, tri_index: usize) -> (r: Option<Hit>)
        requires
            self.wf(),
            tri.wf(),
        ensures
            r == tri_result(*self, *tri, tri_index),
            r matches Some(h) ==> {
                &&& 0 <= h.distance
                &&& 10000 * h.distance > DIST_ONE
                &&& 0 <= h.u <= DIST_ONE
                &&& 0 <= h.v <= DIST_ONE
                &&& tri_hit(*self, *tri) == Some((h.distance as int, h.u as int, h.v as int))
            },
    {
        let w = self.scale as i128;
        let a0v = wide(&tri.vertex0);
        let a1v = wide(&tri.vertex1);
        let a2v = wide(&tri.vertex2);
        proof {
            lemma_mul_bound(w as int, a0v.0 as int, 0x8000, 0x100000);
            lemma_mul_bound(w as int, a0v.1 as int, 0x8000, 0x100000);
            lemma_mul_bound(w as int, a0v.2 as int, 0x8000, 0x100000);
            lemma_mul_bound(w as int, a1v.0 as int, 0x8000, 0x100000);
            lemma_mul_bound(w as int, a1v.1 as int, 0x8000, 0x100000);
            lemma_mul_bound(w as int, a1v.2 as int, 0x8000, 0x100000);
            lemma_mul_bound(w as int, a2v.0 as int, 0x8000, 0x100000);
            lemma_mul_bound(w as int, a2v.1 as int, 0x8000, 0x100000);
            lemma_mul_bound(w as int, a2v.2 as int, 0x8000, 0x100000);
        }
        let v0 = (w * a0v.0, w * a0v.1, w * a0v.2);
        let v1 = (w * a1v.0, w * a1v.1, w * a1v.2);
        let v2 = (w * a2v.0, w * a2v.1, w * a2v.2);
        let e1 = (v1.0 - v0.0, v1.1 - v0.1, v1.2 - v0.2);
        let e2 = (v2.0 - v0.0, v2.1 - v0.1, v2.2 - v0.2);
        let d = wide(&self.direction);
        let o = wide(&self.origin);
        let h = cross128(d, e2, Ghost(0x100000000), Ghost(0x1000000000));
        let a0 = dot128(e1, h, Ghost(0x1000000000), Ghost(0x200000000000000000));
        let s = (o.0 - v0.0, o.1 - v0.1, o.2 - v0.2);
        let q = cross128(s, e1, Ghost(0x1000000000), Ghost(0x1000000000));
        let su = dot128(s, h, Ghost(0x1000000000), Ghost(0x200000000000000000));
        let sv = dot128(d, q, Ghost(0x100000000), Ghost(0x2000000000000000000));
        let st = dot128(e2, q, Ghost(0x1000000000), Ghost(0x2000000000000000000));
        if a0 == 0 {
            return None;
        }
        let (a, u, v, t) = if a0 < 0 {
            (-a0, -su, -sv, -st)
        } else {
            (a0, su, sv, st)
        };
        if u < 0 || u > a || v < 0 || u + v > a || t <= 0 {
            return None;
        }
        let tf = t * 65536 / a;
        if tf <= 6 {
            return None;
        }
        let uf = u * 65536 / a;
        let vf = v * 65536 / a;
        proof {
            lemma_scaled_div(u as int, a as int);
            lemma_scaled_div(v as int, a as int);
            lemma_scaled_div(t as int, a as int);
        }
        Some(Hit { distance: tf, u: uf as i64, v: vf as i64, tri_index })
    }

    /// The slab test against box `b`: the parameter at which the ray enters
    /// `b`, as a fraction `(num, den)`, when it meets `b` before the first
    /// parameter whose rounded distance exceeds the ray's length.
    pub fn aabb_intersection_at(&self, b: &Aabb) -> (r: Option<(i128, i128)>)
        requires
            self.wf(),
            b.wf(),
        ensures
            r matches Some((n, d)) ==> 0 < d <= 0x100000000 && 0 <= n <= 0x1000000000,
            r matches Some((n, d)) ==> in_reach(*self, *b, n as int, d as int),
            r matches Some((n, d)) ==> forall|tn: int, td: int|
                #[trigger] in_reach(*self, *b, tn, td) ==> n * td <= tn * d,
            r is None ==> forall|tn: int, td: int| !#[trigger] in_reach(*self, *b, tn, td),
    {
        let w = self.scale as i128;
        let o = wide(&self.origin);
        let dd = wide(&self.direction);
        let lo3 = wide(&b.min);
        let hi3 = wide(&b.max);
        let mut enter_n: i128 = 0;
        let mut enter_d: i128 = 1;
        let mut exit_n: i128 = self.max as i128 + 1;
        let mut exit_d: i128 = 65536;
        let mut k: usize = 0;
        while k < 3
            invariant
                self.wf(),
                b.wf(),
                w == self.scale,
                t128(o) == self.origin.t(),
                t128(dd) == self.direction.t(),
                t128(lo3) == b.min.t(),
                t128(hi3) == b.max.t(),
                0 < enter_d <= 0x100000000,
                0 <= enter_n <= 0x1000000000,
                0 < exit_d <= 0x100000000,
                -0x1000000000 <= exit_n <= MAX_DIST + 1,
                exit_n * DIST_ONE <= (self.max + 1) * exit_d,
                k <= 3,
                forall|tn: int, td: int|
                    #[trigger] in_reach(*self, *b, tn, td) ==> enter_n * td <= tn * enter_d && tn * exit_d <= exit_n * td,
                forall|j: int| 0 <= j < k ==> #[trigger] axis_between(*self, *b, j, enter_n as int, enter_d as int, exit_n as int, exit_d as int),
            decreases 3 - k,
        {
            let (ok, dk, lo, hi) = if k == 0 {
                (o.0, dd.0, lo3.0, hi3.0)
            } else if k == 1 {
                (o.1, dd.1, lo3.1, hi3.1)
            } else {
                (o.2, dd.2, lo3.2, hi3.2)
            };
            proof {
                lemma_mul_bound(w as int, lo as int, 0x8000, 0x100000);
                lemma_mul_bound(w as int, hi as int, 0x8000, 0x100000);
            }
            let lo = w * lo;
            let hi = w * hi;
            let ghost (en0, ed0, xn0, xd0) = (enter_n as int, enter_d as int, exit_n as int, exit_d as int);
            proof {
                assert(ok == self.origin.at(k as int) && dk == self.direction.at(k as int));
                assert(lo == w * b.min.at(k as int) && hi == w * b.max.at(k as int));
                assert forall|tn: int, td: int|
                    #[trigger] in_reach(*self, *b, tn, td)
                    implies {
                        &&& dk > 0 ==> (lo - ok) * td <= tn * dk && tn * dk <= (hi - ok) * td
                        &&& dk < 0 ==> (ok - hi) * td <= tn * -dk && tn * -dk <= (ok - lo) * td
                        &&& dk == 0 ==> lo <= ok <= hi
                    } by {
                    if k == 0 {
                        lemma_slab_axis(tn, td, w as int, b.min.x as int, b.max.x as int, ok as int, dk as int);
                    } else if k == 1 {
                        lemma_slab_axis(tn, td, w as int, b.min.y as int, b.max.y as int, ok as int, dk as int);
                    } else {
                        lemma_slab_axis(tn, td, w as int, b.min.z as int, b.max.z as int, ok as int, dk as int);
                    }
                }
            }
            if dk == 0 {
                if ok < lo || ok > hi {
                    return None;
                }
            } else {
                let (near_n, far_n, den) = if dk > 0 {
                    (lo - ok, hi - ok, dk)
                } else {
                    (ok - hi, ok - lo, -dk)
                };
                if frac_lt(enter_n, enter_d, near_n, den) {
                    assert(0 < near_n) by (nonlinear_arith)
                        requires
                            enter_n * den < near_n * enter_d,
                            0 <= enter_n,
                            0 < den,
                            0 < enter_d;
                    enter_n = near_n;
                    enter_d = den;
                }
                if frac_lt(far_n, den, exit_n, exit_d) {
                    proof {
                        lemma_mul_bound(far_n as int, exit_d as int, 0x1000000000, 0x100000000);
                        lemma_mul_bound(exit_n as int, den as int, 0x8000000000000000, 0x100000000);
                    }
                    assert(far_n * DIST_ONE <= (self.max + 1) * den) by (nonlinear_arith)
                        requires
                            far_n * exit_d < exit_n * den,
                            exit_n * DIST_ONE <= (self.max + 1) * exit_d,
                            0 < exit_d,
                            0 < den,
                            0 <= self.max;
                    exit_n = far_n;
                    exit_d = den;
                }
            }
            proof {
                assert(en0 * enter_d <= enter_n * ed0);
                assert(exit_n * xd0 <= xn0 * exit_d);
                assert forall|j: int| 0 <= j < k + 1 implies #[trigger] axis_between(*self, *b, j, enter_n as int, enter_d as int, exit_n as int, exit_d as int) by {
                    if j < k {
                        assert(axis_between(*self, *b, j, en0, ed0, xn0, xd0));
                        lemma_axis_keep(*self, *b, j, en0, ed0, xn0, xd0, enter_n as int, enter_d as int, exit_n as int, exit_d as int);
                    }
                }
            }
            k = k + 1;
        }
        if frac_lt(exit_n, exit_d, enter_n, enter_d) {
            proof {
                assert forall|tn: int, td: int| !#[trigger] in_reach(*self, *b, tn, td) by {
                    if in_reach(*self, *b, tn, td) {
                        lemma_frac_trans(enter_n as int, enter_d as int, tn, td, exit_n as int, exit_d as int);
                    }
                }
            }
            None
        } else {
            assert(enter_n * DIST_ONE <= (self.max + 1) * enter_d) by (nonlinear_arith)
                requires
                    enter_n * exit_d <= exit_n * enter_d,
                    exit_n * DIST_ONE <= (self.max + 1) * exit_d,
                    0 < exit_d,
                    0 < enter_d;
            proof {
                assert(axis_between(*self, *b, 0, enter_n as int, enter_d as int, exit_n as int, exit_d as int));
                assert(axis_between(*self, *b, 1, enter_n as int, enter_d as int, exit_n as int, exit_d as int));
                assert(axis_between(*self, *b, 2, enter_n as int, enter_d as int, exit_n as int, exit_d as int));
                lemma_axis_point(*self, *b, 0, enter_n as int, enter_d as int, exit_n as int, exit_d as int);
                lemma_axis_point(*self, *b, 1, enter_n as int, enter_d as int, exit_n as int, exit_d as int);
                lemma_axis_point(*self, *b, 2, enter_n as int, enter_d as int, exit_n as int, exit_d as int);
            }
            Some((enter_n, enter_d))
        }
    }
}

/// Entry `a` lies beyond entry `b`, a miss lying beyond everything.
pub(crate) fn farther(a: Option<(i128, i128)>, b: Option<(i128, i128)>) -> (r: bool)
    requires
        a matches Some((n, d)) ==> 0 < d <= 0x100000000 && 0 <= n <= 0x1000000000,
        b matches Some((n, d)) ==> 0 < d <= 0x100000000 && 0 <= n <= 0x1000000000,
    ensures
        r == match (a, b) {
            (None, Some(_)) => true,
            (Some((n1, d1)), Some((n2, d2))) => n2 * d1 < n1 * d2,
            _ => false,
        },
{
    match (a, b) {
        (None, Some(_)) => true,
        (Some((n1, d1)), Some((n2, d2))) => frac_lt(n2, d2, n1, d1),
        _ => false,
    }
}

/// What a hit must beat to replace `best`: its distance, or one past the
/// ray's length when there is none yet.
pub open spec fn beat_bound(ray: RayCast, best: Option<Hit>) -> int {
    match best {
        Some(h) => h.distance as int,
        None => ray.max + 1,
    }
}

/// The triangle at position `p` of `bvh` has a hit with `ray` nearer than `bound`.
pub open spec fn improves(ray: RayCast, bvh: Bvh, p: int, bound: int) -> bool {
    let k = bvh.triangle_indexs@[p];
    ray_tri(ray, bvh.tris@[k as int], k) matches Some(h) && h.distance < bound
}

/// Position `p` lies in the run of node `i`.
pub open spec fn in_span(bvh: Bvh, i: int, p: int) -> bool {
    bvh.spans@[i].0 <= p < bvh.spans@[i].0 + bvh.spans@[i].1
}

/// Position `p` lies under `node` or under a node on `stack`.
pub open spec fn pending(bvh: Bvh, node: int, stack: Seq<usize>, p: int) -> bool {
    in_span(bvh, node, p) || exists|j: int| 0 <= j < stack.len() && #[trigger] in_span(bvh, stack[j] as int, p)
}

proof fn lemma_div_upper(x: int, a: int)
    by (nonlinear_arith)
    requires
        0 < a,
    ensures
        x < (x / a + 1) * a,
{
}

/// A triangle under node `c` whose hit beats `bound` puts a point of the
/// (shortened) ray within its rounded length into the box of `c`.
pub(crate) proof fn lemma_reaches_box(cur: RayCast, ray: RayCast, bvh: Bvh, c: int, p: int, bound: int)
    requires
        bvh.wf(),
        ray.wf(),
        cur.wf(),
        cur == (RayCast { max: cur.max, ..ray }),
        0 <= c < bvh.nodes@.len(),
        in_span(bvh, c, p),
        improves(ray, bvh, p, bound),
        bound <= cur.max + 1,
    ensures
        exists|tn: int, td: int| #[trigger] in_reach(cur, bvh.nodes@[c].aabb, tn, td),
{
    lemma_node_bounds(bvh, c);
    let k = bvh.triangle_indexs@[p] as int;
    let tri = bvh.tris@[k];
    let b = bvh.nodes@[c].aabb;
    assert(tri.in_box(b));
    assert(mt(cur, tri) == mt(ray, tri));
    lemma_hit_in_box(cur, tri, b);
    let (a, u, v, t) = mt(cur, tri);
    let tf = t * DIST_ONE / a;
    lemma_div_upper(t * DIST_ONE, a);
    assert(tf + 1 <= cur.max + 1);
    vstd::arithmetic::mul::lemma_mul_inequality(tf + 1, cur.max + 1, a);
    vstd::arithmetic::mul::lemma_mul_is_commutative(tf + 1, a);
    vstd::arithmetic::mul::lemma_mul_is_commutative(cur.max + 1, a);
    assert(point_in_box(cur, b, t, a));
    assert(in_reach(cur, b, t, a));
}

impl RayCast {
    /// The nearest hit of the ray with the triangles of `bvh`: a depth-first
    /// descent that enters the nearer child first, keeps the farther one on a
    /// stack, skips boxes the ray misses within its length, and shortens the
    /// ray to each nearer hit found. None when no triangle is hit within the
    /// ray's length.
    pub fn intersect_bvh(&self, bvh: &Bvh) -> (r: Option<Hit>)
        requires
            self.wf(),
            bvh.wf(),
        ensures
            r matches Some(h) ==> is_hit_of(*self, *bvh, h),
            r matches Some(h) ==> 10000 * h.distance > DIST_ONE && h.distance <= self.max,
            r is None ==> forall|k: int|
                0 <= k < bvh.tris@.len() ==> ray_tri(*self, #[trigger] bvh.tris@[k], k as usize) is None,
            r matches Some(h) ==> forall|k: int|
                0 <= k < bvh.tris@.len() ==> (ray_tri(*self, #[trigger] bvh.tris@[k], k as usize) matches Some(h2)
                    ==> h.distance <= h2.distance),
    {
        let mut node: usize = 0;
        let mut stack: Vec<usize> = Vec::new();
        let mut best: Option<Hit> = None;
        let mut ray = *self;
        let ghost n_tris = bvh.tris@.len() as int;
        proof {
            lemma_stack_size_nonneg(*bvh, stack@);
            assert(bvh.node_wf(0));
        }
        loop
            invariant
                self.wf(),
                bvh.wf(),
                ray.wf(),
                n_tris == bvh.tris@.len(),
                ray == (RayCast { max: ray.max, ..*self }),
                ray.max <= self.max,
                best is None ==> ray.max == self.max,
                node < bvh.nodes@.len(),
                forall|k: int| 0 <= k < stack@.len() ==> #[trigger] stack@[k] < bvh.nodes@.len(),
                best matches Some(h) ==> is_hit_of(*self, *bvh, h) && h.distance == ray.max,
                forall|p: int|
                    0 <= p < n_tris && #[trigger] improves(*self, *bvh, p, beat_bound(*self, best))
                        ==> pending(*bvh, node as int, stack@, p),
            ensures
                best matches Some(h) ==> is_hit_of(*self, *bvh, h),
                forall|p: int| 0 <= p < n_tris ==> !#[trigger] improves(*self, *bvh, p, beat_bound(*self, best)),
            decreases subtree_size(*bvh, node as int) + stack_size(*bvh, stack@),
        {
            let n = bvh.nodes[node];
            assert(bvh.node_wf(node as int));
            proof {
                lemma_stack_size_nonneg(*bvh, stack@);
                lemma_subtree_size_pos(*bvh, node as int);
            }
            let ghost bound0 = beat_bound(*self, best);
            if n.is_leaf() {
                let mut i: usize = 0;
                while i < n.tri_count
                    invariant
                        self.wf(),
                        bvh.wf(),
                        ray.wf(),
                        n_tris == bvh.tris@.len(),
                        ray == (RayCast { max: ray.max, ..*self }),
                        ray.max <= self.max,
                        best is None ==> ray.max == self.max,
                        node < bvh.nodes@.len(),
                        forall|k: int| 0 <= k < stack@.len() ==> #[trigger] stack@[k] < bvh.nodes@.len(),
                        n == bvh.nodes@[node as int],
                        n.tri_count > 0,
                        n.left_first == bvh.spans@[node as int].0,
                        n.tri_count == bvh.spans@[node as int].1,
                        n.left_first + n.tri_count <= bvh.tris@.len(),
                        i <= n.tri_count,
                        best matches Some(h) ==> is_hit_of(*self, *bvh, h) && h.distance == ray.max,
                        beat_bound(*self, best) <= bound0,
                        forall|p: int|
                            0 <= p < n_tris && #[trigger] improves(*self, *bvh, p, bound0)
                                ==> pending(*bvh, node as int, stack@, p),
                        forall|p: int|
                            n.left_first <= p < n.left_first + i ==> !#[trigger] improves(*self, *bvh, p, beat_bound(*self, best)),
                    decreases n.tri_count - i,
                {
                    let tri_index = bvh.triangle_indexs[n.left_first + i];
                    assert(bvh.tris@[tri_index as int].wf());
                    let ghost before = best;
                    let found = ray.intersect_triangle(&bvh.tris[tri_index], tri_index);
                    proof {
                        assert(tri_hit(ray, bvh.tris@[tri_index as int]) == tri_hit(*self, bvh.tris@[tri_index as int]));
                    }
                    if let Some(hit) = found {
                        let nearer = hit.distance <= ray.max as i128 && match best {
                            None => true,
                            Some(b) => hit.distance < b.distance,
                        };
                        if nearer {
                            best = Some(hit);
                            ray.max = hit.distance as i64;
                        }
                    }
                    proof {
                        let p0 = n.left_first + i;
                        assert forall|p: int| n.left_first <= p < n.left_first + i + 1 implies !#[trigger] improves(*self, *bvh, p, beat_bound(*self, best)) by {
                            if p < p0 {
                                assert(!improves(*self, *bvh, p, beat_bound(*self, before)));
                            }
                        }
                    }
                    i = i + 1;
                }
                proof {
                    assert forall|p: int| 0 <= p < n_tris && #[trigger] improves(*self, *bvh, p, beat_bound(*self, best))
                        implies !in_span(*bvh, node as int, p) && exists|j: int| 0 <= j < stack@.len() && #[trigger] in_span(*bvh, stack@[j] as int, p) by {
                        assert(improves(*self, *bvh, p, bound0));
                        assert(pending(*bvh, node as int, stack@, p));
                        if in_span(*bvh, node as int, p) {
                            assert(!improves(*self, *bvh, p, beat_bound(*self, best)));
                        }
                    }
                }
                let ghost before = stack@;
                match stack.pop() {
                    None => break,
                    Some(x) => {
                        proof {
                            assert(stack@ == before.drop_last());
                            assert(x == before.last());
                            assert(forall|k: int| 0 <= k < stack@.len() ==> stack@[k] == before[k]);
                            assert forall|p: int| 0 <= p < n_tris && #[trigger] improves(*self, *bvh, p, beat_bound(*self, best))
                                implies pending(*bvh, x as int, stack@, p) by {
                                let j = choose|j: int| 0 <= j < before.len() && #[trigger] in_span(*bvh, before[j] as int, p);
                                if j < before.len() - 1 {
                                    assert(in_span(*bvh, stack@[j] as int, p));
                                }
                            }
                        }
                        node = x;
                    },
                }
            } else {
                assert(n.tri_count == 0);
                let node_count = bvh.nodes.len();
                assert(n.left_first + 1 < node_count);
                assert(bvh.node_wf(n.left_first as int));
                assert(bvh.node_wf(n.left_first + 1));
                let mut child1 = n.left_first;
                let mut child2 = n.left_first + 1;
                let mut dist1 = ray.aabb_intersection_at(&bvh.nodes[child1].aabb);
                let mut dist2 = ray.aabb_intersection_at(&bvh.nodes[child2].aabb);
                if farther(dist1, dist2) {
                    let t = dist1;
                    dist1 = dist2;
                    dist2 = t;
                    let c = child1;
                    child1 = child2;
                    child2 = c;
                }
                proof {
                    lemma_subtree_size_pos(*bvh, child1 as int);
                    lemma_subtree_size_pos(*bvh, child2 as int);
                    assert(!(dist1 is None && dist2 is Some));
                    assert forall|p: int| 0 <= p < n_tris && #[trigger] improves(*self, *bvh, p, beat_bound(*self, best))
                        implies (in_span(*bvh, child1 as int, p) && dist1 is Some)
                            || (in_span(*bvh, child2 as int, p) && dist2 is Some)
                            || exists|j: int| 0 <= j < stack@.len() && #[trigger] in_span(*bvh, stack@[j] as int, p) by {
                        if in_span(*bvh, node as int, p) {
                            if in_span(*bvh, child1 as int, p) && dist1 is None {
                                lemma_reaches_box(ray, *self, *bvh, child1 as int, p, beat_bound(*self, best));
                            }
                            if in_span(*bvh, child2 as int, p) && dist2 is None {
                                lemma_reaches_box(ray, *self, *bvh, child2 as int, p, beat_bound(*self, best));
                            }
                        }
                    }
                }
                if dist1.is_none() {
                    let ghost before = stack@;
                    match stack.pop() {
                        None => break,
                        Some(x) => {
                            proof {
                                assert(stack@ == before.drop_last());
                                assert(forall|k: int| 0 <= k < stack@.len() ==> stack@[k] == before[k]);
                                assert forall|p: int| 0 <= p < n_tris && #[trigger] improves(*self, *bvh, p, beat_bound(*self, best))
                                    implies pending(*bvh, x as int, stack@, p) by {
                                    let j = choose|j: int| 0 <= j < before.len() && #[trigger] in_span(*bvh, before[j] as int, p);
                                    if j < before.len() - 1 {
                                        assert(in_span(*bvh, stack@[j] as int, p));
                                    }
                                }
                            }
                            node = x;
                        },
                    }
                } else {
                    let ghost before = stack@;
                    let ghost old_node = node;
                    node = child1;
                    if dist2.is_some() {
                        stack.push(child2);
                        proof {
                            assert(stack@.drop_last() =~= before);
                        }
                    }
                    proof {
                        assert forall|p: int| 0 <= p < n_tris && #[trigger] improves(*self, *bvh, p, beat_bound(*self, best))
                            implies pending(*bvh, node as int, stack@, p) by {
                            if !in_span(*bvh, node as int, p) {
                                if in_span(*bvh, child2 as int, p) && dist2 is Some {
                                    assert(stack@[stack@.len() - 1] == child2);
                                    assert(in_span(*bvh, stack@[stack@.len() - 1] as int, p));
                                } else {
                                    let j = choose|j: int| 0 <= j < before.len() && #[trigger] in_span(*bvh, before[j] as int, p);
                                    assert(stack@[j] == before[j]);
                                    assert(in_span(*bvh, stack@[j] as int, p));
                                }
                            }
                        }
                    }
                }
            }
        }
        proof {
            assert forall|k: int| 0 <= k < bvh.tris@.len() implies (match ray_tri(*self, #[trigger] bvh.tris@[k], k as usize) {
                Some(h2) => best matches Some(h) && h.distance <= h2.distance,
                None => true,
            }) by {
                assert(listed(bvh.triangle_indexs@, n_tris, k));
                let p = choose|p: int| 0 <= p < n_tris && #[trigger] bvh.triangle_indexs@[p] == k;
                assert(!improves(*self, *bvh, p, beat_bound(*self, best)));
            }
        }
        best
    }
}


impl RayCast {
    /// The point at `distance` (in units of `DIST_ONE` times the length of
    /// the direction) along the ray, kept exact: its coordinates times
    /// `DIST_ONE * scale`.
    pub fn get_point(&self, distance: i64) -> (r: (i128, i128, i128))
        requires
            self.wf(),
            0 <= distance <= MAX_DIST,
        ensures
            r.0 == self.origin.x * DIST_ONE + self.direction.x * distance,
            r.1 == self.origin.y * DIST_ONE + self.direction.y * distance,
            r.2 == self.origin.z * DIST_ONE + self.direction.z * distance,
    {
        proof {
            lemma_mul_bound(self.direction.x as int, distance as int, 0x100000000, MAX_DIST as int);
            lemma_mul_bound(self.direction.y as int, distance as int, 0x100000000, MAX_DIST as int);
            lemma_mul_bound(self.direction.z as int, distance as int, 0x100000000, MAX_DIST as int);
        }
        let o = wide(&self.origin);
        let d = wide(&self.direction);
        let t = distance as i128;
        (o.0 * 65536 + d.0 * t, o.1 * 65536 + d.1 * t, o.2 * 65536 + d.2 * t)
    }
}

} // verus!
