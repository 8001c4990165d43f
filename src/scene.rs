//! The scene: a registry of built hierarchies, a table of instances placing
//! them in the world, and the top-level structure over the instances.
use vstd::prelude::*;
use crate::geom::Vec3;
use crate::tri::Tri;
use crate::bvh::{Bvh, MAX_TRIS, listed};
use crate::tlas::{Tlas, TlasNode, TlasNodeType, build_tlas, root_instances, range_set, leaves_below, node_ok, sub_instances, lemma_each_instance_once, MAX_INSTANCES};
use crate::transform::{Affine, world_aabb, corners_box, corner, point_of, dot, scale, sub3, lemma_adjugate_right};
use crate::aabb::Aabb;
use crate::ray::{point_in_box, in_reach, RayCast, Hit, is_hit_of, local_ray, tri_hit, ray_tri, bounded, improves, in_span, lemma_reaches_box, lemma_local_ray_facts, DIR_LIMIT, MAX_DIST, DIST_ONE};

verus! {

broadcast use vstd::multiset::group_multiset_axioms;

/// Errors reported to callers.
#[derive(Clone, Copy, Debug, PartialEq, Eq, Structural)]
pub enum BvhError {
    /// A mesh without triangles.
    EmptyMesh,
    /// A mesh whose primitives are not a triangle list.
    UnsupportedTopology,
    /// A ray whose direction is the zero vector.
    DegenerateDirection,
    /// A handle or instance index that names nothing.
    InvalidHandle,
    /// A mesh index that names no vertex, or a triangle list cut short.
    InvalidIndex,
    /// A coordinate, direction, length or transform beyond the limits of the
    /// exact arithmetic.
    OutOfRange,
    /// More triangles or instances than one structure holds.
    TooLarge,
}

/// A handle to a hierarchy in the registry of a `TlasCast`.
#[derive(Clone, Copy, Debug, PartialEq, Eq, Structural)]
pub struct MeshBvh {
    pub id: usize,
}

/// A placement of a hierarchy in the world, on behalf of `owner_id`.
#[derive(Clone, Copy, Debug, PartialEq, Eq, Structural)]
pub struct Instance {
    pub owner_id: u64,
    pub mesh: MeshBvh,
    pub transform: Affine,
}

/// The instances of the live slots, in slot order.
pub open spec fn live(s: Seq<Option<Instance>>) -> Seq<Instance>
    decreases s.len(),
{
    if s.len() == 0 {
        Seq::empty()
    } else {
        let p = live(s.drop_last());
        match s.last() {
            Some(i) => p.push(i),
            None => p,
        }
    }
}

/// The number of nodes under node `i` of a top-level structure.
pub open spec fn tlas_size(nodes: Seq<TlasNode>, i: int) -> int
    decreases (if i == 0 { nodes.len() as int } else { i }),
{
    if 0 <= i < nodes.len() {
        match nodes[i].node_type {
            TlasNodeType::Leaf(_) => 1,
            TlasNodeType::Branch { left, right } => {
                let bound = if i == 0 { nodes.len() as int } else { i };
                if 0 < left < bound && 0 < right < bound {
                    1 + tlas_size(nodes, left as int) + tlas_size(nodes, right as int)
                } else {
                    1
                }
            },
        }
    } else {
        1
    }
}

pub open spec fn tlas_stack_size(nodes: Seq<TlasNode>, s: Seq<usize>) -> int
    decreases s.len(),
{
    if s.len() == 0 {
        0
    } else {
        tlas_stack_size(nodes, s.drop_last()) + tlas_size(nodes, s.last() as int)
    }
}

proof fn lemma_tlas_size_pos(nodes: Seq<TlasNode>, i: int)
    ensures
        tlas_size(nodes, i) >= 1,
    decreases (if i == 0 { nodes.len() as int } else { i }),
{
    if 0 <= i < nodes.len() {
        match nodes[i].node_type {
            TlasNodeType::Leaf(_) => {},
            TlasNodeType::Branch { left, right } => {
                let bound = if i == 0 { nodes.len() as int } else { i };
                if 0 < left < bound && 0 < right < bound {
                    lemma_tlas_size_pos(nodes, left as int);
                    lemma_tlas_size_pos(nodes, right as int);
                }
            },
        }
    }
}

proof fn lemma_tlas_stack_nonneg(nodes: Seq<TlasNode>, s: Seq<usize>)
    ensures
        tlas_stack_size(nodes, s) >= 0,
    decreases s.len(),
{
    if s.len() > 0 {
        lemma_tlas_stack_nonneg(nodes, s.drop_last());
        lemma_tlas_size_pos(nodes, s.last() as int);
    }
}


/// One term of a row bound: `r p` against the corner value that a
/// coefficient's sign picks.
proof fn lemma_term_bound(r: int, p: int, lo: int, hi: int, k: int)
    by (nonlinear_arith)
    requires
        0 < k,
        k * lo <= p <= k * hi,
    ensures
        r * p <= k * (r * (if r >= 0 { hi } else { lo })),
        r * p >= k * (r * (if r >= 0 { lo } else { hi })),
{
}

/// One world coordinate of a point of the local ray that lies in the local
/// box stays within the box around the images of the box's corners.
proof fn lemma_world_coord(
    w: int, td: int, tn: int, t: int, o: int, d: int,
    r0: int, r1: int, r2: int, p0: int, p1: int, p2: int,
    lo0: int, hi0: int, lo1: int, hi1: int, lo2: int, hi2: int,
    wmin: int, wmax: int,
)
    requires
        0 < w,
        0 < td,
        (td * w) * lo0 <= p0 <= (td * w) * hi0,
        (td * w) * lo1 <= p1 <= (td * w) * hi1,
        (td * w) * lo2 <= p2 <= (td * w) * hi2,
        r0 * p0 + r1 * p1 + r2 * p2 + w * (td * t) == w * (td * o + tn * d),
        wmin <= r0 * (if r0 >= 0 { lo0 } else { hi0 }) + r1 * (if r1 >= 0 { lo1 } else { hi1 }) + r2 * (
            if r2 >= 0 { lo2 } else { hi2 }) + t,
        r0 * (if r0 >= 0 { hi0 } else { lo0 }) + r1 * (if r1 >= 0 { hi1 } else { lo1 }) + r2 * (if r2
            >= 0 { hi2 } else { lo2 }) + t <= wmax,
    ensures
        td * wmin <= td * o + tn * d <= td * wmax,
{
    assert(0 < td * w) by (nonlinear_arith)
        requires 0 < td, 0 < w;
    let k = td * w;
    lemma_term_bound(r0, p0, lo0, hi0, k);
    lemma_term_bound(r1, p1, lo1, hi1, k);
    lemma_term_bound(r2, p2, lo2, hi2, k);
    let chi = r0 * (if r0 >= 0 { hi0 } else { lo0 }) + r1 * (if r1 >= 0 { hi1 } else { lo1 }) + r2 * (if r2 >= 0 { hi2 } else { lo2 });
    let clo = r0 * (if r0 >= 0 { lo0 } else { hi0 }) + r1 * (if r1 >= 0 { lo1 } else { hi1 }) + r2 * (if r2 >= 0 { lo2 } else { hi2 });
    let q = td * o + tn * d;
    assert(w * q <= k * (chi + t)) by {
        broadcast use vstd::arithmetic::mul::group_mul_is_commutative_and_distributive;
        broadcast use vstd::arithmetic::mul::lemma_mul_is_associative;
    }
    assert(k * (clo + t) <= w * q) by {
        broadcast use vstd::arithmetic::mul::group_mul_is_commutative_and_distributive;
        broadcast use vstd::arithmetic::mul::lemma_mul_is_associative;
    }
    vstd::arithmetic::mul::lemma_mul_inequality(chi + t, wmax, k);
    vstd::arithmetic::mul::lemma_mul_inequality(wmin, clo + t, k);
    assert(q * w <= (td * wmax) * w) by {
        broadcast use vstd::arithmetic::mul::group_mul_is_commutative_and_distributive;
        broadcast use vstd::arithmetic::mul::lemma_mul_is_associative;
    }
    assert((td * wmin) * w <= q * w) by {
        broadcast use vstd::arithmetic::mul::group_mul_is_commutative_and_distributive;
        broadcast use vstd::arithmetic::mul::lemma_mul_is_associative;
    }
    vstd::arithmetic::mul::lemma_mul_inequality_converse(q, td * wmax, w);
    vstd::arithmetic::mul::lemma_mul_inequality_converse(td * wmin, q, w);
}

/// Every corner image lies in the box around the first `j` corner images.
proof fn lemma_corners_contain(b: Aabb, m: Affine, j: int, k: int)
    requires
        0 <= k < j,
        corners_box(b, m, j) is Some,
    ensures
        point_of(m.apply(corner(b, k).t())) is Some,
        corners_box(b, m, j).unwrap().contains_point(point_of(m.apply(corner(b, k).t())).unwrap()),
    decreases j,
{
    if k < j - 1 {
        lemma_corners_contain(b, m, j - 1, k);
    }
}


/// The coordinate identity behind taking a local point back to world space.
proof fn lemma_row_identity(
    r0: int, r1: int, r2: int, a0: int, a1: int, a2: int, d0: int, d1: int, d2: int,
    p0: int, p1: int, p2: int, det: int, w: int, sg: int, td: int, tn: int, u: int, dj: int, tj: int, oj: int,
)
    requires
        r0 * a0 + r1 * a1 + r2 * a2 == det * u,
        r0 * d0 + r1 * d1 + r2 * d2 == det * dj,
        sg * det == w,
        p0 == td * (sg * a0) + tn * (sg * d0),
        p1 == td * (sg * a1) + tn * (sg * d1),
        p2 == td * (sg * a2) + tn * (sg * d2),
        u == oj - tj,
    ensures
        r0 * p0 + r1 * p1 + r2 * p2 + w * (td * tj) == w * (td * oj + tn * dj),
{
    let sa = r0 * a0 + r1 * a1 + r2 * a2;
    let sd = r0 * d0 + r1 * d1 + r2 * d2;
    assert(r0 * p0 + r1 * p1 + r2 * p2 == (td * sg) * sa + (tn * sg) * sd) by {
        broadcast use vstd::arithmetic::mul::group_mul_is_commutative_and_distributive;
        broadcast use vstd::arithmetic::mul::lemma_mul_is_associative;
    }
    assert((td * sg) * (det * u) + (tn * sg) * (det * dj) == td * (w * u) + tn * (w * dj)) by {
        broadcast use vstd::arithmetic::mul::group_mul_is_commutative_and_distributive;
        broadcast use vstd::arithmetic::mul::lemma_mul_is_associative;
    }
    assert(td * (w * u) + tn * (w * dj) + w * (td * tj) == w * (td * oj + tn * dj)) by {
        broadcast use vstd::arithmetic::mul::group_mul_is_commutative_and_distributive;
        broadcast use vstd::arithmetic::mul::lemma_mul_is_associative;
    }
}

/// The corner of `b` whose image bounds coordinate `j` of the images from
/// above, picked by the signs of row `r`.
pub open spec fn upper_corner(r: Vec3) -> int {
    (if r.x >= 0 { 1int } else { 0int }) + (if r.y >= 0 { 2int } else { 0int }) + (if r.z >= 0 { 4int } else { 0int })
}

/// One world coordinate, with the row of the map that gives it.
proof fn lemma_world_axis(ray: RayCast, lr: RayCast, m: Affine, b: Aabb, tn: int, td: int, j: int, r: Vec3, tj: int, oj: int, dj: int, wmin: int, wmax: int, sg: int)
    requires
        m.wf(),
        b.wf(),
        0 < td,
        0 < lr.scale,
        sg == 1 || sg == -1,
        sg * m.det() == lr.scale,
        lr.origin.t() == scale(sg, m.unapply(ray.origin.t())),
        lr.direction.t() == scale(sg, m.adjugate(ray.direction.t())),
        point_in_box(lr, b, tn, td),
        0 <= j < 3,
        j == 0 ==> r == m.row_x && tj == m.translation.x && oj == ray.origin.x && dj == ray.direction.x,
        j == 1 ==> r == m.row_y && tj == m.translation.y && oj == ray.origin.y && dj == ray.direction.y,
        j == 2 ==> r == m.row_z && tj == m.translation.z && oj == ray.origin.z && dj == ray.direction.z,
        wmin <= dot(r.t(), corner(b, 7 - upper_corner(r)).t()) + tj,
        dot(r.t(), corner(b, upper_corner(r)).t()) + tj <= wmax,
    ensures
        td * wmin <= td * oj + tn * dj <= td * wmax,
{
    let w = lr.scale as int;
    let u3 = sub3(ray.origin.t(), m.translation.t());
    let a = m.adjugate(u3);
    let dd = m.adjugate(ray.direction.t());
    lemma_adjugate_right(m, u3);
    lemma_adjugate_right(m, ray.direction.t());
    let p0 = td * lr.origin.x + tn * lr.direction.x;
    let p1 = td * lr.origin.y + tn * lr.direction.y;
    let p2 = td * lr.origin.z + tn * lr.direction.z;
    let uj = if j == 0 { u3.0 } else if j == 1 { u3.1 } else { u3.2 };
    lemma_row_identity(r.x as int, r.y as int, r.z as int, a.0, a.1, a.2, dd.0, dd.1, dd.2, p0, p1, p2, m.det(), w, sg, td, tn, uj, dj, tj, oj);
    assert((td * w) * b.min.x <= p0 <= (td * w) * b.max.x) by {
        broadcast use vstd::arithmetic::mul::lemma_mul_is_associative;
    }
    assert((td * w) * b.min.y <= p1 <= (td * w) * b.max.y) by {
        broadcast use vstd::arithmetic::mul::lemma_mul_is_associative;
    }
    assert((td * w) * b.min.z <= p2 <= (td * w) * b.max.z) by {
        broadcast use vstd::arithmetic::mul::lemma_mul_is_associative;
    }
    lemma_world_coord(w, td, tn, tj, oj, dj, r.x as int, r.y as int, r.z as int, p0, p1, p2,
        b.min.x as int, b.max.x as int, b.min.y as int, b.max.y as int, b.min.z as int, b.max.z as int, wmin, wmax);
}

/// A point of an instance's local ray that lies in the hierarchy's local box
/// `b` lies, at the same parameter, in the instance's world box: the box
/// around the images of the corners of `b`.
pub proof fn lemma_local_to_world(ray: RayCast, lr: RayCast, m: Affine, b: Aabb, tn: int, td: int)
    requires
        m.wf(),
        b.wf(),
        ray.scale == 1,
        0 < td,
        lr.scale == if m.det() < 0 { -m.det() } else { m.det() },
        m.det() > 0 ==> lr.origin.t() == m.unapply(ray.origin.t()) && lr.direction.t() == m.adjugate(ray.direction.t()),
        m.det() < 0 ==> lr.origin.t() == scale(-1, m.unapply(ray.origin.t())) && lr.direction.t() == scale(-1, m.adjugate(ray.direction.t())),
        corners_box(b, m, 8) is Some,
        point_in_box(lr, b, tn, td),
    ensures
        point_in_box(ray, corners_box(b, m, 8).unwrap(), tn, td),
{
    let wb = corners_box(b, m, 8).unwrap();
    let sg: int = if m.det() < 0 { -1 } else { 1 };
    assert(lr.origin.t() == scale(sg, m.unapply(ray.origin.t())));
    assert(lr.direction.t() == scale(sg, m.adjugate(ray.direction.t())));
    lemma_corners_contain(b, m, 8, upper_corner(m.row_x));
    lemma_corners_contain(b, m, 8, 7 - upper_corner(m.row_x));
    lemma_corners_contain(b, m, 8, upper_corner(m.row_y));
    lemma_corners_contain(b, m, 8, 7 - upper_corner(m.row_y));
    lemma_corners_contain(b, m, 8, upper_corner(m.row_z));
    lemma_corners_contain(b, m, 8, 7 - upper_corner(m.row_z));
    lemma_world_axis(ray, lr, m, b, tn, td, 0, m.row_x, m.translation.x as int, ray.origin.x as int, ray.direction.x as int, wb.min.x as int, wb.max.x as int, sg);
    lemma_world_axis(ray, lr, m, b, tn, td, 1, m.row_y, m.translation.y as int, ray.origin.y as int, ray.direction.y as int, wb.min.y as int, wb.max.y as int, sg);
    lemma_world_axis(ray, lr, m, b, tn, td, 2, m.row_z, m.translation.z as int, ray.origin.z as int, ray.direction.z as int, wb.min.z as int, wb.max.z as int, sg);
    assert(1 * wb.min.x == wb.min.x && 1 * wb.max.x == wb.max.x);
    assert(1 * wb.min.y == wb.min.y && 1 * wb.max.y == wb.max.y);
    assert(1 * wb.min.z == wb.min.z && 1 * wb.max.z == wb.max.z);
}


/// Instance `k` lies under node `i` of the structure.
pub open spec fn under(nodes: Seq<TlasNode>, i: int, k: int) -> bool {
    if i == 0 {
        root_instances(nodes).count(k) > 0
    } else {
        sub_instances(nodes, i).count(k) > 0
    }
}

/// Instance `k` lies under `node` or under a node on `stack`.
pub open spec fn pending_inst(nodes: Seq<TlasNode>, node: int, stack: Seq<usize>, k: int) -> bool {
    under(nodes, node, k) || exists|j: int| 0 <= j < stack.len() && #[trigger] under(nodes, stack[j] as int, k)
}

/// The hit of `ray` with `tri`, as triangle `t`, is nearer than `bound`.
pub open spec fn tri_beats(ray: RayCast, tri: Tri, t: int, bound: int) -> bool {
    ray_tri(ray, tri, t as usize) matches Some(h) && h.distance < bound
}

/// Instance `k` of the structure has a triangle whose hit with `ray`, taken
/// to the instance's local space, is nearer than `bound`.
pub open spec fn inst_improves(scene: TlasCast, ray: RayCast, k: int, bound: int) -> bool {
    let inst = scene.tlas_instances@[k];
    let bvh = scene.bvhs@[inst.mesh.id as int];
    exists|t: int| 0 <= t < bvh.tris@.len() && #[trigger] tri_beats(local_ray(ray, inst.transform), bvh.tris@[t], t, bound)
}

/// What a hit must beat to replace `best`: its distance, or one past the
/// ray's length when there is none yet.
pub open spec fn best_bound(ray: RayCast, best: Option<(u64, Hit)>) -> int {
    match best {
        Some((_, h)) => h.distance as int,
        None => ray.max + 1,
    }
}

/// The box of a node holds the world box of every instance under it.
proof fn lemma_under_box(scene: TlasCast, i: int, k: int)
    requires
        scene.wf(),
        0 <= i < scene.tlas.tlas_nodes@.len(),
        under(scene.tlas.tlas_nodes@, i, k),
    ensures
        0 <= k < scene.tlas_instances@.len(),
        scene.tlas.tlas_nodes@[i].aabb.contains_box(scene.world_box(scene.tlas_instances@[k])),
    decreases (if i == 0 { scene.tlas.tlas_nodes@.len() as int } else { i }),
{
    let nodes = scene.tlas.tlas_nodes@;
    assert(node_ok(nodes, i));
    match nodes[i].node_type {
        TlasNodeType::Leaf(k2) => {
            assert(k == k2 as int);
        },
        TlasNodeType::Branch { left, right } => {
            if sub_instances(nodes, left as int).count(k) > 0 {
                lemma_under_box(scene, left as int, k);
            } else {
                lemma_under_box(scene, right as int, k);
            }
        },
    }
}

/// A point in a box lies in every box that holds it.
proof fn lemma_larger_box(ray: RayCast, small: Aabb, big: Aabb, tn: int, td: int)
    requires
        ray.scale == 1,
        0 < td,
        point_in_box(ray, small, tn, td),
        big.contains_box(small),
    ensures
        point_in_box(ray, big, tn, td),
{
    broadcast use vstd::arithmetic::mul::group_mul_basics;
    vstd::arithmetic::mul::lemma_mul_inequality(big.min.x as int, small.min.x as int, td);
    vstd::arithmetic::mul::lemma_mul_inequality(big.min.y as int, small.min.y as int, td);
    vstd::arithmetic::mul::lemma_mul_inequality(big.min.z as int, small.min.z as int, td);
    vstd::arithmetic::mul::lemma_mul_inequality(small.max.x as int, big.max.x as int, td);
    vstd::arithmetic::mul::lemma_mul_inequality(small.max.y as int, big.max.y as int, td);
    vstd::arithmetic::mul::lemma_mul_inequality(small.max.z as int, big.max.z as int, td);
    vstd::arithmetic::mul::lemma_mul_is_commutative(big.min.x as int, td);
    vstd::arithmetic::mul::lemma_mul_is_commutative(big.min.y as int, td);
    vstd::arithmetic::mul::lemma_mul_is_commutative(big.min.z as int, td);
    vstd::arithmetic::mul::lemma_mul_is_commutative(small.min.x as int, td);
    vstd::arithmetic::mul::lemma_mul_is_commutative(small.min.y as int, td);
    vstd::arithmetic::mul::lemma_mul_is_commutative(small.min.z as int, td);
    vstd::arithmetic::mul::lemma_mul_is_commutative(big.max.x as int, td);
    vstd::arithmetic::mul::lemma_mul_is_commutative(big.max.y as int, td);
    vstd::arithmetic::mul::lemma_mul_is_commutative(big.max.z as int, td);
    vstd::arithmetic::mul::lemma_mul_is_commutative(small.max.x as int, td);
    vstd::arithmetic::mul::lemma_mul_is_commutative(small.max.y as int, td);
    vstd::arithmetic::mul::lemma_mul_is_commutative(small.max.z as int, td);
}

/// An instance under node `c` with a hit nearer than `bound` puts a point of
/// the (shortened) world ray, within its rounded length, into the box of `c`.
proof fn lemma_inst_reaches(scene: TlasCast, ray: RayCast, cur: RayCast, k: int, c: int, bound: int)
    requires
        scene.wf(),
        world_ray_ok(ray),
        world_ray_ok(cur),
        cur == (RayCast { max: cur.max, ..ray }),
        0 <= k < scene.tlas_instances@.len(),
        inst_improves(scene, ray, k, bound),
        bound <= cur.max + 1,
        0 <= c < scene.tlas.tlas_nodes@.len(),
        under(scene.tlas.tlas_nodes@, c, k),
    ensures
        exists|tn: int, td: int| #[trigger] in_reach(cur, scene.tlas.tlas_nodes@[c].aabb, tn, td),
{
    let inst = scene.tlas_instances@[k];
    let m = inst.transform;
    let bvh = scene.bvhs@[inst.mesh.id as int];
    assert(scene.instance_ok(inst));
    assert(bvh.wf());
    let t = choose|t: int| 0 <= t < bvh.tris@.len() && #[trigger] tri_beats(local_ray(ray, m), bvh.tris@[t], t, bound);
    lemma_local_ray_facts(ray, m);
    lemma_local_ray_facts(cur, m);
    let lr = local_ray(ray, m);
    let lc = local_ray(cur, m);
    assert(lc == (RayCast { max: lc.max, ..lr }));
    assert(listed(bvh.triangle_indexs@, bvh.tris@.len() as int, t));
    let p = choose|p: int| 0 <= p < bvh.tris@.len() && #[trigger] bvh.triangle_indexs@[p] == t;
    assert(improves(lr, bvh, p, bound));
    assert(bvh.node_wf(0));
    assert(in_span(bvh, 0, p));
    lemma_reaches_box(lc, lr, bvh, 0, p, bound);
    let b = bvh.nodes@[0].aabb;
    let (tn, td) = choose|tn: int, td: int| #[trigger] in_reach(lc, b, tn, td);
    crate::scene::lemma_local_to_world(cur, lc, m, b, tn, td);
    lemma_under_box(scene, c, k);
    lemma_larger_box(cur, scene.world_box(inst), scene.tlas.tlas_nodes@[c].aabb, tn, td);
    assert(in_reach(cur, scene.tlas.tlas_nodes@[c].aabb, tn, td));
}

/// A world-space ray within the limits of the exact arithmetic.
pub open spec fn world_ray_ok(ray: RayCast) -> bool {
    &&& ray.scale == 1
    &&& ray.origin.in_bounds()
    &&& bounded(ray.direction.t(), DIR_LIMIT as int)
    &&& 0 <= ray.max <= MAX_DIST
}

/// The scene: `bvhs` is the registry (a `MeshBvh` indexes it), `instances`
/// the instance table (removed slots hold none), and `tlas` the top-level
/// structure over `tlas_instances`, the live instances when it was last built.
pub struct TlasCast {
    pub tlas: Tlas,
    pub bvhs: Vec<Bvh>,
    pub instances: Vec<Option<Instance>>,
    pub tlas_instances: Vec<Instance>,
}

impl TlasCast {
    /// `inst` names a registered hierarchy, and its placement is valid and
    /// keeps the hierarchy's world box within the coordinate limit.
    pub open spec fn instance_ok(self, inst: Instance) -> bool {
        &&& inst.mesh.id < self.bvhs@.len()
        &&& inst.transform.wf()
        &&& corners_box(self.bvhs@[inst.mesh.id as int].nodes@[0].aabb, inst.transform, 8) is Some
    }

    /// The world box of `inst`: the box around the images of the corners of
    /// its hierarchy's root box.
    pub open spec fn world_box(self, inst: Instance) -> Aabb {
        corners_box(self.bvhs@[inst.mesh.id as int].nodes@[0].aabb, inst.transform, 8).unwrap()
    }

    pub open spec fn wf(self) -> bool {
        &&& forall|j: int|
            0 <= j < self.tlas.tlas_nodes@.len() ==> (#[trigger] self.tlas.tlas_nodes@[j].node_type matches TlasNodeType::Leaf(k)
                ==> self.tlas.tlas_nodes@[j].aabb == self.world_box(self.tlas_instances@[k as int]))
        &&& forall|b: int| 0 <= b < self.bvhs@.len() ==> (#[trigger] self.bvhs@[b]).wf()
        &&& self.instances@.len() <= MAX_INSTANCES
        &&& forall|i: int|
            0 <= i < self.instances@.len() ==> (#[trigger] self.instances@[i] matches Some(inst)
                ==> self.instance_ok(inst))
        &&& forall|k: int|
            0 <= k < self.tlas_instances@.len() ==> self.instance_ok(
                #[trigger] self.tlas_instances@[k],
            )
        &&& self.tlas.wf()
        &&& leaves_below(self.tlas.tlas_nodes@, self.tlas_instances@.len() as int)
        &&& root_instances(self.tlas.tlas_nodes@) == range_set(
            self.tlas_instances@.len() as int,
        )
    }

    /// An empty scene.
    pub fn new() -> (r: TlasCast)
        ensures
            r.wf(),
            r.bvhs@.len() == 0,
            r.instances@.len() == 0,
            r.tlas_instances@.len() == 0,
            r.tlas.tlas_nodes@.len() == 0,
    {
        TlasCast {
            tlas: Tlas { tlas_nodes: Vec::new() },
            bvhs: Vec::new(),
            instances: Vec::new(),
            tlas_instances: Vec::new(),
        }
    }
}

impl TlasCast {
    /// Whether `inst` may be placed: `instance_ok`, tested.
    fn check_instance(&self, inst: &Instance) -> (r: Result<(), BvhError>)
        requires
            self.wf(),
        ensures
            r is Ok <==> self.instance_ok(*inst),
            inst.mesh.id >= self.bvhs@.len() ==> r == Err::<(), BvhError>(BvhError::InvalidHandle),
            inst.mesh.id < self.bvhs@.len() && !self.instance_ok(*inst) ==> r == Err::<(), BvhError>(BvhError::OutOfRange),
    {
        if inst.mesh.id >= self.bvhs.len() {
            return Err(BvhError::InvalidHandle);
        }
        if !inst.transform.is_valid() {
            return Err(BvhError::OutOfRange);
        }
        let bvh = &self.bvhs[inst.mesh.id];
        assert(bvh.wf());
        assert(bvh.node_wf(0));
        match world_aabb(&bvh.nodes[0].aabb, &inst.transform) {
            Some(_) => Ok(()),
            None => Err(BvhError::OutOfRange),
        }
    }

    /// Builds a hierarchy over `triangles` and registers it. Fails with
    /// `EmptyMesh` on no triangles, `TooLarge` on more than `MAX_TRIS`, and
    /// `OutOfRange` when a triangle is not valid; otherwise gives the handle
    /// of the new hierarchy.
    pub fn build_bvh(&mut self, triangles: Vec<Tri>) -> (r: Result<MeshBvh, BvhError>)
        requires
            old(self).wf(),
        ensures
            final(self).wf(),
            final(self).instances@ == old(self).instances@,
            final(self).tlas_instances@ == old(self).tlas_instances@,
            final(self).tlas.tlas_nodes@ == old(self).tlas.tlas_nodes@,
            triangles@.len() == 0 ==> r == Err::<MeshBvh, BvhError>(BvhError::EmptyMesh),
            triangles@.len() > MAX_TRIS ==> r == Err::<MeshBvh, BvhError>(BvhError::TooLarge),
            (0 < triangles@.len() <= MAX_TRIS && (exists|t: int| 0 <= t < triangles@.len() && !(#[trigger] triangles@[t]).wf()))
                ==> r == Err::<MeshBvh, BvhError>(BvhError::OutOfRange),
            r is Err ==> final(self).bvhs@ == old(self).bvhs@,
            (0 < triangles@.len() <= MAX_TRIS && (forall|t: int| 0 <= t < triangles@.len() ==> (#[trigger] triangles@[t]).wf()))
                ==> r is Ok,
            r is Ok ==> {
                &&& 0 < triangles@.len() <= MAX_TRIS
                &&& forall|t: int| 0 <= t < triangles@.len() ==> (#[trigger] triangles@[t]).wf()
            },
            r matches Ok(h) ==> {
                &&& h.id == old(self).bvhs@.len()
                &&& final(self).bvhs@ == old(self).bvhs@.push(final(self).bvhs@[h.id as int])
                &&& final(self).bvhs@[h.id as int].tris@ == triangles@
            },
    {
        let count = triangles.len();
        if count == 0 {
            return Err(BvhError::EmptyMesh);
        }
        if count > MAX_TRIS {
            return Err(BvhError::TooLarge);
        }
        let mut i: usize = 0;
        while i < count
            invariant
                self.wf(),
                *self == *old(self),
                0 < count <= MAX_TRIS,
                count == triangles@.len(),
                i <= count,
                forall|t: int| 0 <= t < i ==> (#[trigger] triangles@[t]).wf(),
            decreases count - i,
        {
            if !triangles[i].is_valid() {
                return Err(BvhError::OutOfRange);
            }
            i = i + 1;
        }
        let id = self.bvhs.len();
        let bvh = Bvh::new(triangles);
        let ghost before = *self;
        self.bvhs.push(bvh);
        proof {
            assert forall|b: int| 0 <= b < self.bvhs@.len() implies (#[trigger] self.bvhs@[b]).wf() by {
                if b < id {
                    assert(self.bvhs@[b] == before.bvhs@[b]);
                }
            }
            assert forall|j: int| 0 <= j < self.instances@.len() implies (#[trigger] self.instances@[j] matches Some(inst) ==> self.instance_ok(inst)) by {
                if let Some(inst) = self.instances@[j] {
                    assert(before.instance_ok(inst));
                    assert(self.bvhs@[inst.mesh.id as int] == before.bvhs@[inst.mesh.id as int]);
                }
            }
            assert forall|k: int| 0 <= k < self.tlas_instances@.len() implies self.instance_ok(#[trigger] self.tlas_instances@[k]) by {
                let inst = self.tlas_instances@[k];
                assert(before.instance_ok(inst));
                assert(self.bvhs@[inst.mesh.id as int] == before.bvhs@[inst.mesh.id as int]);
            }
            assert forall|j: int| 0 <= j < self.tlas.tlas_nodes@.len() implies (#[trigger] self.tlas.tlas_nodes@[j].node_type matches TlasNodeType::Leaf(k)
                ==> self.tlas.tlas_nodes@[j].aabb == self.world_box(self.tlas_instances@[k as int])) by {
                if let TlasNodeType::Leaf(k) = self.tlas.tlas_nodes@[j].node_type {
                    assert(leaves_below(self.tlas.tlas_nodes@, self.tlas_instances@.len() as int));
                    let inst = self.tlas_instances@[k as int];
                    assert(before.instance_ok(inst));
                    assert(self.bvhs@[inst.mesh.id as int] == before.bvhs@[inst.mesh.id as int]);
                }
            }
        }
        Ok(MeshBvh { id })
    }

    /// Places hierarchy `mesh` in the world by `transform` for `owner_id`.
    /// Fails with `InvalidHandle` on an unknown handle, `OutOfRange` when the
    /// placement is not valid, and `TooLarge` when the table is full;
    /// otherwise gives the index of the new instance.
    pub fn add_instance(&mut self, owner_id: u64, mesh: MeshBvh, transform: Affine) -> (r: Result<usize, BvhError>)
        requires
            old(self).wf(),
        ensures
            final(self).wf(),
            final(self).bvhs@ == old(self).bvhs@,
            final(self).tlas_instances@ == old(self).tlas_instances@,
            final(self).tlas.tlas_nodes@ == old(self).tlas.tlas_nodes@,
            mesh.id >= old(self).bvhs@.len() ==> r == Err::<usize, BvhError>(BvhError::InvalidHandle),
            mesh.id < old(self).bvhs@.len() && !old(self).instance_ok(Instance { owner_id, mesh, transform })
                ==> r == Err::<usize, BvhError>(BvhError::OutOfRange),
            old(self).instance_ok(Instance { owner_id, mesh, transform }) && old(self).instances@.len() >= MAX_INSTANCES
                ==> r == Err::<usize, BvhError>(BvhError::TooLarge),
            r is Err ==> final(self).instances@ == old(self).instances@,
            old(self).instance_ok(Instance { owner_id, mesh, transform }) && old(self).instances@.len() < MAX_INSTANCES
                ==> r == Ok::<usize, BvhError>(old(self).instances@.len() as usize)
                && final(self).instances@ == old(self).instances@.push(Some(Instance { owner_id, mesh, transform })),
    {
        let inst = Instance { owner_id, mesh, transform };
        match self.check_instance(&inst) {
            Err(e) => return Err(e),
            Ok(()) => {},
        }
        if self.instances.len() >= MAX_INSTANCES {
            return Err(BvhError::TooLarge);
        }
        let index = self.instances.len();
        self.instances.push(Some(inst));
        Ok(index)
    }

    /// Moves instance `index` to `transform`. Fails with `InvalidHandle` when
    /// there is no such instance and `OutOfRange` when the placement is not
    /// valid.
    pub fn update_instance(&mut self, index: usize, transform: Affine) -> (r: Result<(), BvhError>)
        requires
            old(self).wf(),
        ensures
            final(self).wf(),
            final(self).bvhs@ == old(self).bvhs@,
            final(self).tlas_instances@ == old(self).tlas_instances@,
            final(self).tlas.tlas_nodes@ == old(self).tlas.tlas_nodes@,
            index >= old(self).instances@.len() || old(self).instances@[index as int] is None
                ==> r == Err::<(), BvhError>(BvhError::InvalidHandle),
            r is Err ==> final(self).instances@ == old(self).instances@,
            index < old(self).instances@.len() ==> match old(self).instances@[index as int] {
                None => true,
                Some(inst) => {
                    let moved = Instance { transform, ..inst };
                    &&& !old(self).instance_ok(moved) ==> r == Err::<(), BvhError>(BvhError::OutOfRange)
                    &&& old(self).instance_ok(moved) ==> r is Ok
                        && final(self).instances@ == old(self).instances@.update(index as int, Some(moved))
                },
            },
    {
        if index >= self.instances.len() {
            return Err(BvhError::InvalidHandle);
        }
        match self.instances[index] {
            None => Err(BvhError::InvalidHandle),
            Some(inst) => {
                let moved = Instance { transform, ..inst };
                assert(self.instance_ok(inst));
                match self.check_instance(&moved) {
                    Err(e) => return Err(e),
                    Ok(()) => {},
                }
                self.instances.set(index, Some(moved));
                Ok(())
            },
        }
    }

    /// Removes instance `index`. Fails with `InvalidHandle` when there is no
    /// such instance.
    pub fn remove_instance(&mut self, index: usize) -> (r: Result<(), BvhError>)
        requires
            old(self).wf(),
        ensures
            final(self).wf(),
            final(self).bvhs@ == old(self).bvhs@,
            final(self).tlas_instances@ == old(self).tlas_instances@,
            final(self).tlas.tlas_nodes@ == old(self).tlas.tlas_nodes@,
            index >= old(self).instances@.len() || old(self).instances@[index as int] is None
                ==> r == Err::<(), BvhError>(BvhError::InvalidHandle) && final(self).instances@ == old(self).instances@,
            index < old(self).instances@.len() && old(self).instances@[index as int] is Some
                ==> r is Ok && final(self).instances@ == old(self).instances@.update(index as int, None),
    {
        if index >= self.instances.len() {
            return Err(BvhError::InvalidHandle);
        }
        if self.instances[index].is_none() {
            return Err(BvhError::InvalidHandle);
        }
        self.instances.set(index, None);
        Ok(())
    }

    /// Rebuilds the top-level structure over the live instances, in slot
    /// order: leaf `k` of the new structure stands for `tlas_instances[k]`.
    pub fn rebuild_tlas(&mut self)
        requires
            old(self).wf(),
        ensures
            final(self).wf(),
            final(self).bvhs@ == old(self).bvhs@,
            final(self).instances@ == old(self).instances@,
            final(self).tlas_instances@ == live(old(self).instances@),
            root_instances(final(self).tlas.tlas_nodes@) == range_set(live(old(self).instances@).len() as int),
    {
        let mut entries: Vec<Instance> = Vec::new();
        let mut boxes: Vec<crate::aabb::Aabb> = Vec::new();
        let mut k: usize = 0;
        let n = self.instances.len();
        while k < n
            invariant
                self.wf(),
                n == self.instances@.len(),
                k <= n,
                entries@ == live(self.instances@.subrange(0, k as int)),
                boxes@.len() == entries@.len(),
                entries@.len() <= k,
                forall|j: int| 0 <= j < boxes@.len() ==> (#[trigger] boxes@[j]).valid(),
                forall|j: int| 0 <= j < entries@.len() ==> self.instance_ok(#[trigger] entries@[j]),
                forall|j: int| 0 <= j < entries@.len() ==> #[trigger] boxes@[j] == self.world_box(entries@[j]),
            decreases n - k,
        {
            let ghost prev = self.instances@.subrange(0, k as int);
            assert(self.instances@.subrange(0, k + 1).drop_last() =~= prev);
            match self.instances[k] {
                None => {},
                Some(inst) => {
                    assert(self.instance_ok(inst));
                    let bvh = &self.bvhs[inst.mesh.id];
                    assert(bvh.wf());
                    assert(bvh.node_wf(0));
                    let b = world_aabb(&bvh.nodes[0].aabb, &inst.transform).unwrap();
                    entries.push(inst);
                    boxes.push(b);
                },
            }
            k = k + 1;
        }
        assert(self.instances@.subrange(0, n as int) =~= self.instances@);
        let tlas = build_tlas(&boxes);
        self.tlas = tlas;
        self.tlas_instances = entries;
    }
}

/// `owner` and `hit` come from a hit of `ray` with instance `k` of the
/// structure: the hit of the ray, taken to the instance's local space, with
/// a triangle of its hierarchy.
pub open spec fn instance_hit(scene: TlasCast, ray: RayCast, k: int, owner: u64, hit: Hit) -> bool {
    let inst = scene.tlas_instances@[k];
    &&& 0 <= k < scene.tlas_instances@.len()
    &&& owner == inst.owner_id
    &&& is_hit_of(local_ray(ray, inst.transform), scene.bvhs@[inst.mesh.id as int], hit)
}

impl TlasCast {
    /// The nearest hit of `ray` with the instances of the top-level
    /// structure, with the owner of the instance hit: a descent like that of a
    /// hierarchy, that at each leaf takes the ray into the instance's local
    /// space, searches its hierarchy, and shortens the ray to each nearer hit.
    /// None when no triangle of any instance is hit within the ray's length.
    #[verifier::rlimit(80)]
    pub fn intersect_tlas(&self, ray: &RayCast) -> (r: Option<(u64, Hit)>)
        requires
            self.wf(),
            world_ray_ok(*ray),
        ensures
            self.tlas.tlas_nodes@.len() == 0 ==> r is None,
            r matches Some((owner, hit)) ==> exists|k: int| instance_hit(*self, *ray, k, owner, hit),
            forall|k: int, t: int|
                0 <= k < self.tlas_instances@.len() && 0 <= t < self.bvhs@[self.tlas_instances@[k].mesh.id as int].tris@.len()
                    ==> !#[trigger] tri_beats(
                    local_ray(*ray, self.tlas_instances@[k].transform),
                    self.bvhs@[self.tlas_instances@[k].mesh.id as int].tris@[t],
                    t,
                    best_bound(*ray, r),
                ),
    {
        let nodes = &self.tlas.tlas_nodes;
        let ghost count = self.tlas_instances@.len() as int;
        if nodes.len() == 0 {
            proof {
                if count > 0 {
                    lemma_each_instance_once(count, 0);
                }
            }
            return None;
        }
        let mut node: usize = 0;
        let mut stack: Vec<usize> = Vec::new();
        let mut best: Option<(u64, Hit)> = None;
        let mut cur = *ray;
        let ghost mut best_k: int = 0;
        proof {
            assert forall|k: int| 0 <= k < count && #[trigger] inst_improves(*self, *ray, k, best_bound(*ray, best))
                implies pending_inst(nodes@, 0, stack@, k) by {
                lemma_each_instance_once(count, k);
            }
        }
        loop
            invariant
                self.wf(),
                world_ray_ok(*ray),
                nodes == &self.tlas.tlas_nodes,
                count == self.tlas_instances@.len(),
                world_ray_ok(cur),
                cur == (RayCast { max: cur.max, ..*ray }),
                cur.max <= ray.max,
                best is None ==> cur.max == ray.max,
                node < nodes@.len(),
                forall|k: int| 0 <= k < stack@.len() ==> #[trigger] stack@[k] < nodes@.len(),
                best matches Some((o, h)) ==> h.distance == cur.max && instance_hit(*self, *ray, best_k, o, h),
                forall|k: int|
                    0 <= k < count && #[trigger] inst_improves(*self, *ray, k, best_bound(*ray, best))
                        ==> pending_inst(nodes@, node as int, stack@, k),
            ensures
                best matches Some((o, h)) ==> instance_hit(*self, *ray, best_k, o, h),
                forall|k: int| 0 <= k < count ==> !#[trigger] inst_improves(*self, *ray, k, best_bound(*ray, best)),
            decreases tlas_size(nodes@, node as int) + tlas_stack_size(nodes@, stack@),
        {
            let n = nodes[node];
            assert(node_ok(nodes@, node as int));
            proof {
                lemma_tlas_stack_nonneg(nodes@, stack@);
                lemma_tlas_size_pos(nodes@, node as int);
            }
            let ghost bound0 = best_bound(*ray, best);
            match n.node_type {
                TlasNodeType::Leaf(k) => {
                    assert(nodes@[node as int].node_type matches TlasNodeType::Leaf(kk) ==> kk < self.tlas_instances@.len());
                    let inst = self.tlas_instances[k];
                    assert(self.instance_ok(inst));
                    let local = cur.to_local(&inst.transform);
                    let bvh = &self.bvhs[inst.mesh.id];
                    assert(bvh.wf());
                    let found = local.intersect_bvh(bvh);
                    if let Some(hit) = found {
                        let nearer = match best {
                            None => true,
                            Some((_, b)) => hit.distance < b.distance,
                        };
                        if nearer {
                            proof {
                                let lr = local_ray(*ray, inst.transform);
                                assert(local == (RayCast { max: local.max, ..lr }));
                                assert(tri_hit(local, bvh.tris@[hit.tri_index as int]) == tri_hit(lr, bvh.tris@[hit.tri_index as int]));
                                assert(instance_hit(*self, *ray, k as int, inst.owner_id, hit));
                                best_k = k as int;
                            }
                            best = Some((inst.owner_id, hit));
                            cur.max = hit.distance as i64;
                        }
                    }
                    proof {
                        let lr = local_ray(*ray, inst.transform);
                        lemma_local_ray_facts(*ray, inst.transform);
                        assert(local == (RayCast { max: local.max, ..lr }));
                        assert forall|t: int| 0 <= t < bvh.tris@.len() implies !#[trigger] tri_beats(lr, bvh.tris@[t], t, best_bound(*ray, best)) by {
                            let tri = bvh.tris@[t];
                            if tri_beats(lr, tri, t, best_bound(*ray, best)) {
                                assert(tri_hit(local, tri) == tri_hit(lr, tri));
                                assert(ray_tri(local, tri, t as usize) == ray_tri(lr, tri, t as usize));
                            }
                        }
                        assert(!inst_improves(*self, *ray, k as int, best_bound(*ray, best)));
                        assert forall|kk: int| 0 <= kk < count && #[trigger] inst_improves(*self, *ray, kk, best_bound(*ray, best))
                            implies !under(nodes@, node as int, kk) && exists|j: int| 0 <= j < stack@.len() && #[trigger] under(nodes@, stack@[j] as int, kk) by {
                            let ik = self.tlas_instances@[kk];
                            let bk = self.bvhs@[ik.mesh.id as int];
                            let t = choose|t: int| 0 <= t < bk.tris@.len() && #[trigger] tri_beats(local_ray(*ray, ik.transform), bk.tris@[t], t, best_bound(*ray, best));
                            assert(tri_beats(local_ray(*ray, ik.transform), bk.tris@[t], t, bound0));
                            assert(inst_improves(*self, *ray, kk, bound0));
                            if under(nodes@, node as int, kk) {
                                assert(kk == k as int);
                            }
                        }
                    }
                    let ghost before = stack@;
                    match stack.pop() {
                        None => break,
                        Some(x) => {
                            proof {
                                assert(stack@ == before.drop_last());
                                assert(forall|j: int| 0 <= j < stack@.len() ==> stack@[j] == before[j]);
                                assert forall|kk: int| 0 <= kk < count && #[trigger] inst_improves(*self, *ray, kk, best_bound(*ray, best))
                                    implies pending_inst(nodes@, x as int, stack@, kk) by {
                                    let j = choose|j: int| 0 <= j < before.len() && #[trigger] under(nodes@, before[j] as int, kk);
                                    if j < before.len() - 1 {
                                        assert(under(nodes@, stack@[j] as int, kk));
                                    }
                                }
                            }
                            node = x;
                        },
                    }
                },
                TlasNodeType::Branch { left, right } => {
                    let mut child1 = right;
                    let mut child2 = left;
                    assert(node_ok(nodes@, left as int));
                    assert(node_ok(nodes@, right as int));
                    let mut dist1 = cur.aabb_intersection_at(&nodes[child1].aabb);
                    let mut dist2 = cur.aabb_intersection_at(&nodes[child2].aabb);
                    if crate::ray::farther(dist1, dist2) {
                        let t = dist1;
                        dist1 = dist2;
                        dist2 = t;
                        let c = child1;
                        child1 = child2;
                        child2 = c;
                    }
                    proof {
                        lemma_tlas_size_pos(nodes@, child1 as int);
                        lemma_tlas_size_pos(nodes@, child2 as int);
                        assert(!(dist1 is None && dist2 is Some));
                        assert forall|kk: int| 0 <= kk < count && #[trigger] inst_improves(*self, *ray, kk, best_bound(*ray, best))
                            implies (under(nodes@, child1 as int, kk) && dist1 is Some)
                                || (under(nodes@, child2 as int, kk) && dist2 is Some)
                                || exists|j: int| 0 <= j < stack@.len() && #[trigger] under(nodes@, stack@[j] as int, kk) by {
                            if under(nodes@, node as int, kk) {
                                assert(under(nodes@, left as int, kk) || under(nodes@, right as int, kk));
                                if under(nodes@, child1 as int, kk) && dist1 is None {
                                    lemma_inst_reaches(*self, *ray, cur, kk, child1 as int, best_bound(*ray, best));
                                }
                                if under(nodes@, child2 as int, kk) && dist2 is None {
                                    lemma_inst_reaches(*self, *ray, cur, kk, child2 as int, best_bound(*ray, best));
                                }
                            }
                        }
                    }
                    if dist1.is_none() {
                        let ghost before = stack@;
                        match stack.pop() {
                            None => break,
                            Some(x) => {
                                proof {
                                    assert(stack@ == before.drop_last());
                                    assert(forall|j: int| 0 <= j < stack@.len() ==> stack@[j] == before[j]);
                                    assert forall|kk: int| 0 <= kk < count && #[trigger] inst_improves(*self, *ray, kk, best_bound(*ray, best))
                                        implies pending_inst(nodes@, x as int, stack@, kk) by {
                                        let j = choose|j: int| 0 <= j < before.len() && #[trigger] under(nodes@, before[j] as int, kk);
                                        if j < before.len() - 1 {
                                            assert(under(nodes@, stack@[j] as int, kk));
                                        }
                                    }
                                }
                                node = x;
                            },
                        }
                    } else {
                        let ghost before = stack@;
                        node = child1;
                        if dist2.is_some() {
                            stack.push(child2);
                            proof {
                                assert(stack@.drop_last() =~= before);
                            }
                        }
                        proof {
                            assert forall|kk: int| 0 <= kk < count && #[trigger] inst_improves(*self, *ray, kk, best_bound(*ray, best))
                                implies pending_inst(nodes@, node as int, stack@, kk) by {
                                if !under(nodes@, node as int, kk) {
                                    if under(nodes@, child2 as int, kk) && dist2 is Some {
                                        assert(stack@[stack@.len() - 1] == child2);
                                        assert(under(nodes@, stack@[stack@.len() - 1] as int, kk));
                                    } else {
                                        let j = choose|j: int| 0 <= j < before.len() && #[trigger] under(nodes@, before[j] as int, kk);
                                        assert(stack@[j] == before[j]);
                                        assert(under(nodes@, stack@[j] as int, kk));
                                    }
                                }
                            }
                        }
                    }
                },
            }
        }
        proof {
            if let Some((o, h)) = best {
                assert(instance_hit(*self, *ray, best_k, o, h));
            }
            assert forall|k: int, t: int|
                0 <= k < self.tlas_instances@.len() && 0 <= t < self.bvhs@[self.tlas_instances@[k].mesh.id as int].tris@.len()
                implies !#[trigger] tri_beats(
                    local_ray(*ray, self.tlas_instances@[k].transform),
                    self.bvhs@[self.tlas_instances@[k].mesh.id as int].tris@[t],
                    t,
                    best_bound(*ray, best),
                ) by {
                assert(!inst_improves(*self, *ray, k, best_bound(*ray, best)));
            }
        }
        best
    }

    /// Casts a world-space ray from `origin` along `direction`, up to
    /// `max_distance`, and gives the nearest hit found with its owner.
    /// `direction` is not normalized: `max_distance` and the hit's
    /// `distance` count multiples of its length, scaled by `DIST_ONE`. Fails
    /// with `DegenerateDirection` on a zero direction and `OutOfRange` on an
    /// origin, direction or length beyond the limits.
    pub fn cast_ray(&self, origin: Vec3, direction: Vec3, max_distance: i64) -> (r: Result<Option<(u64, Hit)>, BvhError>)
        requires
            self.wf(),
        ensures
            direction == (Vec3 { x: 0, y: 0, z: 0 }) ==> r == Err::<Option<(u64, Hit)>, BvhError>(BvhError::DegenerateDirection),
            direction != (Vec3 { x: 0, y: 0, z: 0 }) && !world_ray_ok(RayCast { origin, direction, scale: 1, max: max_distance })
                ==> r == Err::<Option<(u64, Hit)>, BvhError>(BvhError::OutOfRange),
            direction != (Vec3 { x: 0, y: 0, z: 0 }) && world_ray_ok(RayCast { origin, direction, scale: 1, max: max_distance })
                ==> r is Ok,
            self.tlas.tlas_nodes@.len() == 0 && r is Ok ==> r == Ok::<Option<(u64, Hit)>, BvhError>(None),
            r matches Ok(Some((owner, hit))) ==> exists|k: int| instance_hit(*self, RayCast { origin, direction, scale: 1, max: max_distance }, k, owner, hit),
            r matches Ok(None) ==> forall|k: int, t: int|
                0 <= k < self.tlas_instances@.len() && 0 <= t < self.bvhs@[self.tlas_instances@[k].mesh.id as int].tris@.len()
                    ==> ray_tri(
                    local_ray(RayCast { origin, direction, scale: 1, max: max_distance }, self.tlas_instances@[k].transform),
                    #[trigger] self.bvhs@[self.tlas_instances@[k].mesh.id as int].tris@[t],
                    t as usize,
                ) is None,
            r matches Ok(Some((owner, hit))) ==> forall|k: int, t: int|
                0 <= k < self.tlas_instances@.len() && 0 <= t < self.bvhs@[self.tlas_instances@[k].mesh.id as int].tris@.len()
                    ==> (ray_tri(
                    local_ray(RayCast { origin, direction, scale: 1, max: max_distance }, self.tlas_instances@[k].transform),
                    #[trigger] self.bvhs@[self.tlas_instances@[k].mesh.id as int].tris@[t],
                    t as usize,
                ) matches Some(h2) ==> hit.distance <= h2.distance),
    {
        if direction.x == 0 && direction.y == 0 && direction.z == 0 {
            return Err(BvhError::DegenerateDirection);
        }
        let c = crate::geom::COORD_LIMIT;
        let origin_ok = -c <= origin.x && origin.x <= c && -c <= origin.y && origin.y <= c && -c
            <= origin.z && origin.z <= c;
        let d = DIR_LIMIT;
        let direction_ok = -d <= direction.x && direction.x <= d && -d <= direction.y
            && direction.y <= d && -d <= direction.z && direction.z <= d;
        if !origin_ok || !direction_ok || max_distance < 0 || max_distance > MAX_DIST {
            return Err(BvhError::OutOfRange);
        }
        let ray = RayCast::new(origin, direction, max_distance);
        let res = self.intersect_tlas(&ray);
        proof {
            assert forall|k: int, t: int|
                0 <= k < self.tlas_instances@.len() && 0 <= t < self.bvhs@[self.tlas_instances@[k].mesh.id as int].tris@.len()
                implies (match ray_tri(local_ray(ray, self.tlas_instances@[k].transform), #[trigger] self.bvhs@[self.tlas_instances@[k].mesh.id as int].tris@[t], t as usize) {
                    Some(h2) => res matches Some((_, hit)) && hit.distance <= h2.distance,
                    None => true,
                }) by {
                let m = self.tlas_instances@[k].transform;
                lemma_local_ray_facts(ray, m);
                assert(!tri_beats(local_ray(ray, m), self.bvhs@[self.tlas_instances@[k].mesh.id as int].tris@[t], t, best_bound(ray, res)));
            }
        }
        Ok(res)
    }

    /// Casts `ray` against the single hierarchy `mesh`, in that hierarchy's
    /// own space, giving the nearest hit within the ray's length. Fails with
    /// `InvalidHandle` on an unknown handle.
    pub fn cast_ray_bvh(&self, mesh: MeshBvh, ray: &RayCast) -> (r: Result<Option<Hit>, BvhError>)
        requires
            self.wf(),
            ray.wf(),
        ensures
            mesh.id >= self.bvhs@.len() ==> r == Err::<Option<Hit>, BvhError>(BvhError::InvalidHandle),
            mesh.id < self.bvhs@.len() ==> r is Ok,
            r matches Ok(Some(h)) ==> is_hit_of(*ray, self.bvhs@[mesh.id as int], h),
            r matches Ok(None) ==> forall|k: int|
                0 <= k < self.bvhs@[mesh.id as int].tris@.len() ==> ray_tri(
                    *ray,
                    #[trigger] self.bvhs@[mesh.id as int].tris@[k],
                    k as usize,
                ) is None,
            r matches Ok(Some(h)) ==> forall|k: int|
                0 <= k < self.bvhs@[mesh.id as int].tris@.len() ==> (ray_tri(
                    *ray,
                    #[trigger] self.bvhs@[mesh.id as int].tris@[k],
                    k as usize,
                ) matches Some(h2) ==> h.distance <= h2.distance),
    {
        if mesh.id >= self.bvhs.len() {
            return Err(BvhError::InvalidHandle);
        }
        let bvh = &self.bvhs[mesh.id];
        assert(bvh.wf());
        Ok(ray.intersect_bvh(bvh))
    }
}

} // verus!
