use raven_bvh::aabb::Aabb;
use raven_bvh::bvh::Bvh;
use raven_bvh::geom::Vec3;
use raven_bvh::ray::{Hit, RayCast, DIST_ONE};
use raven_bvh::scene::TlasCast;
use raven_bvh::tlas::{build_tlas, TlasNodeType};
use raven_bvh::transform::Affine;
use raven_bvh::tri::Tri;

const U: i64 = 1024;

fn v(x: i64, y: i64, z: i64) -> Vec3 {
    Vec3::new(x, y, z)
}

/// A small linear congruential generator, so that scenes are reproducible.
struct Lcg(u64);

impl Lcg {
    fn next(&mut self) -> u64 {
        self.0 = self.0.wrapping_mul(6364136223846793005).wrapping_add(1442695040888963407);
        self.0 >> 33
    }

    fn range(&mut self, lo: i64, hi: i64) -> i64 {
        lo + (self.next() % ((hi - lo + 1) as u64)) as i64
    }
}

fn random_tris(seed: u64, n: usize, extent: i64, size: i64) -> Vec<Tri> {
    let mut rng = Lcg(seed);
    let mut tris = Vec::new();
    for _ in 0..n {
        let c = v(rng.range(-extent, extent), rng.range(-extent, extent), rng.range(-extent, extent));
        let mut p = || v(c.x + rng.range(-size, size), c.y + rng.range(-size, size), c.z + rng.range(-size, size));
        let (a, b, d) = (p(), p(), p());
        tris.push(Tri::new(a, b, d));
    }
    tris
}

fn contains(b: &Aabb, p: &Vec3) -> bool {
    b.min.x <= p.x && p.x <= b.max.x && b.min.y <= p.y && p.y <= b.max.y && b.min.z <= p.z && p.z <= b.max.z
}

fn contains_box(a: &Aabb, b: &Aabb) -> bool {
    contains(a, &b.min) && contains(a, &b.max)
}

/// The triangle positions covered by node `i`, checking boxes on the way down.
fn check_node(bvh: &Bvh, i: usize, out: &mut Vec<usize>) -> (usize, usize) {
    let n = bvh.nodes[i];
    if n.tri_count > 0 {
        for k in n.left_first..n.left_first + n.tri_count {
            let t = &bvh.tris[bvh.triangle_indexs[k]];
            for p in [t.vertex0, t.vertex1, t.vertex2] {
                assert!(contains(&n.aabb, &p));
            }
            out.push(k);
        }
        (n.left_first, n.tri_count)
    } else {
        assert!(contains_box(&n.aabb, &bvh.nodes[n.left_first].aabb));
        assert!(contains_box(&n.aabb, &bvh.nodes[n.left_first + 1].aabb));
        let (f, c) = check_node(bvh, n.left_first, out);
        let (f2, c2) = check_node(bvh, n.left_first + 1, out);
        assert_eq!(f2, f + c);
        for k in f..f + c + c2 {
            let t = &bvh.tris[bvh.triangle_indexs[k]];
            for p in [t.vertex0, t.vertex1, t.vertex2] {
                assert!(contains(&n.aabb, &p));
            }
        }
        (f, c + c2)
    }
}

#[test]
fn bvh_permutation_and_leaf_partition() {
    let tris = random_tris(1, 500, 100 * U, 2 * U);
    let bvh = Bvh::new(tris);
    let mut seen = vec![false; 500];
    for &i in bvh.triangle_indexs.iter() {
        assert!(!seen[i]);
        seen[i] = true;
    }
    assert!(seen.iter().all(|s| *s));
    let mut positions = Vec::new();
    assert_eq!(check_node(&bvh, 0, &mut positions), (0, 500));
    positions.sort();
    assert_eq!(positions, (0..500).collect::<Vec<_>>());
    assert!(bvh.nodes.len() > 1);
}

#[test]
fn bvh_build_is_deterministic() {
    let a = Bvh::new(random_tris(7, 300, 50 * U, U));
    let b = Bvh::new(random_tris(7, 300, 50 * U, U));
    assert_eq!(a.nodes, b.nodes);
    assert_eq!(a.triangle_indexs, b.triangle_indexs);
    assert_eq!(a.tris, b.tris);
}

#[test]
fn tlas_references_each_instance_once() {
    let mut rng = Lcg(3);
    let mut boxes = Vec::new();
    for _ in 0..40 {
        let (x, y, z) = (rng.range(-500 * U, 500 * U), rng.range(-500 * U, 500 * U), rng.range(-500 * U, 500 * U));
        boxes.push(Aabb { min: v(x, y, z), max: v(x + rng.range(0, 10 * U), y + U, z + rng.range(0, 3 * U)) });
    }
    let tlas = build_tlas(&boxes);
    let mut count = vec![0; 40];
    let mut stack = vec![tlas.tlas_nodes[0]];
    while let Some(n) = stack.pop() {
        match n.node_type {
            TlasNodeType::Leaf(k) => count[k] += 1,
            TlasNodeType::Branch { left, right } => {
                assert!(contains_box(&n.aabb, &tlas.tlas_nodes[left].aabb));
                assert!(contains_box(&n.aabb, &tlas.tlas_nodes[right].aabb));
                stack.push(tlas.tlas_nodes[left]);
                stack.push(tlas.tlas_nodes[right]);
            },
        }
    }
    assert!(count.iter().all(|c| *c == 1));
    assert_eq!(build_tlas(&Vec::new()).tlas_nodes.len(), 0);
}

fn scene_of_instances() -> TlasCast {
    let mut scene = TlasCast::new();
    let a = scene.build_bvh(random_tris(11, 400, 4 * U, U / 2)).unwrap();
    let b = scene.build_bvh(random_tris(12, 200, 2 * U, U)).unwrap();
    let placements = [
        (a, Affine { row_x: v(1, 0, 0), row_y: v(0, 1, 0), row_z: v(0, 0, 1), translation: v(0, 0, 0) }),
        (a, Affine { row_x: v(2, 0, 0), row_y: v(0, 1, 0), row_z: v(0, 0, 3), translation: v(6 * U, 0, 0) }),
        (b, Affine { row_x: v(0, -1, 0), row_y: v(1, 0, 0), row_z: v(0, 0, 1), translation: v(-5 * U, 2 * U, U) }),
        (b, Affine { row_x: v(1, 1, 0), row_y: v(0, 1, 0), row_z: v(0, 0, -2), translation: v(0, -6 * U, 0) }),
    ];
    for (k, (m, t)) in placements.iter().enumerate() {
        scene.add_instance(k as u64, *m, *t).unwrap();
    }
    scene.rebuild_tlas();
    scene
}

/// The nearest hit over every triangle of every instance, without the hierarchies.
fn brute_force(scene: &TlasCast, ray: &RayCast) -> Option<(u64, Hit)> {
    let mut best: Option<(u64, Hit)> = None;
    for inst in scene.tlas_instances.iter() {
        let local = ray.to_local(&inst.transform);
        for (i, t) in scene.bvhs[inst.mesh.id].tris.iter().enumerate() {
            if let Some(h) = local.intersect_triangle(t, i) {
                if h.distance <= ray.max as i128 && best.map_or(true, |(_, b)| h.distance < b.distance) {
                    best = Some((inst.owner_id, h));
                }
            }
        }
    }
    best
}

#[test]
fn cast_ray_matches_brute_force() {
    let scene = scene_of_instances();
    let mut rng = Lcg(5);
    let mut hits = 0;
    for _ in 0..300 {
        let o = v(rng.range(-12 * U, 12 * U), rng.range(-12 * U, 12 * U), rng.range(-12 * U, 12 * U));
        let target = v(rng.range(-6 * U, 6 * U), rng.range(-6 * U, 6 * U), rng.range(-2 * U, 2 * U));
        let d = v((target.x - o.x) / 4, (target.y - o.y) / 4, (target.z - o.z) / 4);
        if d == v(0, 0, 0) {
            continue;
        }
        let ray = RayCast::new(o, d, 100 * DIST_ONE);
        let got = scene.cast_ray(o, d, 100 * DIST_ONE).unwrap();
        let want = brute_force(&scene, &ray);
        assert_eq!(got.map(|(_, h)| h.distance), want.map(|(_, h)| h.distance));
        if got.is_some() {
            hits += 1;
        }
    }
    assert!(hits > 20);
}

#[test]
fn local_round_trip_recovers_the_point() {
    let m = Affine { row_x: v(0, 2, 1), row_y: v(-3, 0, 0), row_z: v(1, 1, 4), translation: v(700, -300, 50) };
    assert!(m.is_valid());
    for p in [v(0, 0, 0), v(1000, -2000, 300), v(-512, 512, 77)] {
        let world = m.transform_point(&p).unwrap();
        let local = RayCast::new(world, v(0, 0, 1), DIST_ONE).to_local(&m);
        assert!(local.scale > 0);
        assert_eq!(local.origin, v(p.x * local.scale, p.y * local.scale, p.z * local.scale));
    }
}

#[test]
fn random_scene_rendering_is_deterministic() {
    let render = |reverse: bool| {
        let mut scene = TlasCast::new();
        let mesh = scene.build_bvh(random_tris(42, 20000, 60 * U, U)).unwrap();
        scene.add_instance(1, mesh, Affine { row_x: v(1, 0, 0), row_y: v(0, 1, 0), row_z: v(0, 0, 1), translation: v(0, 0, 0) }).unwrap();
        scene.rebuild_tlas();
        let (w, h, tile) = (48i64, 48i64, 16i64);
        let mut image = vec![0i64; (w * h) as usize];
        let mut tiles: Vec<(i64, i64)> = Vec::new();
        for ty in 0..h / tile {
            for tx in 0..w / tile {
                tiles.push((tx, ty));
            }
        }
        if reverse {
            tiles.reverse();
        }
        for (tx, ty) in tiles {
            for y in ty * tile..(ty + 1) * tile {
                for x in tx * tile..(tx + 1) * tile {
                    let o = v(0, 0, 200 * U);
                    let d = v((x - w / 2) * 40, (y - h / 2) * 40, -U);
                    let px = match scene.cast_ray(o, d, 1000 * DIST_ONE).unwrap() {
                        Some((_, hit)) => hit.distance as i64 ^ (hit.tri_index as i64),
                        None => -1,
                    };
                    image[(y * w + x) as usize] = px;
                }
            }
        }
        image
    };
    let first = render(false);
    assert_eq!(first, render(true));
    assert!(first.iter().any(|p| *p >= 0));
}

#[test]
fn tlas_of_one_instance_is_its_leaf() {
    let b = Aabb { min: v(0, 0, 0), max: v(U, U, U) };
    let tlas = build_tlas(&vec![b]);
    assert_eq!(tlas.tlas_nodes.len(), 2);
    assert_eq!(tlas.tlas_nodes[0].node_type, TlasNodeType::Leaf(0));
    assert_eq!(tlas.tlas_nodes[0].aabb, b);
}

#[test]
fn leaf_cost_is_count_times_half_area() {
    let bvh = Bvh::new(vec![Tri::new(v(0, 0, 0), v(2, 0, 0), v(0, 3, 4))]);
    assert_eq!(bvh.nodes.len(), 1);
    assert!(bvh.nodes[0].is_leaf());
    // extents 2, 3, 4: 2*3 + 3*4 + 4*2 = 26
    assert_eq!(bvh.nodes[0].calculate_cost(), 26);
}
