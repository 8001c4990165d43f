use raven_bvh::geom::Vec3;
use raven_bvh::mesh::{mesh_to_triangles, PrimitiveTopology};
use raven_bvh::ray::{RayCast, DIST_ONE, MAX_DIST};
use raven_bvh::scene::{BvhError, MeshBvh, TlasCast};
use raven_bvh::transform::Affine;
use raven_bvh::tri::Tri;

/// Fixed-point units per world unit in these tests.
const U: i64 = 1024;

fn v(x: i64, y: i64, z: i64) -> Vec3 {
    Vec3::new(x, y, z)
}

fn translate(x: i64, y: i64, z: i64) -> Affine {
    Affine {
        row_x: v(1, 0, 0),
        row_y: v(0, 1, 0),
        row_z: v(0, 0, 1),
        translation: v(x, y, z),
    }
}

/// The twelve triangles of the axis-aligned cube `[lo, hi]^3`.
fn cube(lo: i64, hi: i64) -> Vec<Tri> {
    let p = |i: usize| v(if i & 1 == 0 { lo } else { hi }, if i & 2 == 0 { lo } else { hi }, if i & 4 == 0 { lo } else { hi });
    let faces = [
        [0, 1, 3, 2],
        [4, 5, 7, 6],
        [0, 1, 5, 4],
        [2, 3, 7, 6],
        [0, 2, 6, 4],
        [1, 3, 7, 5],
    ];
    let mut tris = Vec::new();
    for f in faces.iter() {
        tris.push(Tri::new(p(f[0]), p(f[1]), p(f[2])));
        tris.push(Tri::new(p(f[0]), p(f[2]), p(f[3])));
    }
    tris
}

fn down_ray_scene(instances: &[(MeshBvh, Affine)], scene: &mut TlasCast) {
    for (k, (mesh, t)) in instances.iter().enumerate() {
        scene.add_instance(k as u64 + 100, *mesh, *t).unwrap();
    }
    scene.rebuild_tlas();
}

#[test]
fn single_triangle_axis_aligned_ray() {
    let mut scene = TlasCast::new();
    let mesh = scene.build_bvh(vec![Tri::new(v(0, 0, 0), v(U, 0, 0), v(0, U, 0))]).unwrap();
    down_ray_scene(&[(mesh, translate(0, 0, 0))], &mut scene);
    let hit = scene.cast_ray(v(U / 4, U / 4, U), v(0, 0, -U), 10 * DIST_ONE).unwrap().unwrap();
    assert_eq!(hit.0, 100);
    assert_eq!(hit.1.distance, DIST_ONE as i128);
    assert_eq!(hit.1.u, DIST_ONE / 4);
    assert_eq!(hit.1.v, DIST_ONE / 4);
    assert_eq!(hit.1.tri_index, 0);
}

#[test]
fn single_triangle_through_bvh_cast() {
    let mut scene = TlasCast::new();
    let mesh = scene.build_bvh(vec![Tri::new(v(0, 0, 0), v(U, 0, 0), v(0, U, 0))]).unwrap();
    let ray = RayCast::new(v(U / 4, U / 4, U), v(0, 0, -U), 10 * DIST_ONE);
    let hit = scene.cast_ray_bvh(mesh, &ray).unwrap().unwrap();
    assert_eq!((hit.distance, hit.u, hit.v), (DIST_ONE as i128, DIST_ONE / 4, DIST_ONE / 4));
}

#[test]
fn single_triangle_miss() {
    let mut scene = TlasCast::new();
    let mesh = scene.build_bvh(vec![Tri::new(v(0, 0, 0), v(U, 0, 0), v(0, U, 0))]).unwrap();
    down_ray_scene(&[(mesh, translate(0, 0, 0))], &mut scene);
    assert_eq!(scene.cast_ray(v(2 * U, 2 * U, U), v(0, 0, -U), 10 * DIST_ONE).unwrap(), None);
}

#[test]
fn hit_beyond_ray_length_is_no_hit() {
    let mut scene = TlasCast::new();
    let mesh = scene.build_bvh(vec![Tri::new(v(0, 0, 0), v(U, 0, 0), v(0, U, 0))]).unwrap();
    down_ray_scene(&[(mesh, translate(0, 0, 0))], &mut scene);
    let origin = v(U / 4, U / 4, U);
    assert_eq!(scene.cast_ray(origin, v(0, 0, -U), DIST_ONE / 2).unwrap(), None);
    assert!(scene.cast_ray(origin, v(0, 0, -U), DIST_ONE).unwrap().is_some());
}

#[test]
fn two_translated_cube_instances() {
    let mut scene = TlasCast::new();
    let mesh = scene.build_bvh(cube(-U / 2, U / 2)).unwrap();
    down_ray_scene(&[(mesh, translate(-3 * U, 0, 0)), (mesh, translate(3 * U, 0, 0))], &mut scene);
    assert_eq!(scene.cast_ray(v(0, 0, 10 * U), v(0, 0, -U), 100 * DIST_ONE).unwrap(), None);
    let hit = scene.cast_ray(v(3 * U, 0, 10 * U), v(0, 0, -U), 100 * DIST_ONE).unwrap().unwrap();
    assert_eq!(hit.0, 101);
    assert_eq!(hit.1.distance, (9 * DIST_ONE + DIST_ONE / 2) as i128);
}

#[test]
fn scaled_instance_reports_world_distance() {
    let mut scene = TlasCast::new();
    let mesh = scene.build_bvh(cube(0, U)).unwrap();
    let stretch = Affine { row_x: v(2, 0, 0), row_y: v(0, 1, 0), row_z: v(0, 0, 1), translation: v(0, 0, 0) };
    down_ray_scene(&[(mesh, stretch)], &mut scene);
    let x = (19 * U) / 10;
    let hit = scene.cast_ray(v(x, U / 2, 10 * U), v(0, 0, -U), 100 * DIST_ONE).unwrap().unwrap();
    assert_eq!(hit.1.distance, (9 * DIST_ONE) as i128);
}

#[test]
fn rotated_instance_reports_world_distance() {
    let mut scene = TlasCast::new();
    let mesh = scene.build_bvh(cube(0, U)).unwrap();
    // a quarter turn about z, scaled by 3 along the local x axis
    let turn = Affine { row_x: v(0, -1, 0), row_y: v(3, 0, 0), row_z: v(0, 0, 1), translation: v(0, 0, 0) };
    down_ray_scene(&[(mesh, turn)], &mut scene);
    let hit = scene.cast_ray(v(-U / 2, 2 * U, 10 * U), v(0, 0, -U), 100 * DIST_ONE).unwrap().unwrap();
    assert_eq!(hit.1.distance, (9 * DIST_ONE) as i128);
    assert_eq!(scene.cast_ray(v(U / 2, 2 * U, 10 * U), v(0, 0, -U), 100 * DIST_ONE).unwrap(), None);
}

#[test]
fn empty_tlas_gives_no_hit() {
    let scene = TlasCast::new();
    for (o, d) in [(v(0, 0, 0), v(0, 0, 1)), (v(5, -7, 9), v(-3, 2, 1)), (v(U, U, U), v(1, 0, 0))] {
        assert_eq!(scene.cast_ray(o, d, MAX_DIST).unwrap(), None);
    }
}

#[test]
fn queries_see_the_structure_until_rebuilt() {
    let mut scene = TlasCast::new();
    let mesh = scene.build_bvh(cube(-U / 2, U / 2)).unwrap();
    let idx = scene.add_instance(7, mesh, translate(0, 0, 0)).unwrap();
    assert_eq!(scene.cast_ray(v(0, 0, 10 * U), v(0, 0, -U), 100 * DIST_ONE).unwrap(), None);
    scene.rebuild_tlas();
    assert!(scene.cast_ray(v(0, 0, 10 * U), v(0, 0, -U), 100 * DIST_ONE).unwrap().is_some());
    scene.update_instance(idx, translate(5 * U, 0, 0)).unwrap();
    assert!(scene.cast_ray(v(0, 0, 10 * U), v(0, 0, -U), 100 * DIST_ONE).unwrap().is_some());
    scene.rebuild_tlas();
    assert_eq!(scene.cast_ray(v(0, 0, 10 * U), v(0, 0, -U), 100 * DIST_ONE).unwrap(), None);
    let hit = scene.cast_ray(v(5 * U, 0, 10 * U), v(0, 0, -U), 100 * DIST_ONE).unwrap().unwrap();
    assert_eq!(hit.0, 7);
    scene.remove_instance(idx).unwrap();
    scene.rebuild_tlas();
    assert_eq!(scene.cast_ray(v(5 * U, 0, 10 * U), v(0, 0, -U), 100 * DIST_ONE).unwrap(), None);
}

#[test]
fn error_empty_mesh() {
    let mut scene = TlasCast::new();
    assert_eq!(scene.build_bvh(Vec::new()), Err(BvhError::EmptyMesh));
}

#[test]
fn error_unsupported_topology() {
    let positions = vec![v(0, 0, 0), v(1, 0, 0), v(0, 1, 0)];
    let r = mesh_to_triangles(PrimitiveTopology::LineList, &positions, &vec![0, 1, 2]);
    assert_eq!(r, Err(BvhError::UnsupportedTopology));
}

#[test]
fn error_invalid_index() {
    let positions = vec![v(0, 0, 0), v(1, 0, 0), v(0, 1, 0)];
    assert_eq!(mesh_to_triangles(PrimitiveTopology::TriangleList, &positions, &vec![0, 1, 3]), Err(BvhError::InvalidIndex));
    assert_eq!(mesh_to_triangles(PrimitiveTopology::TriangleList, &positions, &vec![0, 1]), Err(BvhError::InvalidIndex));
}

#[test]
fn error_out_of_range() {
    let positions = vec![v(0, 0, 0), v(1 << 21, 0, 0), v(0, 1, 0)];
    assert_eq!(mesh_to_triangles(PrimitiveTopology::TriangleList, &positions, &vec![0, 1, 2]), Err(BvhError::OutOfRange));
    let mut scene = TlasCast::new();
    let bad = Tri { vertex0: v(0, 0, 0), vertex1: v(1, 0, 0), vertex2: v(0, 1, 0), centroid: v(5, 5, 5) };
    assert_eq!(scene.build_bvh(vec![bad]), Err(BvhError::OutOfRange));
    let mesh = scene.build_bvh(cube(0, U)).unwrap();
    let singular = Affine { row_x: v(1, 0, 0), row_y: v(1, 0, 0), row_z: v(0, 0, 1), translation: v(0, 0, 0) };
    assert_eq!(scene.add_instance(1, mesh, singular), Err(BvhError::OutOfRange));
    assert_eq!(scene.cast_ray(v(0, 0, 1 << 22), v(0, 0, -1), DIST_ONE), Err(BvhError::OutOfRange));
}

#[test]
fn error_degenerate_direction() {
    let scene = TlasCast::new();
    assert_eq!(scene.cast_ray(v(0, 0, 0), v(0, 0, 0), DIST_ONE), Err(BvhError::DegenerateDirection));
}

#[test]
fn error_invalid_handle() {
    let mut scene = TlasCast::new();
    let ray = RayCast::new(v(0, 0, 0), v(0, 0, 1), DIST_ONE);
    assert_eq!(scene.cast_ray_bvh(MeshBvh { id: 3 }, &ray), Err(BvhError::InvalidHandle));
    assert_eq!(scene.add_instance(1, MeshBvh { id: 0 }, translate(0, 0, 0)), Err(BvhError::InvalidHandle));
    let mesh = scene.build_bvh(cube(0, U)).unwrap();
    let idx = scene.add_instance(1, mesh, translate(0, 0, 0)).unwrap();
    assert_eq!(scene.remove_instance(idx), Ok(()));
    assert_eq!(scene.remove_instance(idx), Err(BvhError::InvalidHandle));
    assert_eq!(scene.update_instance(idx + 1, translate(0, 0, 0)), Err(BvhError::InvalidHandle));
}

#[test]
fn mesh_triangles_from_indices() {
    let positions = vec![v(0, 0, 0), v(U, 0, 0), v(0, U, 0), v(U, U, 0)];
    let tris = mesh_to_triangles(PrimitiveTopology::TriangleList, &positions, &vec![0, 1, 2, 2, 1, 3]).unwrap();
    assert_eq!(tris.len(), 2);
    assert_eq!(tris[1].vertex0, v(0, U, 0));
    assert_eq!(tris[1].vertex2, v(U, U, 0));
    assert_eq!(tris[1].centroid, v(U + U, U + U, 0));
}

#[test]
fn nearest_of_stacked_triangles() {
    let mut scene = TlasCast::new();
    let mut tris = Vec::new();
    for z in [3, -2, 5, 1, 4] {
        tris.push(Tri::new(v(-U, -U, z * U), v(2 * U, -U, z * U), v(-U, 2 * U, z * U)));
    }
    let mesh = scene.build_bvh(tris).unwrap();
    let ray = RayCast::new(v(0, 0, 10 * U), v(0, 0, -U), 100 * DIST_ONE);
    let hit = scene.cast_ray_bvh(mesh, &ray).unwrap().unwrap();
    assert_eq!(hit.tri_index, 2);
    assert_eq!(hit.distance, (5 * DIST_ONE) as i128);
    down_ray_scene(&[(mesh, translate(0, 0, 0))], &mut scene);
    let (_, world) = scene.cast_ray(v(0, 0, 10 * U), v(0, 0, -U), 100 * DIST_ONE).unwrap().unwrap();
    assert_eq!(world.distance, (5 * DIST_ONE) as i128);
    let short = scene.cast_ray(v(0, 0, 10 * U), v(0, 0, -U), 4 * DIST_ONE).unwrap();
    assert_eq!(short, None);
}

#[test]
fn triangle_test_ignores_ray_length() {
    let tri = Tri::new(v(0, 0, 0), v(U, 0, 0), v(0, U, 0));
    let ray = RayCast::new(v(U / 4, U / 4, U), v(0, 0, -U), DIST_ONE / 2);
    let hit = ray.intersect_triangle(&tri, 0).unwrap();
    assert_eq!((hit.distance, hit.u, hit.v), (DIST_ONE as i128, DIST_ONE / 4, DIST_ONE / 4));
    let behind = RayCast::new(v(U / 4, U / 4, U), v(0, 0, U), DIST_ONE);
    assert!(behind.intersect_triangle(&tri, 0).is_none());
}

#[test]
fn slab_test_gives_entry_parameter() {
    let b = raven_bvh::aabb::Aabb { min: v(-U, -U, -U), max: v(U, U, U) };
    let ray = RayCast::new(v(0, 0, 5 * U), v(0, 0, -U), 10 * DIST_ONE);
    let (n, d) = ray.aabb_intersection_at(&b).unwrap();
    assert_eq!(n * 4, d * 16);
    let short = RayCast::new(v(0, 0, 5 * U), v(0, 0, -U), 3 * DIST_ONE);
    assert_eq!(short.aabb_intersection_at(&b), None);
    let away = RayCast::new(v(0, 0, 5 * U), v(0, 0, U), 10 * DIST_ONE);
    assert_eq!(away.aabb_intersection_at(&b), None);
    let inside = RayCast::new(v(0, 0, 0), v(1, 0, 0), DIST_ONE);
    assert_eq!(inside.aabb_intersection_at(&b), Some((0, 1)));
}

#[test]
fn hit_nearer_than_epsilon_after_rounding_is_no_hit() {
    let tri = Tri::new(v(0, 0, 0), v(4, 0, 0), v(0, 4, 0));
    let ray = RayCast::new(v(1, 1, 1), v(0, 0, -9500), 10 * DIST_ONE);
    assert!(ray.intersect_triangle(&tri, 0).is_none());
    let mut scene = TlasCast::new();
    let mesh = scene.build_bvh(vec![tri]).unwrap();
    assert_eq!(scene.cast_ray_bvh(mesh, &ray).unwrap(), None);
    let slower = RayCast::new(v(1, 1, 1), v(0, 0, -9000), 10 * DIST_ONE);
    let hit = slower.intersect_triangle(&tri, 0).unwrap();
    assert_eq!(hit.distance, 7);
}

#[test]
fn point_along_ray_is_exact() {
    let ray = RayCast::new(v(U, 2 * U, 3 * U), v(0, 0, -U), 10 * DIST_ONE);
    let p = ray.get_point(DIST_ONE / 2);
    let one = DIST_ONE as i128;
    assert_eq!(p, ((U as i128) * one, (2 * U as i128) * one, (3 * U as i128) * one - (U as i128) * one / 2));
}
