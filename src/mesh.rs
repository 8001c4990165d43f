//! Triangles from indexed mesh data.
use vstd::prelude::*;
use crate::geom::Vec3;
use crate::tri::Tri;
use crate::scene::BvhError;

verus! {

/// How a mesh's indices form primitives.
#[derive(Clone, Copy, Debug, PartialEq, Eq, Structural)]
pub enum PrimitiveTopology {
    PointList,
    LineList,
    LineStrip,
    TriangleList,
    TriangleStrip,
}

/// The index list forms whole triangles, each naming existing vertices.
pub open spec fn indices_ok(positions: Seq<Vec3>, indices: Seq<u32>) -> bool {
    &&& indices.len() % 3 == 0
    &&& forall|k: int| 0 <= k < indices.len() ==> #[trigger] indices[k] < positions.len()
}

/// Every vertex the indices name lies within the coordinate limit.
pub open spec fn positions_ok(positions: Seq<Vec3>, indices: Seq<u32>) -> bool {
    forall|k: int| 0 <= k < indices.len() ==> (#[trigger] positions[indices[k] as int]).in_bounds()
}

/// Triangle `t` of the list is formed by indices `3t`, `3t + 1` and `3t + 2`.
pub open spec fn is_mesh_triangle(tri: Tri, positions: Seq<Vec3>, indices: Seq<u32>, t: int) -> bool {
    &&& tri.wf()
    &&& tri.vertex0 == positions[indices[3 * t] as int]
    &&& tri.vertex1 == positions[indices[3 * t + 1] as int]
    &&& tri.vertex2 == positions[indices[3 * t + 2] as int]
}

/// The triangles of an indexed mesh, three indices at a time. Fails with
/// `UnsupportedTopology` unless the mesh is a triangle list, `InvalidIndex`
/// when the indices do not form whole triangles of existing vertices, and
/// `OutOfRange` when a vertex lies beyond the coordinate limit.
pub fn mesh_to_triangles(
    topology: PrimitiveTopology,
    positions: &Vec<Vec3>,
    indices: &Vec<u32>,
) -> (r: Result<Vec<Tri>, BvhError>)
    ensures
        topology != PrimitiveTopology::TriangleList ==> r == Err::<Vec<Tri>, BvhError>(
            BvhError::UnsupportedTopology,
        ),
        topology == PrimitiveTopology::TriangleList && !indices_ok(positions@, indices@) ==> r
            == Err::<Vec<Tri>, BvhError>(BvhError::InvalidIndex),
        topology == PrimitiveTopology::TriangleList && indices_ok(positions@, indices@)
            && !positions_ok(positions@, indices@) ==> r == Err::<Vec<Tri>, BvhError>(
            BvhError::OutOfRange,
        ),
        topology == PrimitiveTopology::TriangleList && indices_ok(positions@, indices@)
            && positions_ok(positions@, indices@) ==> r is Ok,
        r matches Ok(tris) ==> {
            &&& tris@.len() == indices@.len() / 3
            &&& forall|t: int| 0 <= t < tris@.len() ==> is_mesh_triangle(#[trigger] tris@[t], positions@, indices@, t)
        },
{
    match topology {
        PrimitiveTopology::TriangleList => {},
        _ => return Err(BvhError::UnsupportedTopology),
    }
    let n = indices.len();
    if n % 3 != 0 {
        return Err(BvhError::InvalidIndex);
    }
    let mut k: usize = 0;
    while k < n
        invariant
            topology == PrimitiveTopology::TriangleList,
            n == indices@.len(),
            k <= n,
            forall|j: int| 0 <= j < k ==> #[trigger] indices@[j] < positions@.len(),
        decreases n - k,
    {
        if indices[k] as usize >= positions.len() {
            return Err(BvhError::InvalidIndex);
        }
        k = k + 1;
    }
    let mut tris: Vec<Tri> = Vec::new();
    let mut t: usize = 0;
    while t < n / 3
        invariant
            topology == PrimitiveTopology::TriangleList,
            n == indices@.len(),
            n % 3 == 0,
            indices_ok(positions@, indices@),
            t <= n / 3,
            tris@.len() == t,
            forall|j: int| 0 <= j < 3 * t ==> (#[trigger] positions@[indices@[j] as int]).in_bounds(),
            forall|j: int| 0 <= j < t ==> is_mesh_triangle(#[trigger] tris@[j], positions@, indices@, j),
        decreases n / 3 - t,
    {
        let a = positions[indices[3 * t] as usize];
        let b = positions[indices[3 * t + 1] as usize];
        let c = positions[indices[3 * t + 2] as usize];
        let lim = crate::geom::COORD_LIMIT;
        let mut j: usize = 0;
        while j < 3
            invariant
                lim == crate::geom::COORD_LIMIT,
                topology == PrimitiveTopology::TriangleList,
                j <= 3,
                t < n / 3,
                n == indices@.len(),
                indices_ok(positions@, indices@),
                forall|m: int| 0 <= m < 3 * t + j ==> (#[trigger] positions@[indices@[m] as int]).in_bounds(),
            decreases 3 - j,
        {
            let p = positions[indices[3 * t + j] as usize];
            if !(-lim <= p.x && p.x <= lim && -lim <= p.y && p.y <= lim && -lim <= p.z && p.z <= lim) {
                return Err(BvhError::OutOfRange);
            }
            j = j + 1;
        }
        tris.push(Tri::new(a, b, c));
        t = t + 1;
    }
    Ok(tris)
}

} // verus!
