//! Two-level bounding volume hierarchy for ray casting against instanced
//! triangle meshes, on exact fixed-point coordinates.
//!
//! `bvh` builds a hierarchy over one triangle list by binned SAH; `tlas`
//! clusters instance boxes into a top-level structure; `ray` holds the exact
//! ray-triangle, ray-box and ray-hierarchy kernels; `scene` ties a registry
//! of hierarchies, a table of instances and the top-level structure together.
pub mod geom;
pub mod aabb;
pub mod tri;
pub mod bvh;
pub mod tlas;
pub mod transform;
pub mod ray;
pub mod scene;
pub mod mesh;
