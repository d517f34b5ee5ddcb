//! Integer-coordinate collision broad phase: bounding volumes, a dynamic
//! bounding volume tree and a two-tree broad phase with sleep/wake support.

pub mod math;
pub mod aabb;
pub mod bounding_sphere;
pub mod ray;
pub mod dbvt;
pub mod pair_manager;
pub mod dbvt_broad_phase;
