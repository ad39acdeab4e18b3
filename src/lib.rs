//! Ray casting against triangle meshes: the integer side of the engine.
//!
//! - [`scene`]: the scene broad-phase, which orders candidate meshes by where the ray enters
//!   their bounding boxes, decides which of them to test, and which hits to return.
//! - [`mesh`]: triangle access over indexed and non-indexed vertex buffers.
//! - [`node`] and [`octree`]: the compact octree of triangle indices that speeds up the search
//!   within one mesh.
//! - [`raycast`] and [`markers`]: back-face policy.

pub mod markers;
pub mod mesh;
pub mod node;
pub mod octree;
pub mod raycast;
pub mod scene;
