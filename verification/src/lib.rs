//! A sparse, 64-way voxel index ("contree") with arena-backed nodes and an
//! optional mirror of every node write towards a graphics device.

pub mod arena;
pub mod block;
pub mod contree;
pub mod cube;
pub mod generation;
pub mod gpu_binding;
pub mod mirror_log;
pub mod morton;
pub mod node;
pub mod position;
pub mod raycast;
mod tree_proofs;
pub mod tree_state;
mod trusted;
pub mod walk;
