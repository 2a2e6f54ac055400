//! A voxel chunk engine: binary voxel grids, greedy box meshing, chunk
//! storage with edit propagation, streaming around a moving observer, and
//! fixed-step raycasting.

pub mod coords;
pub mod grid;
pub mod mesher;
pub mod chunk;
pub mod store;
pub mod streaming;
pub mod raycast;
