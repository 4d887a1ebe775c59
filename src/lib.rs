//! Sparse voxel octrees over dense occupancy grids.
//!
//! - `morton`: three 21-bit coordinates interleaved into one key.
//! - `voxel`, `voxel_grid`: dense grids, block sampling, bit-packed bricks.
//! - `svo`: the packed node pool and its recursive construction.
//! - `traversal`: the integer steps of the octree ray-marcher.
//! - `bvh`: the shape of the hierarchy over instances, in Morton order.
//! - `sparse`, `grid`: zero-filled sparse arrays and the three-level
//!   occupancy grid indexed by Morton key.
//! - `voxel_csv`: the grid edge carried in a model file's name.
//! - `util`: small helpers.

pub mod morton;
pub mod voxel;
pub mod voxel_grid;
pub mod svo;
pub mod traversal;
pub mod bvh;
pub mod sparse;
pub mod grid;
pub mod util;
pub mod voxel_csv;
