//! A fixed-size 32x32x32 voxel volume with per-voxel colors and a
//! face-culling mesher: every voxel edit is a single-bit write, and a full
//! remesh emits one unit quad for each occupied voxel face that borders an
//! empty voxel (or the outside of the volume).

pub mod bits;
pub mod chunk;
mod color_map;
pub mod quad;
