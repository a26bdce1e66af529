//! Spatial subsystem of a chunked 3D voxel world engine: coordinate mapping,
//! chunk streaming with load/unload hysteresis, a bounding-volume tree for
//! broad-phase queries, grid-based A* path search, and the entity registry
//! that ties spatial objects to identities.

use vstd::prelude::*;

pub mod astar;
pub mod chunk;
pub mod component;
pub mod entity;
pub mod octree;
pub mod world;

verus! {

/// Edge length, in blocks, of a chunk along the x and y axes.
pub const CHUNK_SIZE: usize = 32;

/// Number of block layers a chunk stores along the z axis.
pub const CHUNK_HEIGHT: usize = 64;

} // verus!
