//! A voxel ray-marching core: a dense fixed-shape multi-dimensional buffer
//! with a bijective coordinate/offset mapping, a three-dimensional voxel
//! grid built from two such buffers, and a grid-stepping traversal that
//! walks a ray through the grid and reports the first present cell.

pub mod buffer;
pub mod linear;
pub mod raymarch;
