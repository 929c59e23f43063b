//! Sparse voxel octree construction and its compact, GPU-traversable linear encoding.
//!
//! A cloud of lattice points is inserted into an in-memory octree, which is then
//! flattened into two index-aligned arrays: bit-packed node descriptors and packed
//! colour attributes.

pub mod chunked_allocator;
pub mod decode;
pub mod encoding;
pub mod geometry;
pub mod model;
pub mod node;
pub mod octree;
pub mod serialize;
pub mod shader_source;
pub mod time;
pub mod voxel;
