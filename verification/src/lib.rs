//! Sparse voxel octrees for a voxel renderer: chunk trees built from voxel
//! models, a grid of chunks, and the breadth-first flattening of a region of
//! the grid into the flat node buffer that the shader walks.

pub mod bits;
pub mod error;
pub mod flatten;
pub mod gpu;
pub mod input;
pub mod laws;
pub mod loader;
pub mod reader;
pub mod region;
pub mod scene;
pub mod settings;
pub mod stager;
pub mod tree;
pub mod vox;
