//! Voxel world: chunked block storage, terrain generation, grid ray traversal
//! and axis-by-axis collision resolution, with every continuous quantity held
//! as a fixed-point integer.
pub mod common;
pub mod chunk;
pub mod world;
pub mod ray;
pub mod collision;
pub mod noise;
pub mod texture;
