//! Voxel terrain core: the chunk data model, a greedy surface mesher and the
//! chunk-streaming scheduler, with their contracts proved by Verus.
pub mod voxel;
pub mod chunk;
pub mod registry;
pub mod mesh;
pub mod greedy;
pub mod spiral;
pub mod semaphore;
pub mod terrain_noise;
pub mod generator;
pub mod spawned;
