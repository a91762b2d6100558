//! The streaming voxel engine.

pub mod block;
pub mod border;
pub mod camera;
pub mod chunk;
pub mod face;
pub mod greedy;
pub mod grid;
pub mod input;
pub mod mesher;
pub mod terrain;
pub mod vertex;
pub mod world;
