//! Voxel world core: blocks, chunks, terrain column rules, greedy meshing,
//! chunk streaming and dirty-mesh scheduling.

pub mod engine;
pub mod world;
