//! A simpler column world: fixed-height chunks on a horizontal grid, meshed
//! face by face.

pub mod block;
pub mod chunk;
pub mod generation;
pub mod manager;
pub mod meshing;
