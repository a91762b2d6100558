use vstd::prelude::*;

verus! {

/// Material identifiers of solid blocks.
pub const GRASS: u8 = 1;
pub const DIRT: u8 = 2;
pub const STONE: u8 = 3;
pub const BEDROCK: u8 = 4;
pub const WATER: u8 = 5;
pub const SAND: u8 = 6;
pub const GRAVEL: u8 = 7;

/// One voxel: empty space or a solid block of some material.
#[derive(Clone, Copy, PartialEq, Eq, Debug, Structural)]
pub enum Block {
    /// Empty space
    Air,
    /// A solid block with a material id
    Solid(u8),
}

impl Block {
    pub fn is_air(&self) -> (r: bool)
        ensures
            r == (*self is Air),
    {
        match self {
            Block::Air => true,
            Block::Solid(_) => false,
        }
    }

    pub fn is_solid(&self) -> (r: bool)
        ensures
            r == (*self is Solid),
    {
        match self {
            Block::Air => false,
            Block::Solid(_) => true,
        }
    }

    pub fn block_id(&self) -> (r: Option<u8>)
        ensures
            match *self {
                Block::Solid(id) => r == Some(id),
                Block::Air => r is None,
            },
    {
        match self {
            Block::Solid(id) => Some(*id),
            Block::Air => None,
        }
    }
}

} // verus!
