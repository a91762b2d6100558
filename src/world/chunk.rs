use vstd::prelude::*;
use crate::world::block::Block;

verus! {

/// Edge of a column chunk along `x` and `z`.
pub const CHUNK_SIZE: usize = 16;
/// Height of a column chunk.
pub const CHUNK_HEIGHT: usize = 64;
/// Blocks in a column chunk.
pub const CHUNK_VOLUME: usize = 16384;

pub open spec fn in_column_chunk(x: int, y: int, z: int) -> bool {
    0 <= x < CHUNK_SIZE && 0 <= y < CHUNK_HEIGHT && 0 <= z < CHUNK_SIZE
}

/// Position of `(x, y, z)` in the block array: `y` major, then `z`, then `x`.
pub open spec fn slot(x: int, y: int, z: int) -> int {
    (y * 16 + z) * 16 + x
}

/// A 16 x 64 x 16 column of blocks.
pub struct Chunk {
    pub blocks: Vec<Block>,
}

impl Chunk {
    pub open spec fn wf(&self) -> bool {
        self.blocks@.len() == CHUNK_VOLUME
    }

    /// The block at `(x, y, z)`; outside the chunk, empty space.
    pub open spec fn at(&self, x: int, y: int, z: int) -> Block {
        if in_column_chunk(x, y, z) {
            self.blocks@[slot(x, y, z)]
        } else {
            Block::Air
        }
    }

    pub fn empty() -> (c: Chunk)
        ensures
            c.wf(),
            forall|x: int, y: int, z: int| #[trigger] c.at(x, y, z) == Block::Air,
    {
        let mut blocks: Vec<Block> = Vec::new();
        let mut i: usize = 0;
        while i < CHUNK_VOLUME
            invariant
                i <= CHUNK_VOLUME,
                blocks@.len() == i,
                forall|j: int| 0 <= j < i ==> blocks@[j] == Block::Air,
            decreases CHUNK_VOLUME - i,
        {
            blocks.push(Block::Air);
            i = i + 1;
        }
        Chunk { blocks }
    }

    pub fn get(&self, x: usize, y: usize, z: usize) -> (b: Block)
        requires
            self.wf(),
        ensures
            b == self.at(x as int, y as int, z as int),
    {
        if x < CHUNK_SIZE && z < CHUNK_SIZE && y < CHUNK_HEIGHT {
            self.blocks[(y * 16 + z) * 16 + x]
        } else {
            Block::Air
        }
    }

    pub fn set(&mut self, x: usize, y: usize, z: usize, b: Block)
        requires
            old(self).wf(),
            in_column_chunk(x as int, y as int, z as int),
        ensures
            final(self).wf(),
            forall|xx: int, yy: int, zz: int|
                #[trigger] final(self).at(xx, yy, zz) == if xx == x && yy == y && zz == z {
                    b
                } else {
                    old(self).at(xx, yy, zz)
                },
    {
        self.blocks.set((y * 16 + z) * 16 + x, b);
    }
}

} // verus!
