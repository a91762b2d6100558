use vstd::prelude::*;

verus! {

/// A block of the column world.
#[derive(Clone, Copy, Debug, PartialEq, Eq, Hash, Structural)]
pub enum Block {
    Air,
    Grass,
    Dirt,
    Stone,
}

pub type BlockId = Block;

impl Block {
    pub fn is_air(self) -> (r: bool)
        ensures
            r == (self == Block::Air),
    {
        match self {
            Block::Air => true,
            _ => false,
        }
    }
}

/// Atlas tiles `(column, row)` for the top, sides and bottom of a block.
#[derive(Clone, Copy, Debug)]
pub struct BlockTextureSet {
    pub top: (u32, u32),
    pub side: (u32, u32),
    pub bottom: (u32, u32),
}

/// The tiles of each block of the basic registry; empty space has none.
pub open spec fn basic_textures(b: Block) -> Option<BlockTextureSet> {
    match b {
        Block::Grass => Some(BlockTextureSet { top: (0, 0), side: (3, 0), bottom: (1, 0) }),
        Block::Dirt => Some(BlockTextureSet { top: (1, 0), side: (1, 0), bottom: (1, 0) }),
        Block::Stone => Some(BlockTextureSet { top: (2, 0), side: (2, 0), bottom: (2, 0) }),
        Block::Air => None,
    }
}

/// A lookup table from block to its atlas tiles.
pub struct BlockRegistry {
    entries: Vec<(Block, BlockTextureSet)>,
}

impl BlockRegistry {
    /// The tiles registered for `b`, if any.
    pub closed spec fn textures(&self, b: Block) -> Option<BlockTextureSet> {
        if exists|i: int| 0 <= i < self.entries@.len() && self.entries@[i].0 == b {
            Some(self.entries@[choose|i: int| 0 <= i < self.entries@.len() && self.entries@[i].0 == b].1)
        } else {
            None
        }
    }

    pub closed spec fn wf(&self) -> bool {
        forall|i: int, j: int|
            0 <= i < self.entries@.len() && 0 <= j < self.entries@.len() && i != j ==> self.entries@[i].0
                != self.entries@[j].0
    }

    /// Grass, dirt and stone with their atlas tiles.
    pub fn basic() -> (r: BlockRegistry)
        ensures
            r.wf(),
            forall|b: Block| #[trigger] r.textures(b) == basic_textures(b),
    {
        let mut entries: Vec<(Block, BlockTextureSet)> = Vec::new();
        entries.push((Block::Grass, BlockTextureSet { top: (0, 0), side: (3, 0), bottom: (1, 0) }));
        entries.push((Block::Dirt, BlockTextureSet { top: (1, 0), side: (1, 0), bottom: (1, 0) }));
        entries.push((Block::Stone, BlockTextureSet { top: (2, 0), side: (2, 0), bottom: (2, 0) }));
        let r = BlockRegistry { entries };
        proof {
            assert forall|b: Block| #[trigger] r.textures(b) == basic_textures(b) by {
                if b == Block::Grass {
                    assert(r.entries@[0].0 == b);
                } else if b == Block::Dirt {
                    assert(r.entries@[1].0 == b);
                } else if b == Block::Stone {
                    assert(r.entries@[2].0 == b);
                }
            }
        }
        r
    }

    /// The tiles registered for `b`.
    pub fn get(&self, b: BlockId) -> (r: Option<&BlockTextureSet>)
        requires
            self.wf(),
        ensures
            match r {
                Some(t) => self.textures(b) == Some(*t),
                None => self.textures(b) is None,
            },
    {
        let mut i: usize = 0;
        while i < self.entries.len()
            invariant
                self.wf(),
                i <= self.entries@.len(),
                forall|j: int| 0 <= j < i ==> self.entries@[j].0 != b,
            decreases self.entries@.len() - i,
        {
            if self.entries[i].0 == b {
                proof {
                    assert(self.entries@[i as int].0 == b);
                    let j = choose|j: int| 0 <= j < self.entries@.len() && self.entries@[j].0 == b;
                    assert(j == i);
                }
                return Some(&self.entries[i].1);
            }
            i = i + 1;
        }
        None
    }
}

} // verus!
