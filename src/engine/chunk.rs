use vstd::prelude::*;
use crate::engine::block::{Block, WATER};
use crate::engine::grid::{cell, lemma_area_bound, lemma_cell_bounds, lemma_cell_injective, MAX_EDGE};
use crate::engine::border::NeighborBorder;
use crate::engine::mesher::{build_meshes, meshes_exact, ChunkMesh, Quad};

verus! {

/// Default edge length of a chunk, in voxels.
pub const CHUNK_SIZE: usize = 32;

/// Position of a chunk in chunk coordinates.
#[derive(Clone, Copy, PartialEq, Eq, Debug, Hash, Structural)]
pub struct ChunkPos {
    pub x: i32,
    pub y: i32,
    pub z: i32,
}

/// Position of voxel `(x, y, z)` in a chunk of edge `s`: `y` major, then `z`, then `x`.
pub open spec fn voxel_index(s: int, x: int, y: int, z: int) -> int {
    cell(s, x, cell(s, z, y))
}

pub open spec fn in_chunk(s: int, x: int, y: int, z: int) -> bool {
    0 <= x < s && 0 <= y < s && 0 <= z < s
}

pub open spec fn volume(s: int) -> int {
    s * (s * s)
}

pub proof fn lemma_voxel_index_bounds(s: int, x: int, y: int, z: int)
    requires
        in_chunk(s, x, y, z),
    ensures
        0 <= voxel_index(s, x, y, z) < volume(s),
{
    lemma_cell_bounds(s, s, z, y);
    lemma_cell_bounds(s, s * s, x, cell(s, z, y));
}

pub proof fn lemma_voxel_index_injective(s: int, x: int, y: int, z: int, x2: int, y2: int, z2: int)
    requires
        in_chunk(s, x, y, z),
        in_chunk(s, x2, y2, z2),
        voxel_index(s, x, y, z) == voxel_index(s, x2, y2, z2),
    ensures
        x == x2 && y == y2 && z == z2,
{
    lemma_cell_bounds(s, s, z, y);
    lemma_cell_bounds(s, s, z2, y2);
    lemma_cell_injective(s, x, cell(s, z, y), x2, cell(s, z2, y2));
    lemma_cell_injective(s, z, y, z2, y2);
}

pub proof fn lemma_volume_bound(s: int)
    requires
        1 <= s <= MAX_EDGE,
    ensures
        1 <= volume(s) <= 0x4000_0000,
{
    assert(1 <= s * (s * s) <= 0x4000_0000) by (nonlinear_arith)
        requires
            1 <= s <= 1024,
    ;
}

/// Position of voxel `(x, y, z)` in the block array of a chunk of edge `size`.
pub fn index(size: usize, x: usize, y: usize, z: usize) -> (r: usize)
    requires
        1 <= size <= MAX_EDGE,
        in_chunk(size as int, x as int, y as int, z as int),
    ensures
        r == voxel_index(size as int, x as int, y as int, z as int),
        r < volume(size as int),
{
    proof {
        lemma_voxel_index_bounds(size as int, x as int, y as int, z as int);
        lemma_cell_bounds(size as int, size as int, z as int, y as int);
        lemma_area_bound(size as int, size as int);
        lemma_volume_bound(size as int);
    }
    (y * size + z) * size + x
}

pub open spec fn transparent(b: Block) -> bool {
    b == Block::Solid(WATER)
}

/// Returns true if the block lets light through (water).
pub fn is_transparent(block: Block) -> (r: bool)
    ensures
        r == transparent(block),
{
    match block {
        Block::Solid(id) => id == WATER,
        Block::Air => false,
    }
}

/// A cubic section of the world: its blocks, the cached meshes built from
/// them, and whether those meshes are stale.
pub struct Chunk {
    pub pos: ChunkPos,
    pub size: usize,
    pub blocks: Vec<Block>,
    pub mesh: Option<ChunkMesh>,
    pub transparent_mesh: Option<ChunkMesh>,
    pub dirty: bool,
}

/// The quads of a cached mesh; no mesh has none.
pub open spec fn mesh_quads(m: Option<ChunkMesh>) -> Seq<Quad> {
    match m {
        Some(mesh) => mesh.quads@,
        None => Seq::empty(),
    }
}

/// A mesh is cached only when it has quads.
pub open spec fn mesh_cached(m: Option<ChunkMesh>) -> bool {
    m is Some ==> m.unwrap().quads@.len() > 0
}

impl Chunk {
    pub open spec fn wf(&self) -> bool {
        &&& 1 <= self.size <= MAX_EDGE
        &&& self.blocks@.len() == volume(self.size as int)
    }

    pub open spec fn block_at(&self, x: int, y: int, z: int) -> Block {
        self.blocks@[voxel_index(self.size as int, x, y, z)]
    }

    /// An empty chunk of the default size, waiting for its first mesh build.
    pub fn new(pos: ChunkPos) -> (c: Chunk)
        ensures
            c.wf(),
            c.pos == pos,
            c.size == CHUNK_SIZE,
            c.dirty,
            c.mesh is None,
            c.transparent_mesh is None,
            forall|i: int| 0 <= i < c.blocks@.len() ==> c.blocks@[i] == Block::Air,
    {
        Chunk::with_size(pos, CHUNK_SIZE)
    }

    /// An empty chunk with edge `size`.
    pub fn with_size(pos: ChunkPos, size: usize) -> (c: Chunk)
        requires
            1 <= size <= MAX_EDGE,
        ensures
            c.wf(),
            c.pos == pos,
            c.size == size,
            c.dirty,
            c.mesh is None,
            c.transparent_mesh is None,
            forall|i: int| 0 <= i < c.blocks@.len() ==> c.blocks@[i] == Block::Air,
    {
        proof {
            lemma_volume_bound(size as int);
            lemma_area_bound(size as int, size as int);
        }
        let n = size * (size * size);
        let mut blocks: Vec<Block> = Vec::new();
        let mut i: usize = 0;
        while i < n
            invariant
                i <= n,
                blocks@.len() == i,
                forall|j: int| 0 <= j < i ==> blocks@[j] == Block::Air,
            decreases n - i,
        {
            blocks.push(Block::Air);
            i = i + 1;
        }
        Chunk { pos, size, blocks, mesh: None, transparent_mesh: None, dirty: true }
    }

    /// A chunk holding `blocks` as generated, marked for its first mesh build.
    pub fn from_blocks(pos: ChunkPos, size: usize, blocks: Vec<Block>) -> (c: Chunk)
        requires
            1 <= size <= MAX_EDGE,
            blocks@.len() == volume(size as int),
        ensures
            c.wf(),
            c.pos == pos,
            c.size == size,
            c.blocks@ == blocks@,
            c.dirty,
            c.mesh is None,
            c.transparent_mesh is None,
    {
        Chunk { pos, size, blocks, mesh: None, transparent_mesh: None, dirty: true }
    }

    pub fn set_block(&mut self, x: usize, y: usize, z: usize, b: Block)
        requires
            old(self).wf(),
            in_chunk(old(self).size as int, x as int, y as int, z as int),
        ensures
            final(self).wf(),
            final(self).pos == old(self).pos,
            final(self).size == old(self).size,
            final(self).blocks@ == old(self).blocks@.update(
                voxel_index(old(self).size as int, x as int, y as int, z as int),
                b,
            ),
            final(self).mesh == old(self).mesh,
            final(self).transparent_mesh == old(self).transparent_mesh,
            final(self).dirty,
    {
        let i = index(self.size, x, y, z);
        self.blocks.set(i, b);
        self.dirty = true;
    }

    /// World block coordinates of the chunk's minimum corner.
    pub fn origin(&self) -> (r: (i64, i64, i64))
        requires
            self.wf(),
        ensures
            r.0 == self.pos.x * self.size,
            r.1 == self.pos.y * self.size,
            r.2 == self.pos.z * self.size,
    {
        let s = self.size as i64;
        proof {
            assert(-0x8000_0000 * 1024 <= self.pos.x * self.size <= 0x8000_0000 * 1024) by (nonlinear_arith)
                requires
                    1 <= self.size <= 1024,
                    -0x8000_0000 <= self.pos.x < 0x8000_0000,
            ;
            assert(-0x8000_0000 * 1024 <= self.pos.y * self.size <= 0x8000_0000 * 1024) by (nonlinear_arith)
                requires
                    1 <= self.size <= 1024,
                    -0x8000_0000 <= self.pos.y < 0x8000_0000,
            ;
            assert(-0x8000_0000 * 1024 <= self.pos.z * self.size <= 0x8000_0000 * 1024) by (nonlinear_arith)
                requires
                    1 <= self.size <= 1024,
                    -0x8000_0000 <= self.pos.z < 0x8000_0000,
            ;
        }
        (self.pos.x as i64 * s, self.pos.y as i64 * s, self.pos.z as i64 * s)
    }

    pub fn get_block(&self, x: usize, y: usize, z: usize) -> (b: Block)
        requires
            self.wf(),
            in_chunk(self.size as int, x as int, y as int, z as int),
        ensures
            b == self.block_at(x as int, y as int, z as int),
    {
        self.blocks[index(self.size, x, y, z)]
    }

    /// Rebuilds the cached meshes of a dirty chunk from its blocks and the
    /// border snapshot of its neighbours, and clears the dirty flag. A clean
    /// chunk is left as it is.
    pub fn rebuild_mesh(&mut self, border: &NeighborBorder)
        requires
            old(self).wf(),
            border.wf(),
            border.size == old(self).size,
        ensures
            final(self).wf(),
            final(self).pos == old(self).pos,
            final(self).size == old(self).size,
            final(self).blocks@ == old(self).blocks@,
            !final(self).dirty,
            old(self).dirty ==> meshes_exact(
                old(self).blocks@,
                *border,
                mesh_quads(final(self).mesh),
                mesh_quads(final(self).transparent_mesh),
            ) && mesh_cached(final(self).mesh) && mesh_cached(final(self).transparent_mesh),
            !old(self).dirty ==> final(self).mesh == old(self).mesh && final(self).transparent_mesh == old(
                self,
            ).transparent_mesh,
    {
        if !self.dirty {
            return;
        }
        let (opaque, clear) = build_meshes(&self.blocks, border);
        self.mesh = if opaque.len() == 0 {
            None
        } else {
            Some(ChunkMesh { quads: opaque })
        };
        self.transparent_mesh = if clear.len() == 0 {
            None
        } else {
            Some(ChunkMesh { quads: clear })
        };
        proof {
            assert(mesh_quads(self.mesh) =~= opaque@);
            assert(mesh_quads(self.transparent_mesh) =~= clear@);
        }
        self.dirty = false;
    }
}

} // verus!
