use vstd::prelude::*;
use crate::engine::block::{Block, BEDROCK, DIRT, GRASS, SAND, STONE, WATER};
use crate::engine::chunk::{
    in_chunk, index, lemma_voxel_index_bounds, lemma_voxel_index_injective, lemma_volume_bound, voxel_index,
    volume, ChunkPos,
};
use crate::engine::grid::{cell, lemma_area_bound, lemma_cell_bounds, lemma_cell_next_row, MAX_EDGE};

verus! {

/// The integer rules of terrain: sea level, the depth of the soil layer,
/// the bedrock band above the world floor and the lowest carvable height.
#[derive(Clone, Copy, PartialEq, Eq, Debug, Structural)]
pub struct TerrainConfig {
    pub sea_level: i32,
    pub dirt_depth: i32,
    pub bedrock_layers: i32,
    pub cave_min_y: i32,
}

impl TerrainConfig {
    /// Sea level 20, four blocks of soil, three bedrock layers, caves from height 2.
    pub fn standard() -> (c: TerrainConfig)
        ensures
            c.sea_level == 20 && c.dirt_depth == 4 && c.bedrock_layers == 3 && c.cave_min_y == 2,
    {
        TerrainConfig { sea_level: 20, dirt_depth: 4, bedrock_layers: 3, cave_min_y: 2 }
    }
}

/// What the noise fields say about one chunk: the surface height of each
/// column (`cell(size, x, z)`), and for each voxel (`voxel_index`) whether the
/// bedrock boundary noise keeps bedrock there and whether a cave passes through.
pub struct TerrainSamples {
    pub surface: Vec<i32>,
    pub bedrock: Vec<bool>,
    pub cave: Vec<bool>,
}

impl TerrainSamples {
    pub open spec fn fits(&self, size: int) -> bool {
        &&& self.surface@.len() == size * size
        &&& self.bedrock@.len() == volume(size)
        &&& self.cave@.len() == volume(size)
    }
}

/// World coordinate of local coordinate `l` in the chunk at chunk coordinate `c`.
pub open spec fn world_coord(c: int, size: int, l: int) -> int {
    c * size + l
}

/// Whether a column with surface height `surface` lies on a beach or under water.
pub open spec fn sandy(cfg: TerrainConfig, surface: int) -> bool {
    surface < cfg.sea_level || (cfg.sea_level - 2 <= surface <= cfg.sea_level + 2)
}

/// The block at world height `wy` of a column whose surface is at `surface`,
/// before caves: water up to sea level above the surface (every empty voxel at
/// or below sea level is water), bedrock at height 0 and, below the bedrock
/// band, where the boundary noise says so; then the surface block, soil, and stone.
pub open spec fn column_block(cfg: TerrainConfig, surface: int, wy: int, bedrock_hit: bool) -> Block {
    if wy > surface {
        if wy <= cfg.sea_level {
            Block::Solid(WATER)
        } else {
            Block::Air
        }
    } else if wy == 0 {
        Block::Solid(BEDROCK)
    } else if wy < cfg.bedrock_layers {
        if bedrock_hit {
            Block::Solid(BEDROCK)
        } else {
            Block::Solid(STONE)
        }
    } else if surface - wy == 0 {
        if sandy(cfg, surface) {
            Block::Solid(SAND)
        } else {
            Block::Solid(GRASS)
        }
    } else if surface - wy <= cfg.dirt_depth {
        if sandy(cfg, surface) {
            Block::Solid(SAND)
        } else {
            Block::Solid(DIRT)
        }
    } else {
        Block::Solid(STONE)
    }
}

/// A cave clears a voxel at or above the lowest carvable height unless it is
/// empty, water or bedrock.
pub open spec fn carve(cfg: TerrainConfig, b: Block, wy: int, cave: bool) -> Block {
    if wy >= cfg.cave_min_y && cave && b is Solid && b != Block::Solid(WATER) && b != Block::Solid(BEDROCK) {
        Block::Air
    } else {
        b
    }
}

pub open spec fn terrain_block(cfg: TerrainConfig, surface: int, wy: int, bedrock_hit: bool, cave: bool) -> Block {
    carve(cfg, column_block(cfg, surface, wy, bedrock_hit), wy, cave)
}

/// The generated block at local `(x, y, z)` of the chunk at `pos`.
pub open spec fn generated_block(
    cfg: TerrainConfig,
    pos: ChunkPos,
    size: int,
    samples: TerrainSamples,
    x: int,
    y: int,
    z: int,
) -> Block {
    terrain_block(
        cfg,
        samples.surface@[cell(size, x, z)] as int,
        world_coord(pos.y as int, size, y),
        samples.bedrock@[voxel_index(size, x, y, z)],
        samples.cave@[voxel_index(size, x, y, z)],
    )
}

fn column_block_exec(cfg: &TerrainConfig, surface: i64, wy: i64, bedrock_hit: bool) -> (b: Block)
    requires
        -0x1000_0000_0000 <= surface <= 0x1000_0000_0000,
        -0x1000_0000_0000 <= wy <= 0x1000_0000_0000,
    ensures
        b == column_block(*cfg, surface as int, wy as int, bedrock_hit),
{
    let sea = cfg.sea_level as i64;
    if wy > surface {
        if wy <= sea {
            Block::Solid(WATER)
        } else {
            Block::Air
        }
    } else if wy == 0 {
        Block::Solid(BEDROCK)
    } else if wy < cfg.bedrock_layers as i64 {
        if bedrock_hit {
            Block::Solid(BEDROCK)
        } else {
            Block::Solid(STONE)
        }
    } else {
        let depth = surface - wy;
        let is_sandy = surface < sea || (sea - 2 <= surface && surface <= sea + 2);
        if depth == 0 {
            if is_sandy {
                Block::Solid(SAND)
            } else {
                Block::Solid(GRASS)
            }
        } else if depth <= cfg.dirt_depth as i64 {
            if is_sandy {
                Block::Solid(SAND)
            } else {
                Block::Solid(DIRT)
            }
        } else {
            Block::Solid(STONE)
        }
    }
}

fn carve_exec(cfg: &TerrainConfig, b: Block, wy: i64, cave: bool) -> (r: Block)
    ensures
        r == carve(*cfg, b, wy as int, cave),
{
    if wy >= cfg.cave_min_y as i64 && cave {
        match b {
            Block::Solid(id) => if id == WATER || id == BEDROCK {
                b
            } else {
                Block::Air
            },
            Block::Air => b,
        }
    } else {
        b
    }
}

/// World coordinates `(x, z)` of the column at local `(x, z)` of the chunk at
/// `pos`: where the noise fields are sampled for it.
pub fn world_column(pos: ChunkPos, size: usize, x: usize, z: usize) -> (r: (i64, i64))
    requires
        1 <= size <= MAX_EDGE,
        x < size,
        z < size,
    ensures
        r.0 == world_coord(pos.x as int, size as int, x as int),
        r.1 == world_coord(pos.z as int, size as int, z as int),
{
    assert(-0x8000_0000 * 1024 <= pos.x * size <= 0x8000_0000 * 1024) by (nonlinear_arith)
        requires
            1 <= size <= 1024,
            -0x8000_0000 <= pos.x < 0x8000_0000,
    ;
    assert(-0x8000_0000 * 1024 <= pos.z * size <= 0x8000_0000 * 1024) by (nonlinear_arith)
        requires
            1 <= size <= 1024,
            -0x8000_0000 <= pos.z < 0x8000_0000,
    ;
    (pos.x as i64 * size as i64 + x as i64, pos.z as i64 * size as i64 + z as i64)
}

/// Fills the block grid of the chunk at `pos` from its noise samples: column
/// materials by height first, then caves.
pub fn generate_terrain_data(cfg: &TerrainConfig, pos: ChunkPos, size: usize, samples: &TerrainSamples) -> (blocks: Vec<Block>)
    requires
        1 <= size <= MAX_EDGE,
        samples.fits(size as int),
    ensures
        blocks@.len() == volume(size as int),
        forall|x: int, y: int, z: int|
            #![trigger voxel_index(size as int, x, y, z)]
            in_chunk(size as int, x, y, z) ==> blocks@[voxel_index(size as int, x, y, z)] == generated_block(
                *cfg,
                pos,
                size as int,
                *samples,
                x,
                y,
                z,
            ),
{
    let ghost s = size as int;
    proof {
        lemma_area_bound(s, s);
        lemma_volume_bound(s);
        assert(-0x8000_0000 * 1024 <= pos.y * s <= 0x8000_0000 * 1024) by (nonlinear_arith)
            requires
                1 <= s <= 1024,
                -0x8000_0000 <= pos.y < 0x8000_0000,
        ;
    }
    let base_y = pos.y as i64 * size as i64;
    let mut blocks: Vec<Block> = Vec::new();
    let mut y: usize = 0;
    while y < size
        invariant
            1 <= size <= MAX_EDGE,
            s == size,
            samples.fits(s),
            base_y == pos.y * s,
            -0x8000_0000 * 1024 <= base_y <= 0x8000_0000 * 1024,
            y <= size,
            blocks@.len() == voxel_index(s, 0, y as int, 0),
            forall|xx: int, yy: int, zz: int|
                #![trigger voxel_index(s, xx, yy, zz)]
                in_chunk(s, xx, yy, zz) && voxel_index(s, xx, yy, zz) < blocks@.len() ==> blocks@[voxel_index(
                    s,
                    xx,
                    yy,
                    zz,
                )] == generated_block(*cfg, pos, s, *samples, xx, yy, zz),
        decreases size - y,
    {
        let wy = base_y + y as i64;
        let mut z: usize = 0;
        while z < size
            invariant
                1 <= size <= MAX_EDGE,
                s == size,
                samples.fits(s),
                base_y == pos.y * s,
                -0x8000_0000 * 1024 <= base_y <= 0x8000_0000 * 1024,
                y < size,
                wy == base_y + y,
                z <= size,
                blocks@.len() == voxel_index(s, 0, y as int, z as int),
                forall|xx: int, yy: int, zz: int|
                    #![trigger voxel_index(s, xx, yy, zz)]
                    in_chunk(s, xx, yy, zz) && voxel_index(s, xx, yy, zz) < blocks@.len() ==> blocks@[voxel_index(
                        s,
                        xx,
                        yy,
                        zz,
                    )] == generated_block(*cfg, pos, s, *samples, xx, yy, zz),
            decreases size - z,
        {
            let mut x: usize = 0;
            while x < size
                invariant
                    1 <= size <= MAX_EDGE,
                    s == size,
                    samples.fits(s),
                    base_y == pos.y * s,
                    -0x8000_0000 * 1024 <= base_y <= 0x8000_0000 * 1024,
                    y < size,
                    z < size,
                    wy == base_y + y,
                    x <= size,
                    blocks@.len() == voxel_index(s, x as int, y as int, z as int),
                    forall|xx: int, yy: int, zz: int|
                        #![trigger voxel_index(s, xx, yy, zz)]
                        in_chunk(s, xx, yy, zz) && voxel_index(s, xx, yy, zz) < blocks@.len() ==> blocks@[voxel_index(
                            s,
                            xx,
                            yy,
                            zz,
                        )] == generated_block(*cfg, pos, s, *samples, xx, yy, zz),
                decreases size - x,
            {
                proof {
                    lemma_cell_bounds(s, s, x as int, z as int);
                    lemma_area_bound(s, s);
                }
                let surface = samples.surface[z * size + x];
                let i = index(size, x, y, z);
                let column = column_block_exec(cfg, surface as i64, wy, samples.bedrock[i]);
                let b = carve_exec(cfg, column, wy, samples.cave[i]);
                let ghost before = blocks@;
                blocks.push(b);
                proof {
                    assert forall|xx: int, yy: int, zz: int|
                        #![trigger voxel_index(s, xx, yy, zz)]
                        in_chunk(s, xx, yy, zz) && voxel_index(s, xx, yy, zz) < blocks@.len() implies blocks@[voxel_index(
                        s,
                        xx,
                        yy,
                        zz,
                    )] == generated_block(*cfg, pos, s, *samples, xx, yy, zz) by {
                        if voxel_index(s, xx, yy, zz) == before.len() {
                            lemma_voxel_index_injective(s, xx, yy, zz, x as int, y as int, z as int);
                        } else {
                            assert(blocks@[voxel_index(s, xx, yy, zz)] == before[voxel_index(s, xx, yy, zz)]);
                        }
                    }
                }
                x = x + 1;
            }
            proof {
                lemma_cell_next_row(s, cell(s, z as int, y as int));
                assert(cell(s, z as int, y as int) + 1 == cell(s, z as int + 1, y as int));
            }
            z = z + 1;
        }
        proof {
            lemma_cell_next_row(s, y as int);
            assert(voxel_index(s, 0, y as int, s) == cell(s, 0, cell(s, s, y as int)));
        }
        y = y + 1;
    }
    proof {
        assert(voxel_index(s, 0, s, 0) == volume(s)) by (nonlinear_arith)
            requires
                voxel_index(s, 0, s, 0) == (s * s + 0) * s + 0,
        ;
        assert forall|xx: int, yy: int, zz: int|
            #![trigger voxel_index(s, xx, yy, zz)]
            in_chunk(s, xx, yy, zz) implies blocks@[voxel_index(s, xx, yy, zz)] == generated_block(
            *cfg,
            pos,
            s,
            *samples,
            xx,
            yy,
            zz,
        ) by {
            lemma_voxel_index_bounds(s, xx, yy, zz);
        }
    }
    blocks
}

/// Seamless terrain: a chunk's surface samples are taken at world
/// coordinates. When two chunks' samples both come from one world-space height
/// field, stacked chunks sample the very same heights in every column, and at
/// the seam between neighbours along `x` (or `z`) the two boundary columns hold
/// the heights of two adjacent world columns.
pub proof fn lemma_seamless_columns(
    height: spec_fn(int, int) -> i32,
    size: int,
    p: ChunkPos,
    q: ChunkPos,
    sp: Seq<i32>,
    sq: Seq<i32>,
)
    requires
        1 <= size <= MAX_EDGE,
        forall|x: int, z: int|
            0 <= x < size && 0 <= z < size ==> #[trigger] sp[cell(size, x, z)] == height(
                world_coord(p.x as int, size, x),
                world_coord(p.z as int, size, z),
            ),
        forall|x: int, z: int|
            0 <= x < size && 0 <= z < size ==> #[trigger] sq[cell(size, x, z)] == height(
                world_coord(q.x as int, size, x),
                world_coord(q.z as int, size, z),
            ),
    ensures
        q.x == p.x && q.z == p.z ==> forall|x: int, z: int|
            0 <= x < size && 0 <= z < size ==> #[trigger] sp[cell(size, x, z)] == sq[cell(size, x, z)],
        q.x == p.x + 1 && q.z == p.z ==> forall|z: int|
            0 <= z < size ==> #[trigger] sp[cell(size, size - 1, z)] == height(
                world_coord(p.x as int, size, size - 1),
                world_coord(p.z as int, size, z),
            ) && sq[cell(size, 0, z)] == height(
                world_coord(p.x as int, size, size - 1) + 1,
                world_coord(p.z as int, size, z),
            ),
        q.z == p.z + 1 && q.x == p.x ==> forall|x: int|
            0 <= x < size ==> #[trigger] sp[cell(size, x, size - 1)] == height(
                world_coord(p.x as int, size, x),
                world_coord(p.z as int, size, size - 1),
            ) && sq[cell(size, x, 0)] == height(
                world_coord(p.x as int, size, x),
                world_coord(p.z as int, size, size - 1) + 1,
            ),
{
    assert(p.x * size + size == (p.x + 1) * size) by (nonlinear_arith);
    assert(p.z * size + size == (p.z + 1) * size) by (nonlinear_arith);
    if q.x == p.x + 1 && q.z == p.z {
        assert forall|z: int| 0 <= z < size implies #[trigger] sp[cell(size, size - 1, z)] == height(
            world_coord(p.x as int, size, size - 1),
            world_coord(p.z as int, size, z),
        ) && sq[cell(size, 0, z)] == height(
            world_coord(p.x as int, size, size - 1) + 1,
            world_coord(p.z as int, size, z),
        ) by {
            assert(sq[cell(size, 0, z)] == height(world_coord(q.x as int, size, 0), world_coord(q.z as int, size, z)));
        }
    }
    if q.z == p.z + 1 && q.x == p.x {
        assert forall|x: int| 0 <= x < size implies #[trigger] sp[cell(size, x, size - 1)] == height(
            world_coord(p.x as int, size, x),
            world_coord(p.z as int, size, size - 1),
        ) && sq[cell(size, x, 0)] == height(
            world_coord(p.x as int, size, x),
            world_coord(p.z as int, size, size - 1) + 1,
        ) by {
            assert(sq[cell(size, x, 0)] == height(world_coord(q.x as int, size, x), world_coord(q.z as int, size, 0)));
        }
    }
}

/// The block at world position `(wx, wy, wz)` given world-space noise fields:
/// surface height per column, bedrock boundary and caves per voxel.
pub open spec fn world_terrain(
    cfg: TerrainConfig,
    height: spec_fn(int, int) -> i32,
    bedrock: spec_fn(int, int, int) -> bool,
    cave: spec_fn(int, int, int) -> bool,
    wx: int,
    wy: int,
    wz: int,
) -> Block {
    terrain_block(cfg, height(wx, wz) as int, wy, bedrock(wx, wy, wz), cave(wx, wy, wz))
}

/// The chunk's samples were read from the world-space fields at world coordinates.
pub open spec fn sampled_from(
    pos: ChunkPos,
    size: int,
    samples: TerrainSamples,
    height: spec_fn(int, int) -> i32,
    bedrock: spec_fn(int, int, int) -> bool,
    cave: spec_fn(int, int, int) -> bool,
) -> bool {
    &&& samples.fits(size)
    &&& forall|x: int, z: int|
        0 <= x < size && 0 <= z < size ==> #[trigger] samples.surface@[cell(size, x, z)] == height(
            world_coord(pos.x as int, size, x),
            world_coord(pos.z as int, size, z),
        )
    &&& forall|x: int, y: int, z: int|
        in_chunk(size, x, y, z) ==> samples.bedrock@[#[trigger] voxel_index(size, x, y, z)] == bedrock(
            world_coord(pos.x as int, size, x),
            world_coord(pos.y as int, size, y),
            world_coord(pos.z as int, size, z),
        ) && samples.cave@[voxel_index(size, x, y, z)] == cave(
            world_coord(pos.x as int, size, x),
            world_coord(pos.y as int, size, y),
            world_coord(pos.z as int, size, z),
        )
}

/// Terrain is one world-space function: when every chunk samples the same
/// world-space fields, each generated block depends on its world position
/// alone, whichever chunk holds it.
pub proof fn lemma_terrain_is_world_function(
    cfg: TerrainConfig,
    pos: ChunkPos,
    size: int,
    samples: TerrainSamples,
    height: spec_fn(int, int) -> i32,
    bedrock: spec_fn(int, int, int) -> bool,
    cave: spec_fn(int, int, int) -> bool,
    x: int,
    y: int,
    z: int,
)
    requires
        sampled_from(pos, size, samples, height, bedrock, cave),
        in_chunk(size, x, y, z),
    ensures
        generated_block(cfg, pos, size, samples, x, y, z) == world_terrain(
            cfg,
            height,
            bedrock,
            cave,
            world_coord(pos.x as int, size, x),
            world_coord(pos.y as int, size, y),
            world_coord(pos.z as int, size, z),
        ),
{
    assert(samples.surface@[cell(size, x, z)] == height(
        world_coord(pos.x as int, size, x),
        world_coord(pos.z as int, size, z),
    ));
    assert(samples.bedrock@[voxel_index(size, x, y, z)] == bedrock(
        world_coord(pos.x as int, size, x),
        world_coord(pos.y as int, size, y),
        world_coord(pos.z as int, size, z),
    ));
}

} // verus!
