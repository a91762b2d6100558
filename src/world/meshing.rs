use vstd::prelude::*;
use crate::world::block::{basic_textures, Block, BlockRegistry, BlockTextureSet};
use crate::world::chunk::{CHUNK_HEIGHT, CHUNK_SIZE};
use crate::world::manager::World;

verus! {

/// Largest chunk column coordinate along `x` or `z` that can be meshed.
pub const COLUMN_LIMIT: i32 = 0x10_0000;

/// The faces a column-world block can show; bottoms are never drawn.
#[derive(Clone, Copy, PartialEq, Eq, Debug, Structural)]
pub enum ColumnFace {
    Top,
    West,
    East,
    North,
    South,
}

pub open spec fn face_rank(f: ColumnFace) -> int {
    match f {
        ColumnFace::Top => 0,
        ColumnFace::West => 1,
        ColumnFace::East => 2,
        ColumnFace::North => 3,
        ColumnFace::South => 4,
    }
}

/// No two entries are the same face of the same block.
pub open spec fn faces_distinct(faces: Seq<FaceQuad>) -> bool {
    forall|i: int, j: int|
        0 <= i < faces.len() && 0 <= j < faces.len() && i != j ==> !quad_at(
            faces[i],
            faces[j].x as int,
            faces[j].y as int,
            faces[j].z as int,
            faces[j].face,
        )
}

pub open spec fn column_step(f: ColumnFace) -> (int, int, int) {
    match f {
        ColumnFace::Top => (0, 1, 0),
        ColumnFace::West => (-1, 0, 0),
        ColumnFace::East => (1, 0, 0),
        ColumnFace::North => (0, 0, -1),
        ColumnFace::South => (0, 0, 1),
    }
}

/// The block at world position `(wx, wy, wz)`: from the generated chunk
/// column holding it, or empty space if that column is missing or the
/// height is outside the world.
pub open spec fn world_block(w: World, wx: int, wy: int, wz: int) -> Block {
    if 0 <= wy < CHUNK_HEIGHT && w.has((wx / 16) as i32, (wz / 16) as i32) {
        w.chunk_at((wx / 16) as i32, (wz / 16) as i32).at(wx % 16, wy, wz % 16)
    } else {
        Block::Air
    }
}

/// Whether the block at `(wx, wy, wz)` shows face `f`: it is solid and the
/// neighbour across `f` is empty.
pub open spec fn face_shown(w: World, wx: int, wy: int, wz: int, f: ColumnFace) -> bool {
    let st = column_step(f);
    world_block(w, wx, wy, wz) != Block::Air && world_block(w, wx + st.0, wy + st.1, wz + st.2) == Block::Air
}

/// The atlas tile of face `f` of the block at `(wx, wy, wz)`: its top tile on
/// top; its side tile on the sides, except grass buried under another block,
/// which shows dirt.
pub open spec fn face_tile(w: World, wx: int, wy: int, wz: int, f: ColumnFace) -> (u32, u32) {
    let b = world_block(w, wx, wy, wz);
    let tex = basic_textures(b).unwrap();
    if f == ColumnFace::Top {
        tex.top
    } else if b == Block::Grass && !face_shown(w, wx, wy, wz, ColumnFace::Top) {
        basic_textures(Block::Dirt).unwrap().side
    } else {
        tex.side
    }
}

/// One visible block face of a column chunk, at world block coordinates.
#[derive(Clone, Copy, Debug)]
pub struct FaceQuad {
    pub x: i32,
    pub y: i32,
    pub z: i32,
    pub face: ColumnFace,
    pub tile: (u32, u32),
}

pub open spec fn quad_at(q: FaceQuad, wx: int, wy: int, wz: int, f: ColumnFace) -> bool {
    q.x == wx && q.y == wy && q.z == wz && q.face == f
}

/// Reads the world block at `(wx, wy, wz)`.
pub fn world_block_at(w: &World, wx: i32, wy: i32, wz: i32) -> (b: Block)
    requires
        w.wf(),
    ensures
        b == world_block(*w, wx as int, wy as int, wz as int),
{
    if wy < 0 || wy >= CHUNK_HEIGHT as i32 {
        return Block::Air;
    }
    let cx = crate::engine::world::chunk_coord(wx as i64, CHUNK_SIZE);
    let cz = crate::engine::world::chunk_coord(wz as i64, CHUNK_SIZE);
    let lx = wx as i64 - cx * 16;
    let lz = wz as i64 - cz * 16;
    proof {
        vstd::arithmetic::div_mod::lemma_fundamental_div_mod_converse(wx as int, 16, cx as int, lx as int);
        vstd::arithmetic::div_mod::lemma_fundamental_div_mod_converse(wz as int, 16, cz as int, lz as int);
    }
    match w.get_chunk(cx as i32, cz as i32) {
        Some(c) => {
            proof {
                w.lemma_stored_chunk_wf(cx as i32, cz as i32);
            }
            c.get(lx as usize, wy as usize, lz as usize)
        },
        None => Block::Air,
    }
}

fn textures_of(reg: &BlockRegistry, b: Block) -> (t: BlockTextureSet)
    requires
        reg.wf(),
        forall|c: Block| #[trigger] reg.textures(c) == basic_textures(c),
        b != Block::Air,
    ensures
        Some(t) == basic_textures(b),
{
    match reg.get(b) {
        Some(t) => *t,
        None => {
            assert(false);
            BlockTextureSet { top: (0, 0), side: (0, 0), bottom: (0, 0) }
        },
    }
}

pub open spec fn face_sound(w: World, q: FaceQuad) -> bool {
    &&& face_shown(w, q.x as int, q.y as int, q.z as int, q.face)
    &&& q.tile == face_tile(w, q.x as int, q.y as int, q.z as int, q.face)
}

/// Appends the visible faces of the block at `(wx, wy, wz)`.
#[verifier::rlimit(60)]
fn emit_block_faces(
    world: &World,
    reg: &BlockRegistry,
    dirt: BlockTextureSet,
    wx: i32,
    wy: i32,
    wz: i32,
    faces: &mut Vec<FaceQuad>,
)
    requires
        world.wf(),
        reg.wf(),
        forall|c: Block| #[trigger] reg.textures(c) == basic_textures(c),
        Some(dirt) == basic_textures(Block::Dirt),
        -0x1000_0000 <= wx <= 0x1000_0000,
        -0x1000_0000 <= wz <= 0x1000_0000,
        0 <= wy < CHUNK_HEIGHT,
    ensures
        final(faces)@.len() >= old(faces)@.len(),
        forall|i: int| 0 <= i < old(faces)@.len() ==> final(faces)@[i] == old(faces)@[i],
        forall|i: int|
            old(faces)@.len() <= i < final(faces)@.len() ==> face_sound(*world, #[trigger] final(faces)@[i])
                && final(faces)@[i].x == wx && final(faces)@[i].y == wy && final(faces)@[i].z == wz,
        forall|f: ColumnFace|
            #[trigger] face_shown(*world, wx as int, wy as int, wz as int, f) ==> exists|i: int|
                old(faces)@.len() <= i < final(faces)@.len() && (#[trigger] final(faces)@[i]).face == f,
        forall|i: int, j: int|
            old(faces)@.len() <= i < j < final(faces)@.len() ==> face_rank(final(faces)@[i].face) < face_rank(
                final(faces)@[j].face,
            ),
{
    let block = world_block_at(world, wx, wy, wz);
    if block == Block::Air {
        return;
    }
    let tex = textures_of(reg, block);
    let surface = world_block_at(world, wx, wy + 1, wz) == Block::Air;
    let side_tile = if block == Block::Grass && !surface {
        dirt.side
    } else {
        tex.side
    };
    let ghost start = faces@.len();
    if surface {
        append_face(faces, FaceQuad { x: wx, y: wy, z: wz, face: ColumnFace::Top, tile: tex.top }, Ghost(start as int));
    }
    let ghost after_top = faces@.len();
    if world_block_at(world, wx - 1, wy, wz) == Block::Air {
        append_face(faces, FaceQuad { x: wx, y: wy, z: wz, face: ColumnFace::West, tile: side_tile }, Ghost(start as int));
    }
    let ghost after_west = faces@.len();
    if world_block_at(world, wx + 1, wy, wz) == Block::Air {
        append_face(faces, FaceQuad { x: wx, y: wy, z: wz, face: ColumnFace::East, tile: side_tile }, Ghost(start as int));
    }
    let ghost after_east = faces@.len();
    if world_block_at(world, wx, wy, wz - 1) == Block::Air {
        append_face(faces, FaceQuad { x: wx, y: wy, z: wz, face: ColumnFace::North, tile: side_tile }, Ghost(start as int));
    }
    let ghost after_north = faces@.len();
    if world_block_at(world, wx, wy, wz + 1) == Block::Air {
        append_face(faces, FaceQuad { x: wx, y: wy, z: wz, face: ColumnFace::South, tile: side_tile }, Ghost(start as int));
    }
    proof {
        assert forall|f: ColumnFace|
            #[trigger] face_shown(*world, wx as int, wy as int, wz as int, f) implies exists|i: int|
                old(faces)@.len() <= i < faces@.len() && (#[trigger] faces@[i]).face == f by {
            match f {
                ColumnFace::Top => assert(faces@[start as int].face == f),
                ColumnFace::West => assert(faces@[after_top as int].face == f),
                ColumnFace::East => assert(faces@[after_west as int].face == f),
                ColumnFace::North => assert(faces@[after_east as int].face == f),
                ColumnFace::South => assert(faces@[after_north as int].face == f),
            }
        }
    }
}

/// Appends `q`, whose face ranks above every face appended since `start`.
fn append_face(faces: &mut Vec<FaceQuad>, q: FaceQuad, start: Ghost<int>)
    requires
        0 <= start@ <= old(faces)@.len(),
        forall|i: int| start@ <= i < old(faces)@.len() ==> face_rank(#[trigger] old(faces)@[i].face) < face_rank(q.face),
        forall|i: int, j: int|
            start@ <= i < j < old(faces)@.len() ==> face_rank(old(faces)@[i].face) < face_rank(old(faces)@[j].face),
    ensures
        final(faces)@ == old(faces)@.push(q),
        forall|i: int| start@ <= i < final(faces)@.len() ==> face_rank(#[trigger] final(faces)@[i].face) <= face_rank(q.face),
        forall|i: int, j: int|
            start@ <= i < j < final(faces)@.len() ==> face_rank(final(faces)@[i].face) < face_rank(final(faces)@[j].face),
{
    faces.push(q);
}

/// The visible faces of the blocks of chunk column `(cx, cz)`, with their
/// atlas tiles, looking across into neighbouring columns where they exist.
pub fn chunk_faces(world: &World, cx: i32, cz: i32) -> (faces: Vec<FaceQuad>)
    requires
        world.wf(),
        world.has(cx, cz),
        -COLUMN_LIMIT <= cx <= COLUMN_LIMIT,
        -COLUMN_LIMIT <= cz <= COLUMN_LIMIT,
    ensures
        forall|i: int|
            0 <= i < faces@.len() ==> {
                let q = #[trigger] faces@[i];
                &&& cx * 16 <= q.x < cx * 16 + 16
                &&& 0 <= q.y < CHUNK_HEIGHT
                &&& cz * 16 <= q.z < cz * 16 + 16
                &&& face_shown(*world, q.x as int, q.y as int, q.z as int, q.face)
                &&& q.tile == face_tile(*world, q.x as int, q.y as int, q.z as int, q.face)
            },
        forall|wx: int, wy: int, wz: int, f: ColumnFace|
            cx * 16 <= wx < cx * 16 + 16 && 0 <= wy < CHUNK_HEIGHT && cz * 16 <= wz < cz * 16 + 16
                && #[trigger] face_shown(*world, wx, wy, wz, f) ==> exists|i: int|
                0 <= i < faces@.len() && quad_at(faces@[i], wx, wy, wz, f),
        faces_distinct(faces@),
{
    let reg = BlockRegistry::basic();
    let dirt = textures_of(&reg, Block::Dirt);
    let ox = cx * 16;
    let oz = cz * 16;
    let mut faces: Vec<FaceQuad> = Vec::new();
    let mut y: i32 = 0;
    while y < CHUNK_HEIGHT as i32
        invariant
            world.wf(),
            reg.wf(),
            forall|c: Block| #[trigger] reg.textures(c) == basic_textures(c),
            Some(dirt) == basic_textures(Block::Dirt),
            ox == cx * 16,
            oz == cz * 16,
            -COLUMN_LIMIT <= cx <= COLUMN_LIMIT,
            -COLUMN_LIMIT <= cz <= COLUMN_LIMIT,
            0 <= y <= CHUNK_HEIGHT,
            faces_distinct(faces@),
            forall|i: int| 0 <= i < faces@.len() ==> (#[trigger] faces@[i]).y < y,
            forall|i: int|
                0 <= i < faces@.len() ==> {
                    let q = #[trigger] faces@[i];
                    &&& cx * 16 <= q.x < cx * 16 + 16
                    &&& 0 <= q.y < CHUNK_HEIGHT
                    &&& cz * 16 <= q.z < cz * 16 + 16
                    &&& face_shown(*world, q.x as int, q.y as int, q.z as int, q.face)
                    &&& q.tile == face_tile(*world, q.x as int, q.y as int, q.z as int, q.face)
                },
            forall|wx: int, wy: int, wz: int, f: ColumnFace|
                cx * 16 <= wx < cx * 16 + 16 && 0 <= wy < y && cz * 16 <= wz < cz * 16 + 16
                    && #[trigger] face_shown(*world, wx, wy, wz, f) ==> exists|i: int|
                    0 <= i < faces@.len() && quad_at(faces@[i], wx, wy, wz, f),
        decreases CHUNK_HEIGHT - y,
    {
        let mut z: i32 = 0;
        while z < 16
            invariant
                world.wf(),
                reg.wf(),
                forall|c: Block| #[trigger] reg.textures(c) == basic_textures(c),
                Some(dirt) == basic_textures(Block::Dirt),
                ox == cx * 16,
                oz == cz * 16,
                -COLUMN_LIMIT <= cx <= COLUMN_LIMIT,
                -COLUMN_LIMIT <= cz <= COLUMN_LIMIT,
                0 <= y < CHUNK_HEIGHT,
                0 <= z <= 16,
                faces_distinct(faces@),
                forall|i: int|
                    0 <= i < faces@.len() ==> (#[trigger] faces@[i]).y < y || (faces@[i].y == y && faces@[i].z < oz + z),
                forall|i: int|
                    0 <= i < faces@.len() ==> {
                        let q = #[trigger] faces@[i];
                        &&& cx * 16 <= q.x < cx * 16 + 16
                        &&& 0 <= q.y < CHUNK_HEIGHT
                        &&& cz * 16 <= q.z < cz * 16 + 16
                        &&& face_shown(*world, q.x as int, q.y as int, q.z as int, q.face)
                        &&& q.tile == face_tile(*world, q.x as int, q.y as int, q.z as int, q.face)
                    },
                forall|wx: int, wy: int, wz: int, f: ColumnFace|
                    cx * 16 <= wx < cx * 16 + 16 && 0 <= wy <= y && cz * 16 <= wz < cz * 16 + 16 && (wy < y || wz
                        < cz * 16 + z) && #[trigger] face_shown(*world, wx, wy, wz, f) ==> exists|i: int|
                        0 <= i < faces@.len() && quad_at(faces@[i], wx, wy, wz, f),
            decreases 16 - z,
        {
            let mut x: i32 = 0;
            while x < 16
                invariant
                    world.wf(),
                    reg.wf(),
                    forall|c: Block| #[trigger] reg.textures(c) == basic_textures(c),
                    Some(dirt) == basic_textures(Block::Dirt),
                    ox == cx * 16,
                    oz == cz * 16,
                    -COLUMN_LIMIT <= cx <= COLUMN_LIMIT,
                    -COLUMN_LIMIT <= cz <= COLUMN_LIMIT,
                    0 <= y < CHUNK_HEIGHT,
                    0 <= z < 16,
                    0 <= x <= 16,
                    faces_distinct(faces@),
                    forall|i: int|
                        0 <= i < faces@.len() ==> (#[trigger] faces@[i]).y < y || (faces@[i].y == y && (faces@[i].z < oz
                            + z || (faces@[i].z == oz + z && faces@[i].x < ox + x))),
                    forall|i: int|
                        0 <= i < faces@.len() ==> {
                            let q = #[trigger] faces@[i];
                            &&& cx * 16 <= q.x < cx * 16 + 16
                            &&& 0 <= q.y < CHUNK_HEIGHT
                            &&& cz * 16 <= q.z < cz * 16 + 16
                            &&& face_shown(*world, q.x as int, q.y as int, q.z as int, q.face)
                            &&& q.tile == face_tile(*world, q.x as int, q.y as int, q.z as int, q.face)
                        },
                    forall|wx: int, wy: int, wz: int, f: ColumnFace|
                        cx * 16 <= wx < cx * 16 + 16 && 0 <= wy <= y && cz * 16 <= wz < cz * 16 + 16 && (wy < y
                            || wz < cz * 16 + z || (wz == cz * 16 + z && wx < cx * 16 + x)) && #[trigger] face_shown(
                            *world,
                            wx,
                            wy,
                            wz,
                            f,
                        ) ==> exists|i: int| 0 <= i < faces@.len() && quad_at(faces@[i], wx, wy, wz, f),
                decreases 16 - x,
            {
                let wx = ox + x;
                let wz = oz + z;
                let ghost before = faces@;
                emit_block_faces(world, &reg, dirt, wx, y, wz, &mut faces);
                proof {
                    assert forall|i: int, j: int|
                        0 <= i < faces@.len() && 0 <= j < faces@.len() && i != j implies !quad_at(
                        faces@[i],
                        faces@[j].x as int,
                        faces@[j].y as int,
                        faces@[j].z as int,
                        faces@[j].face,
                    ) by {
                        if i < before.len() && j < before.len() {
                            assert(faces@[i] == before[i] && faces@[j] == before[j]);
                        } else if i < before.len() {
                            assert(faces@[i] == before[i]);
                        } else if j < before.len() {
                            assert(faces@[j] == before[j]);
                        } else if i < j {
                            assert(face_rank(faces@[i].face) < face_rank(faces@[j].face));
                        } else {
                            assert(face_rank(faces@[j].face) < face_rank(faces@[i].face));
                        }
                    }
                    assert forall|i: int| 0 <= i < faces@.len() implies (#[trigger] faces@[i]).y < y || (faces@[i].y == y
                        && (faces@[i].z < oz + z || (faces@[i].z == oz + z && faces@[i].x < ox + x + 1))) by {
                        if i < before.len() {
                            assert(faces@[i] == before[i]);
                        }
                    }
                    assert forall|px: int, py: int, pz: int, f: ColumnFace|
                        cx * 16 <= px < cx * 16 + 16 && 0 <= py <= y && cz * 16 <= pz < cz * 16 + 16 && (py < y
                            || pz < cz * 16 + z || (pz == cz * 16 + z && px < cx * 16 + x + 1)) && #[trigger] face_shown(
                            *world,
                            px,
                            py,
                            pz,
                            f,
                        ) implies exists|i: int| 0 <= i < faces@.len() && quad_at(faces@[i], px, py, pz, f) by {
                        if py < y || pz < cz * 16 + z || (pz == cz * 16 + z && px < cx * 16 + x) {
                            let i = choose|i: int| 0 <= i < before.len() && quad_at(before[i], px, py, pz, f);
                            assert(faces@[i] == before[i]);
                        } else {
                            let i = choose|i: int| before.len() <= i < faces@.len() && (#[trigger] faces@[i]).face == f;
                            assert(quad_at(faces@[i], px, py, pz, f));
                        }
                    }
                }
                x = x + 1;
            }
            z = z + 1;
        }
        y = y + 1;
    }
    faces
}

/// Index `t` (of six) of the two triangles `0-1-2` and `2-1-3` of face `i`.
pub open spec fn face_triangle_index(i: int, t: int) -> int {
    4 * i + if t == 0 {
        0int
    } else if t == 1 || t == 4 {
        1int
    } else if t == 2 || t == 3 {
        2int
    } else {
        3int
    }
}

/// Triangle indices for `n` faces of four vertices each.
pub fn face_indices(n: usize) -> (r: Vec<u32>)
    requires
        n <= 0x1000_0000,
    ensures
        r@.len() == 6 * n,
        forall|i: int, t: int| 0 <= i < n && 0 <= t < 6 ==> r@[6 * i + t] == #[trigger] face_triangle_index(i, t),
{
    let mut r: Vec<u32> = Vec::new();
    let mut i: usize = 0;
    while i < n
        invariant
            i <= n,
            n <= 0x1000_0000,
            r@.len() == 6 * i,
            forall|j: int, t: int| 0 <= j < i && 0 <= t < 6 ==> r@[6 * j + t] == #[trigger] face_triangle_index(j, t),
        decreases n - i,
    {
        let base = (4 * i) as u32;
        let ghost before = r@;
        r.push(base);
        r.push(base + 1);
        r.push(base + 2);
        r.push(base + 2);
        r.push(base + 1);
        r.push(base + 3);
        proof {
            assert forall|j: int, t: int| 0 <= j < i + 1 && 0 <= t < 6 implies r@[6 * j + t] == #[trigger] face_triangle_index(
                j,
                t,
            ) by {
                if j < i {
                    assert(r@[6 * j + t] == before[6 * j + t]);
                }
            }
        }
        i = i + 1;
    }
    r
}

} // verus!
