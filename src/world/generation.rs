use vstd::prelude::*;
use crate::world::block::Block;
use crate::world::chunk::{in_column_chunk, Chunk, CHUNK_HEIGHT, CHUNK_SIZE};

verus! {

/// A raw column height kept between 1 and two below the chunk top.
pub open spec fn clamp_height(raw: int) -> int {
    if raw < 1 {
        1
    } else if raw > CHUNK_HEIGHT - 2 {
        CHUNK_HEIGHT - 2
    } else {
        raw
    }
}

/// The block at height `y` of a column whose top is at `h`: grass on top,
/// up to six blocks of dirt under it, stone below, empty space above.
pub open spec fn column_fill(h: int, y: int) -> Block {
    let dirt = if h < 6 {
        h
    } else {
        6
    };
    if y > h {
        Block::Air
    } else if y == h {
        Block::Grass
    } else if y + dirt >= h {
        Block::Dirt
    } else {
        Block::Stone
    }
}

/// World coordinate of local column coordinate `l` in chunk column `c`.
pub fn world_sample_coord(c: i32, l: usize) -> (r: i64)
    requires
        l < CHUNK_SIZE,
    ensures
        r == c * 16 + l,
{
    c as i64 * 16 + l as i64
}

/// Fills a column chunk from raw surface heights, one per column at
/// `z * 16 + x`, each clamped to the chunk first.
pub fn fill_chunk(raw_heights: &Vec<i64>) -> (c: Chunk)
    requires
        raw_heights@.len() == CHUNK_SIZE * CHUNK_SIZE,
    ensures
        c.wf(),
        forall|x: int, y: int, z: int|
            in_column_chunk(x, y, z) ==> #[trigger] c.at(x, y, z) == column_fill(
                clamp_height(raw_heights@[z * 16 + x] as int),
                y,
            ),
{
    let mut chunk = Chunk::empty();
    let mut z: usize = 0;
    while z < CHUNK_SIZE
        invariant
            raw_heights@.len() == CHUNK_SIZE * CHUNK_SIZE,
            chunk.wf(),
            z <= CHUNK_SIZE,
            forall|xx: int, yy: int, zz: int|
                in_column_chunk(xx, yy, zz) ==> #[trigger] chunk.at(xx, yy, zz) == if zz < z {
                    column_fill(clamp_height(raw_heights@[zz * 16 + xx] as int), yy)
                } else {
                    Block::Air
                },
        decreases CHUNK_SIZE - z,
    {
        let mut x: usize = 0;
        while x < CHUNK_SIZE
            invariant
                raw_heights@.len() == CHUNK_SIZE * CHUNK_SIZE,
                chunk.wf(),
                z < CHUNK_SIZE,
                x <= CHUNK_SIZE,
                forall|xx: int, yy: int, zz: int|
                    in_column_chunk(xx, yy, zz) ==> #[trigger] chunk.at(xx, yy, zz) == if zz < z || (zz == z && xx < x) {
                        column_fill(clamp_height(raw_heights@[zz * 16 + xx] as int), yy)
                    } else {
                        Block::Air
                    },
            decreases CHUNK_SIZE - x,
        {
            let raw = raw_heights[z * 16 + x];
            let h: usize = if raw < 1 {
                1
            } else if raw > (CHUNK_HEIGHT - 2) as i64 {
                CHUNK_HEIGHT - 2
            } else {
                raw as usize
            };
            let dirt: usize = if h < 6 { h } else { 6 };
            let mut y: usize = 0;
            while y <= h
                invariant
                    raw_heights@.len() == CHUNK_SIZE * CHUNK_SIZE,
                    chunk.wf(),
                    z < CHUNK_SIZE,
                    x < CHUNK_SIZE,
                    h == clamp_height(raw_heights@[z * 16 + x] as int),
                    dirt == (if h < 6 { h } else { 6 }),
                    1 <= h <= CHUNK_HEIGHT - 2,
                    y <= h + 1,
                    forall|xx: int, yy: int, zz: int|
                        in_column_chunk(xx, yy, zz) ==> #[trigger] chunk.at(xx, yy, zz) == if zz < z || (zz == z && xx
                            < x) || (zz == z && xx == x && yy < y) {
                            column_fill(clamp_height(raw_heights@[zz * 16 + xx] as int), yy)
                        } else {
                            Block::Air
                        },
                decreases h + 1 - y,
            {
                let b = if y == h {
                    Block::Grass
                } else if y + dirt >= h {
                    Block::Dirt
                } else {
                    Block::Stone
                };
                chunk.set(x, y, z, b);
                y = y + 1;
            }
            x = x + 1;
        }
        z = z + 1;
    }
    chunk
}

} // verus!
