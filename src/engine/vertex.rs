use vstd::prelude::*;
use crate::engine::block::{BEDROCK, DIRT, GRASS, GRAVEL, SAND, STONE, WATER};
use crate::engine::face::{face_step, Face};
use crate::engine::grid::MAX_EDGE;
use crate::engine::mesher::Quad;

verus! {

/// Tile indices of the block texture atlas.
pub const TILE_GRASS_TOP: u32 = 0;
pub const TILE_GRASS_SIDE: u32 = 1;
pub const TILE_DIRT: u32 = 2;
pub const TILE_STONE: u32 = 3;
pub const TILE_BEDROCK: u32 = 4;
pub const TILE_WATER: u32 = 5;
pub const TILE_SAND: u32 = 6;
pub const TILE_GRAVEL: u32 = 7;
pub const TILE_MISSING: u32 = 8;

/// Tiles per row of the atlas.
pub const ATLAS_TILES_PER_ROW: u32 = 16;

/// The atlas tile and the opacity in percent of a face of material `id`.
pub open spec fn texture_of(id: u8, f: Face) -> (u32, u8) {
    if id == GRASS {
        if f == Face::Top {
            (TILE_GRASS_TOP, 100)
        } else if f == Face::Bottom {
            (TILE_DIRT, 100)
        } else {
            (TILE_GRASS_SIDE, 100)
        }
    } else if id == DIRT {
        (TILE_DIRT, 100)
    } else if id == STONE {
        (TILE_STONE, 100)
    } else if id == BEDROCK {
        (TILE_BEDROCK, 100)
    } else if id == WATER {
        (TILE_WATER, 70)
    } else if id == SAND {
        (TILE_SAND, 100)
    } else if id == GRAVEL {
        (TILE_GRAVEL, 100)
    } else {
        (TILE_MISSING, 100)
    }
}

/// The atlas tile and opacity (percent) for face `f` of a block of material `block_id`.
pub fn get_block_texture(block_id: u8, f: Face) -> (r: (u32, u8))
    ensures
        r == texture_of(block_id, f),
{
    match block_id {
        GRASS => {
            match f {
                Face::Top => (TILE_GRASS_TOP, 100),
                Face::Bottom => (TILE_DIRT, 100),
                _ => (TILE_GRASS_SIDE, 100),
            }
        },
        DIRT => (TILE_DIRT, 100),
        STONE => (TILE_STONE, 100),
        BEDROCK => (TILE_BEDROCK, 100),
        WATER => (TILE_WATER, 70),
        SAND => (TILE_SAND, 100),
        GRAVEL => (TILE_GRAVEL, 100),
        _ => (TILE_MISSING, 100),
    }
}

/// Column and row of a tile in the atlas.
pub fn tile_cell(tile: u32) -> (r: (u32, u32))
    ensures
        r.0 == tile % ATLAS_TILES_PER_ROW,
        r.1 == tile / ATLAS_TILES_PER_ROW,
        r.0 < ATLAS_TILES_PER_ROW,
{
    (tile % ATLAS_TILES_PER_ROW, tile / ATLAS_TILES_PER_ROW)
}

/// One corner of a quad, in chunk-local voxel units. `uv` counts texture
/// repeats across the quad, `shade` and `alpha` are percentages.
#[derive(Clone, Copy, PartialEq, Eq, Debug)]
pub struct Vertex {
    pub pos: (i32, i32, i32),
    pub normal: (i32, i32, i32),
    pub uv: (u32, u32),
    pub tile: u32,
    pub shade: u8,
    pub alpha: u8,
}

/// Corner `k` of quad `q` and its texture coordinate, counter-clockwise as
/// seen from outside the face.
pub open spec fn corner(q: Quad, k: int) -> ((int, int, int), (int, int)) {
    let (u0, v0) = (q.u as int, q.v as int);
    let (u1, v1) = (u0 + q.w, v0 + q.h);
    let (w, h) = (q.w as int, q.h as int);
    let d = q.layer as int;
    match q.face {
        Face::Left => if k == 0 {
            ((d, u0, v0), (h, w))
        } else if k == 1 {
            ((d, u0, v1), (0, w))
        } else if k == 2 {
            ((d, u1, v1), (0, 0))
        } else {
            ((d, u1, v0), (h, 0))
        },
        Face::Right => if k == 0 {
            ((d + 1, u0, v1), (h, w))
        } else if k == 1 {
            ((d + 1, u0, v0), (0, w))
        } else if k == 2 {
            ((d + 1, u1, v0), (0, 0))
        } else {
            ((d + 1, u1, v1), (h, 0))
        },
        Face::Bottom => if k == 0 {
            ((u0, d, v0), (0, 0))
        } else if k == 1 {
            ((u1, d, v0), (w, 0))
        } else if k == 2 {
            ((u1, d, v1), (w, h))
        } else {
            ((u0, d, v1), (0, h))
        },
        Face::Top => if k == 0 {
            ((u0, d + 1, v1), (0, h))
        } else if k == 1 {
            ((u1, d + 1, v1), (w, h))
        } else if k == 2 {
            ((u1, d + 1, v0), (w, 0))
        } else {
            ((u0, d + 1, v0), (0, 0))
        },
        Face::Back => if k == 0 {
            ((u1, v0, d), (w, h))
        } else if k == 1 {
            ((u0, v0, d), (0, h))
        } else if k == 2 {
            ((u0, v1, d), (0, 0))
        } else {
            ((u1, v1, d), (w, 0))
        },
        Face::Front => if k == 0 {
            ((u0, v0, d + 1), (0, h))
        } else if k == 1 {
            ((u1, v0, d + 1), (w, h))
        } else if k == 2 {
            ((u1, v1, d + 1), (w, 0))
        } else {
            ((u0, v1, d + 1), (0, 0))
        },
    }
}

pub open spec fn shade_of(f: Face) -> u8 {
    match f {
        Face::Left | Face::Right => 70u8,
        Face::Bottom => 50u8,
        Face::Top => 100u8,
        Face::Back | Face::Front => 80u8,
    }
}

/// Vertex `k` of quad `q`.
pub open spec fn quad_vertex(q: Quad, k: int) -> Vertex {
    let (p, t) = corner(q, k);
    let n = face_step(q.face);
    let (tile, alpha) = texture_of(q.material, q.face);
    Vertex {
        pos: (p.0 as i32, p.1 as i32, p.2 as i32),
        normal: (n.0 as i32, n.1 as i32, n.2 as i32),
        uv: (t.0 as u32, t.1 as u32),
        tile,
        shade: shade_of(q.face),
        alpha,
    }
}

pub open spec fn quad_in_chunk(q: Quad) -> bool {
    &&& 1 <= q.w
    &&& 1 <= q.h
    &&& q.u + q.w <= MAX_EDGE
    &&& q.v + q.h <= MAX_EDGE
    &&& q.layer < MAX_EDGE
}

pub open spec fn sub3(a: (int, int, int), b: (int, int, int)) -> (int, int, int) {
    (a.0 - b.0, a.1 - b.1, a.2 - b.2)
}

pub open spec fn cross3(a: (int, int, int), b: (int, int, int)) -> (int, int, int) {
    (a.1 * b.2 - a.2 * b.1, a.2 * b.0 - a.0 * b.2, a.0 * b.1 - a.1 * b.0)
}

pub open spec fn dot3(a: (int, int, int), b: (int, int, int)) -> int {
    a.0 * b.0 + a.1 * b.1 + a.2 * b.2
}

/// Winding: both triangles `0-1-2` and `0-2-3` of a quad turn
/// counter-clockwise around the face's outward normal, so back-face culling
/// keeps exactly the faces seen from outside.
pub proof fn lemma_quad_winding_outward(q: Quad)
    requires
        quad_in_chunk(q),
    ensures
        dot3(cross3(sub3(corner(q, 1).0, corner(q, 0).0), sub3(corner(q, 2).0, corner(q, 0).0)), face_step(q.face)) > 0,
        dot3(cross3(sub3(corner(q, 2).0, corner(q, 0).0), sub3(corner(q, 3).0, corner(q, 0).0)), face_step(q.face)) > 0,
{
    let (w, h) = (q.w as int, q.h as int);
    assert(w * h > 0) by (nonlinear_arith)
        requires
            w >= 1,
            h >= 1,
    ;
    assert(w * h == h * w) by (nonlinear_arith);
    assert((-h) * w == -(h * w) && w * (-h) == -(w * h) && (-w) * h == -(w * h) && h * (-w) == -(h * w))
        by (nonlinear_arith);
    let c0 = corner(q, 0).0;
    let e1 = sub3(corner(q, 1).0, c0);
    let e2 = sub3(corner(q, 2).0, c0);
    let e3 = sub3(corner(q, 3).0, c0);
    match q.face {
        Face::Left => {
            assert(e1 == (0int, 0int, h) && e2 == (0int, w, h) && e3 == (0int, w, 0int));
            assert(cross3(e1, e2) == (-(h * w), 0int, 0int) && cross3(e2, e3) == (-(h * w), 0int, 0int)) by (nonlinear_arith)
                requires
                    e1 == (0int, 0int, h),
                    e2 == (0int, w, h),
                    e3 == (0int, w, 0int),
            ;
        },
        Face::Right => {
            assert(e1 == (0int, 0int, -h) && e2 == (0int, w, -h) && e3 == (0int, w, 0int));
            assert(cross3(e1, e2) == (h * w, 0int, 0int) && cross3(e2, e3) == (h * w, 0int, 0int)) by (nonlinear_arith)
                requires
                    e1 == (0int, 0int, -h),
                    e2 == (0int, w, -h),
                    e3 == (0int, w, 0int),
            ;
        },
        Face::Bottom => {
            assert(e1 == (w, 0int, 0int) && e2 == (w, 0int, h) && e3 == (0int, 0int, h));
            assert(cross3(e1, e2) == (0int, -(w * h), 0int) && cross3(e2, e3) == (0int, -(w * h), 0int)) by (nonlinear_arith)
                requires
                    e1 == (w, 0int, 0int),
                    e2 == (w, 0int, h),
                    e3 == (0int, 0int, h),
            ;
        },
        Face::Top => {
            assert(e1 == (w, 0int, 0int) && e2 == (w, 0int, -h) && e3 == (0int, 0int, -h));
            assert(cross3(e1, e2) == (0int, w * h, 0int) && cross3(e2, e3) == (0int, w * h, 0int)) by (nonlinear_arith)
                requires
                    e1 == (w, 0int, 0int),
                    e2 == (w, 0int, -h),
                    e3 == (0int, 0int, -h),
            ;
        },
        Face::Back => {
            assert(e1 == (-w, 0int, 0int) && e2 == (-w, h, 0int) && e3 == (0int, h, 0int));
            assert(cross3(e1, e2) == (0int, 0int, -(w * h)) && cross3(e2, e3) == (0int, 0int, -(w * h))) by (nonlinear_arith)
                requires
                    e1 == (-w, 0int, 0int),
                    e2 == (-w, h, 0int),
                    e3 == (0int, h, 0int),
            ;
        },
        Face::Front => {
            assert(e1 == (w, 0int, 0int) && e2 == (w, h, 0int) && e3 == (0int, h, 0int));
            assert(cross3(e1, e2) == (0int, 0int, w * h) && cross3(e2, e3) == (0int, 0int, w * h)) by (nonlinear_arith)
                requires
                    e1 == (w, 0int, 0int),
                    e2 == (w, h, 0int),
                    e3 == (0int, h, 0int),
            ;
        },
    }
}

fn vertex_of(q: Quad, k: usize) -> (r: Vertex)
    requires
        quad_in_chunk(q),
        k < 4,
    ensures
        r == quad_vertex(q, k as int),
{
    let u0 = q.u as i32;
    let v0 = q.v as i32;
    let u1 = (q.u + q.w) as i32;
    let v1 = (q.v + q.h) as i32;
    let w = q.w as u32;
    let h = q.h as u32;
    let d = q.layer as i32;
    let (pos, uv): ((i32, i32, i32), (u32, u32)) = match q.face {
        Face::Left => if k == 0 {
            ((d, u0, v0), (h, w))
        } else if k == 1 {
            ((d, u0, v1), (0, w))
        } else if k == 2 {
            ((d, u1, v1), (0, 0))
        } else {
            ((d, u1, v0), (h, 0))
        },
        Face::Right => if k == 0 {
            ((d + 1, u0, v1), (h, w))
        } else if k == 1 {
            ((d + 1, u0, v0), (0, w))
        } else if k == 2 {
            ((d + 1, u1, v0), (0, 0))
        } else {
            ((d + 1, u1, v1), (h, 0))
        },
        Face::Bottom => if k == 0 {
            ((u0, d, v0), (0, 0))
        } else if k == 1 {
            ((u1, d, v0), (w, 0))
        } else if k == 2 {
            ((u1, d, v1), (w, h))
        } else {
            ((u0, d, v1), (0, h))
        },
        Face::Top => if k == 0 {
            ((u0, d + 1, v1), (0, h))
        } else if k == 1 {
            ((u1, d + 1, v1), (w, h))
        } else if k == 2 {
            ((u1, d + 1, v0), (w, 0))
        } else {
            ((u0, d + 1, v0), (0, 0))
        },
        Face::Back => if k == 0 {
            ((u1, v0, d), (w, h))
        } else if k == 1 {
            ((u0, v0, d), (0, h))
        } else if k == 2 {
            ((u0, v1, d), (0, 0))
        } else {
            ((u1, v1, d), (w, 0))
        },
        Face::Front => if k == 0 {
            ((u0, v0, d + 1), (0, h))
        } else if k == 1 {
            ((u1, v0, d + 1), (w, h))
        } else if k == 2 {
            ((u1, v1, d + 1), (w, 0))
        } else {
            ((u0, v1, d + 1), (0, 0))
        },
    };
    let (tile, alpha) = get_block_texture(q.material, q.face);
    Vertex { pos, normal: q.face.step(), uv, tile, shade: q.face.shade_percent(), alpha }
}

/// The four vertices of each quad in turn.
pub fn mesh_vertices(quads: &Vec<Quad>) -> (r: Vec<Vertex>)
    requires
        quads@.len() <= 0x1000_0000,
        forall|i: int| 0 <= i < quads@.len() ==> quad_in_chunk(#[trigger] quads@[i]),
    ensures
        r@.len() == 4 * quads@.len(),
        forall|i: int, k: int|
            0 <= i < quads@.len() && 0 <= k < 4 ==> r@[4 * i + k] == #[trigger] quad_vertex(quads@[i], k),
{
    let mut r: Vec<Vertex> = Vec::new();
    let mut i: usize = 0;
    while i < quads.len()
        invariant
            i <= quads@.len(),
            quads@.len() <= 0x1000_0000,
            forall|j: int| 0 <= j < quads@.len() ==> quad_in_chunk(#[trigger] quads@[j]),
            r@.len() == 4 * i,
            forall|j: int, k: int|
                0 <= j < i && 0 <= k < 4 ==> r@[4 * j + k] == #[trigger] quad_vertex(quads@[j], k),
        decreases quads@.len() - i,
    {
        let q = quads[i];
        let ghost before = r@;
        let mut k: usize = 0;
        while k < 4
            invariant
                i < quads@.len(),
                q == quads@[i as int],
                quad_in_chunk(q),
                k <= 4,
                r@.len() == 4 * i + k,
                forall|j: int| 0 <= j < 4 * i ==> r@[j] == before[j],
                forall|t: int| 0 <= t < k ==> r@[4 * i + t] == quad_vertex(q, t),
            decreases 4 - k,
        {
            r.push(vertex_of(q, k));
            k = k + 1;
        }
        proof {
            assert forall|j: int, t: int|
                0 <= j < i + 1 && 0 <= t < 4 implies r@[4 * j + t] == #[trigger] quad_vertex(quads@[j], t) by {
                if j < i {
                    assert(r@[4 * j + t] == before[4 * j + t]);
                }
            }
        }
        i = i + 1;
    }
    r
}

/// Index `t` (of six) of the two triangles `0-1-2` and `0-2-3` of quad `i`.
pub open spec fn triangle_index(i: int, t: int) -> int {
    4 * i + if t == 0 || t == 3 {
        0int
    } else if t == 1 {
        1int
    } else if t == 2 || t == 4 {
        2int
    } else {
        3int
    }
}

/// Triangle indices for `n` quads of four vertices each.
pub fn mesh_indices(n: usize) -> (r: Vec<u32>)
    requires
        n <= 0x1000_0000,
    ensures
        r@.len() == 6 * n,
        forall|i: int, t: int| 0 <= i < n && 0 <= t < 6 ==> r@[6 * i + t] == #[trigger] triangle_index(i, t),
{
    let mut r: Vec<u32> = Vec::new();
    let mut i: usize = 0;
    while i < n
        invariant
            i <= n,
            n <= 0x1000_0000,
            r@.len() == 6 * i,
            forall|j: int, t: int| 0 <= j < i && 0 <= t < 6 ==> r@[6 * j + t] == #[trigger] triangle_index(j, t),
        decreases n - i,
    {
        let base = (4 * i) as u32;
        let ghost before = r@;
        r.push(base);
        r.push(base + 1);
        r.push(base + 2);
        r.push(base);
        r.push(base + 2);
        r.push(base + 3);
        proof {
            assert forall|j: int, t: int| 0 <= j < i + 1 && 0 <= t < 6 implies r@[6 * j + t] == #[trigger] triangle_index(
                j,
                t,
            ) by {
                if j < i {
                    assert(r@[6 * j + t] == before[6 * j + t]);
                }
            }
        }
        i = i + 1;
    }
    r
}

} // verus!
