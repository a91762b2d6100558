use vstd::prelude::*;
use crate::engine::block::{Block, WATER};
use crate::engine::border::{get_block_from_neighbors_with_blocks, lookup, NeighborBorder};
use crate::engine::chunk::{transparent, volume};
use crate::engine::face::{face_index, face_step, slice_voxel, Face};
use crate::engine::greedy::{
    covered, covered_before, covers, exact_cover, full_rect, greedy_order, greedy_rects, key_at, raster_before,
    rect_sound, row_stops, uniform, Rect,
};
use crate::engine::grid::{cell, lemma_area_bound, lemma_cell_next_row, lemma_cell_raster};

verus! {

/// Whether a voxel `cur` shows its face toward the neighbouring voxel `nb`:
/// a transparent voxel only toward empty space, an opaque one toward empty
/// space or a transparent voxel. Empty space shows no face.
pub open spec fn shows_face(cur: Block, nb: Block) -> bool {
    &&& cur is Solid
    &&& if transparent(cur) {
        nb is Air
    } else {
        nb is Air || transparent(nb)
    }
}

/// Mask key of a block: its material plus one, and 0 for empty space.
pub open spec fn block_key(b: Block) -> u16 {
    match b {
        Block::Solid(m) => (m + 1) as u16,
        Block::Air => 0,
    }
}

/// The voxel at cell `(u, v)` of layer `d` for faces of direction `f`.
pub open spec fn slice_block(blocks: Seq<Block>, border: NeighborBorder, f: Face, d: int, u: int, v: int) -> Block {
    let p = slice_voxel(f, d, u, v);
    lookup(blocks, border, p.0, p.1, p.2)
}

/// The voxel one step across face `f` from cell `(u, v)` of layer `d`.
pub open spec fn across_block(blocks: Seq<Block>, border: NeighborBorder, f: Face, d: int, u: int, v: int) -> Block {
    let p = slice_voxel(f, d, u, v);
    let st = face_step(f);
    lookup(blocks, border, p.0 + st.0, p.1 + st.1, p.2 + st.2)
}

/// Whether the `f` face of that voxel is visible.
pub open spec fn exposed(blocks: Seq<Block>, border: NeighborBorder, f: Face, d: int, u: int, v: int) -> bool {
    shows_face(slice_block(blocks, border, f, d, u, v), across_block(blocks, border, f, d, u, v))
}

/// The mask key of cell `(u, v)` of layer `d` for direction `f`.
pub open spec fn slice_key(blocks: Seq<Block>, border: NeighborBorder, f: Face, d: int, u: int, v: int) -> u16 {
    if exposed(blocks, border, f, d, u, v) {
        block_key(slice_block(blocks, border, f, d, u, v))
    } else {
        0
    }
}

/// One merged face: the rectangle `u .. u + w` x `v .. v + h` of layer
/// `layer` for faces of direction `face`, all of material `material`.
#[derive(Clone, Copy, PartialEq, Eq, Debug, Structural)]
pub struct Quad {
    pub face: Face,
    pub layer: usize,
    pub u: usize,
    pub v: usize,
    pub w: usize,
    pub h: usize,
    pub material: u8,
}

/// A chunk's cached mesh: its merged quads.
pub struct ChunkMesh {
    pub quads: Vec<Quad>,
}

pub open spec fn quad_covers(q: Quad, f: Face, d: int, u: int, v: int) -> bool {
    &&& q.face == f
    &&& q.layer == d
    &&& q.u <= u < q.u + q.w
    &&& q.v <= v < q.v + q.h
}

/// The quad lies in its layer, and every face it covers is visible and of its material.
pub open spec fn quad_sound(blocks: Seq<Block>, border: NeighborBorder, q: Quad) -> bool {
    let s = border.size as int;
    &&& 1 <= q.w
    &&& 1 <= q.h
    &&& q.u + q.w <= s
    &&& q.v + q.h <= s
    &&& q.layer < s
    &&& forall|u: int, v: int|
        #[trigger] quad_covers(q, q.face, q.layer as int, u, v) ==> exposed(
            blocks,
            border,
            q.face,
            q.layer as int,
            u,
            v,
        ) && slice_block(blocks, border, q.face, q.layer as int, u, v) == Block::Solid(q.material)
}

/// Whether quads of material `m` belong in the transparent mesh (`tl`) or the opaque one.
pub open spec fn belongs(tl: bool, m: u8) -> bool {
    (m == WATER) == tl
}

pub open spec fn mesh_sound(blocks: Seq<Block>, border: NeighborBorder, qs: Seq<Quad>, tl: bool) -> bool {
    forall|i: int|
        0 <= i < qs.len() ==> quad_sound(blocks, border, #[trigger] qs[i]) && belongs(tl, qs[i].material)
}

pub open spec fn mesh_disjoint(qs: Seq<Quad>) -> bool {
    forall|i: int, j: int, f: Face, d: int, u: int, v: int|
        #![trigger quad_covers(qs[i], f, d, u, v), quad_covers(qs[j], f, d, u, v)]
        0 <= i < qs.len() && 0 <= j < qs.len() && i != j && quad_covers(qs[i], f, d, u, v)
            ==> !quad_covers(qs[j], f, d, u, v)
}

pub open spec fn mesh_covered(qs: Seq<Quad>, f: Face, d: int, u: int, v: int) -> bool {
    exists|i: int| 0 <= i < qs.len() && #[trigger] quad_covers(qs[i], f, d, u, v)
}

/// Every cell of the slice shows a face of one and the same material.
pub open spec fn slice_uniform(blocks: Seq<Block>, border: NeighborBorder, f: Face, d: int) -> bool {
    let s = border.size as int;
    &&& slice_key(blocks, border, f, d, 0, 0) != 0
    &&& forall|u: int, v: int|
        0 <= u < s && 0 <= v < s ==> #[trigger] slice_key(blocks, border, f, d, u, v) == slice_key(
            blocks,
            border,
            f,
            d,
            0,
            0,
        )
}

/// The quad covering the whole of layer `d` for direction `f`.
pub open spec fn full_quad(blocks: Seq<Block>, border: NeighborBorder, f: Face, d: int) -> Quad {
    Quad {
        face: f,
        layer: d as usize,
        u: 0,
        v: 0,
        w: border.size,
        h: border.size,
        material: (slice_key(blocks, border, f, d, 0, 0) - 1) as u8,
    }
}

/// `q` is in `qs` and is its only quad of layer `d` for direction `f`.
pub open spec fn only_quad(qs: Seq<Quad>, f: Face, d: int, q: Quad) -> bool {
    &&& exists|i: int| 0 <= i < qs.len() && qs[i] == q
    &&& forall|i: int| 0 <= i < qs.len() && (#[trigger] qs[i]).face == f && qs[i].layer == d ==> qs[i] == q
}

/// Quad `p` lies in the same slice as `q`, starts before it in raster order,
/// and covers `(u, v)`.
pub open spec fn earlier_cover(p: Quad, q: Quad, u: int, v: int) -> bool {
    &&& p.face == q.face
    &&& p.layer == q.layer
    &&& raster_before(p.u as int, p.v as int, q.u as int, q.v as int)
    &&& quad_covers(p, q.face, q.layer as int, u, v)
}

/// Some quad of either mesh covers `(u, v)` of `q`'s slice and starts before `q`.
pub open spec fn covered_earlier(opaque: Seq<Quad>, clear: Seq<Quad>, q: Quad, u: int, v: int) -> bool {
    (exists|i: int| 0 <= i < opaque.len() && #[trigger] earlier_cover(opaque[i], q, u, v)) || (exists|i: int|
        0 <= i < clear.len() && #[trigger] earlier_cover(clear[i], q, u, v))
}

/// Cell `t` of the row just past `q` shows another key, or an earlier quad covers it.
pub open spec fn quad_row_stops(
    blocks: Seq<Block>,
    border: NeighborBorder,
    opaque: Seq<Quad>,
    clear: Seq<Quad>,
    q: Quad,
    t: int,
) -> bool {
    slice_key(blocks, border, q.face, q.layer as int, q.u + t, q.v + q.h) != (q.material + 1) as u16
        || covered_earlier(opaque, clear, q, q.u + t, q.v + q.h)
}

/// `q` is a quad of the greedy scan of its slice: its corner is the first
/// visible cell that no earlier quad covers, it is as wide as its first row
/// allows, and as tall as whole rows of that width allow.
pub open spec fn quad_greedy(blocks: Seq<Block>, border: NeighborBorder, opaque: Seq<Quad>, clear: Seq<Quad>, q: Quad) -> bool {
    let s = border.size as int;
    &&& forall|u: int, v: int|
        0 <= u < s && 0 <= v < s && raster_before(u, v, q.u as int, q.v as int) && slice_key(
            blocks,
            border,
            q.face,
            q.layer as int,
            u,
            v,
        ) != 0 ==> #[trigger] covered_earlier(opaque, clear, q, u, v)
    &&& q.u + q.w == s || slice_key(blocks, border, q.face, q.layer as int, q.u + q.w, q.v as int) != (q.material
        + 1) as u16 || covered_earlier(opaque, clear, q, q.u + q.w, q.v as int)
    &&& q.v + q.h == s || exists|t: int| 0 <= t < q.w && #[trigger] quad_row_stops(blocks, border, opaque, clear, q, t)
}

pub open spec fn meshes_greedy(blocks: Seq<Block>, border: NeighborBorder, opaque: Seq<Quad>, clear: Seq<Quad>) -> bool {
    &&& forall|i: int| 0 <= i < opaque.len() ==> quad_greedy(blocks, border, opaque, clear, #[trigger] opaque[i])
    &&& forall|i: int| 0 <= i < clear.len() ==> quad_greedy(blocks, border, opaque, clear, #[trigger] clear[i])
}

proof fn lemma_covered_earlier_grows(o: Seq<Quad>, c: Seq<Quad>, o2: Seq<Quad>, c2: Seq<Quad>, q: Quad, u: int, v: int)
    requires
        o.len() <= o2.len(),
        c.len() <= c2.len(),
        forall|i: int| 0 <= i < o.len() ==> o2[i] == o[i],
        forall|i: int| 0 <= i < c.len() ==> c2[i] == c[i],
        covered_earlier(o, c, q, u, v),
    ensures
        covered_earlier(o2, c2, q, u, v),
{
    if exists|i: int| 0 <= i < o.len() && #[trigger] earlier_cover(o[i], q, u, v) {
        let i = choose|i: int| 0 <= i < o.len() && #[trigger] earlier_cover(o[i], q, u, v);
        assert(earlier_cover(o2[i], q, u, v));
    } else {
        let i = choose|i: int| 0 <= i < c.len() && #[trigger] earlier_cover(c[i], q, u, v);
        assert(earlier_cover(c2[i], q, u, v));
    }
}

/// Growing both meshes keeps a quad greedy.
proof fn lemma_quad_greedy_grows(
    blocks: Seq<Block>,
    border: NeighborBorder,
    o: Seq<Quad>,
    c: Seq<Quad>,
    o2: Seq<Quad>,
    c2: Seq<Quad>,
    q: Quad,
)
    requires
        o.len() <= o2.len(),
        c.len() <= c2.len(),
        forall|i: int| 0 <= i < o.len() ==> o2[i] == o[i],
        forall|i: int| 0 <= i < c.len() ==> c2[i] == c[i],
        quad_greedy(blocks, border, o, c, q),
    ensures
        quad_greedy(blocks, border, o2, c2, q),
{
    let s = border.size as int;
    assert forall|u: int, v: int|
        0 <= u < s && 0 <= v < s && raster_before(u, v, q.u as int, q.v as int) && slice_key(
            blocks,
            border,
            q.face,
            q.layer as int,
            u,
            v,
        ) != 0 implies #[trigger] covered_earlier(o2, c2, q, u, v) by {
        assert(covered_earlier(o, c, q, u, v));
        lemma_covered_earlier_grows(o, c, o2, c2, q, u, v);
    }
    if covered_earlier(o, c, q, q.u + q.w, q.v as int) {
        lemma_covered_earlier_grows(o, c, o2, c2, q, q.u + q.w, q.v as int);
    }
    if q.v + q.h != s {
        let t = choose|t: int| 0 <= t < q.w && #[trigger] quad_row_stops(blocks, border, o, c, q, t);
        if covered_earlier(o, c, q, q.u + t, q.v + q.h) {
            lemma_covered_earlier_grows(o, c, o2, c2, q, q.u + t, q.v + q.h);
        }
        assert(quad_row_stops(blocks, border, o2, c2, q, t));
    }
}

/// The opaque and transparent meshes of a chunk: each sound and without
/// overlap, and together covering every visible face, each in the mesh of its
/// voxel's transparency class. A layer whose faces are all visible and of one
/// material is a single quad.
pub open spec fn meshes_exact(blocks: Seq<Block>, border: NeighborBorder, opaque: Seq<Quad>, clear: Seq<Quad>) -> bool {
    let s = border.size as int;
    &&& mesh_sound(blocks, border, opaque, false)
    &&& mesh_sound(blocks, border, clear, true)
    &&& mesh_disjoint(opaque)
    &&& mesh_disjoint(clear)
    &&& meshes_greedy(blocks, border, opaque, clear)
    &&& forall|f: Face, d: int, u: int, v: int|
        0 <= d < s && 0 <= u < s && 0 <= v < s && #[trigger] exposed(blocks, border, f, d, u, v) ==> if transparent(
            slice_block(blocks, border, f, d, u, v),
        ) {
            mesh_covered(clear, f, d, u, v)
        } else {
            mesh_covered(opaque, f, d, u, v)
        }
    &&& forall|f: Face, d: int|
        0 <= d < s && #[trigger] slice_uniform(blocks, border, f, d) ==> if full_quad(
            blocks,
            border,
            f,
            d,
        ).material == WATER {
            only_quad(clear, f, d, full_quad(blocks, border, f, d))
        } else {
            only_quad(opaque, f, d, full_quad(blocks, border, f, d))
        }
}

fn shows(cur: Block, nb: Block) -> (r: bool)
    ensures
        r == shows_face(cur, nb),
{
    match cur {
        Block::Air => false,
        Block::Solid(m) => if m == WATER {
            nb == Block::Air
        } else {
            match nb {
                Block::Air => true,
                Block::Solid(n) => n == WATER,
            }
        },
    }
}

/// The mask key of cell `(u, v)` of layer `d` for direction `f`.
fn face_key(blocks: &Vec<Block>, border: &NeighborBorder, f: Face, d: usize, u: usize, v: usize) -> (k: u16)
    requires
        border.wf(),
        blocks@.len() == volume(border.size as int),
        d < border.size,
        u < border.size,
        v < border.size,
    ensures
        k == slice_key(blocks@, *border, f, d as int, u as int, v as int),
{
    let (x, y, z): (i32, i32, i32) = match f {
        Face::Left | Face::Right => (d as i32, u as i32, v as i32),
        Face::Bottom | Face::Top => (u as i32, d as i32, v as i32),
        Face::Back | Face::Front => (u as i32, v as i32, d as i32),
    };
    let (dx, dy, dz) = f.step();
    let cur = get_block_from_neighbors_with_blocks(x, y, z, border, blocks);
    let nb = get_block_from_neighbors_with_blocks(x + dx, y + dy, z + dz, border, blocks);
    if shows(cur, nb) {
        match cur {
            Block::Solid(m) => m as u16 + 1,
            Block::Air => 0,
        }
    } else {
        0
    }
}

/// The visibility mask of layer `d` for direction `f`, row-major over `(u, v)`.
fn slice_mask(blocks: &Vec<Block>, border: &NeighborBorder, f: Face, d: usize) -> (mask: Vec<u16>)
    requires
        border.wf(),
        blocks@.len() == volume(border.size as int),
        d < border.size,
    ensures
        mask@.len() == border.size * border.size,
        forall|u: int, v: int|
            0 <= u < border.size && 0 <= v < border.size ==> #[trigger] key_at(mask@, border.size as int, u, v)
                == slice_key(blocks@, *border, f, d as int, u, v),
{
    let s = border.size;
    let ghost si = s as int;
    proof {
        lemma_area_bound(si, si);
    }
    let mut mask: Vec<u16> = Vec::new();
    let mut v: usize = 0;
    while v < s
        invariant
            border.wf(),
            blocks@.len() == volume(border.size as int),
            d < border.size,
            s == border.size,
            si == s,
            v <= s,
            mask@.len() == cell(si, 0, v as int),
            forall|uu: int, vv: int|
                0 <= uu < s && 0 <= vv < v ==> #[trigger] key_at(mask@, si, uu, vv) == slice_key(
                    blocks@,
                    *border,
                    f,
                    d as int,
                    uu,
                    vv,
                ),
        decreases s - v,
    {
        let mut u: usize = 0;
        while u < s
            invariant
                border.wf(),
                blocks@.len() == volume(border.size as int),
                d < border.size,
                s == border.size,
                si == s,
                v < s,
                u <= s,
                mask@.len() == cell(si, u as int, v as int),
                forall|uu: int, vv: int|
                    0 <= uu < s && 0 <= vv <= v && (vv < v || uu < u) ==> #[trigger] key_at(mask@, si, uu, vv)
                        == slice_key(blocks@, *border, f, d as int, uu, vv),
            decreases s - u,
        {
            let k = face_key(blocks, border, f, d, u, v);
            let ghost before = mask@;
            mask.push(k);
            proof {
                assert forall|uu: int, vv: int|
                    0 <= uu < s && 0 <= vv <= v && (vv < v || uu < u + 1) implies #[trigger] key_at(
                    mask@,
                    si,
                    uu,
                    vv,
                ) == slice_key(blocks@, *border, f, d as int, uu, vv) by {
                    if vv < v || uu < u {
                        lemma_cell_raster(si, u as int, v as int, uu, vv);
                        assert(mask@[cell(si, uu, vv)] == before[cell(si, uu, vv)]);
                        assert(key_at(before, si, uu, vv) == slice_key(blocks@, *border, f, d as int, uu, vv));
                    } else {
                        assert(mask@[cell(si, uu, vv)] == k);
                    }
                }
            }
            u = u + 1;
        }
        proof {
            lemma_cell_next_row(si, v as int);
        }
        v = v + 1;
    }
    mask
}

pub open spec fn quad_of(r: Rect, f: Face, d: int) -> Quad {
    Quad { face: f, layer: d as usize, u: r.u, v: r.v, w: r.w, h: r.h, material: (r.key - 1) as u8 }
}


proof fn lemma_key_block(b: Block, k: u16)
    requires
        block_key(b) == k,
        k != 0,
    ensures
        b == Block::Solid((k - 1) as u8),
{
}

/// Every quad built from a sound rectangle of a slice's mask is sound.
proof fn lemma_rect_quad_sound(
    blocks: Seq<Block>,
    border: NeighborBorder,
    mask: Seq<u16>,
    f: Face,
    d: int,
    r: Rect,
)
    requires
        0 <= d < border.size,
        forall|u: int, v: int|
            0 <= u < border.size && 0 <= v < border.size ==> #[trigger] key_at(mask, border.size as int, u, v)
                == slice_key(blocks, border, f, d, u, v),
        rect_sound(mask, border.size as int, border.size as int, r),
    ensures
        quad_sound(blocks, border, quad_of(r, f, d)),
        1 <= r.key <= 256,
{
    let q = quad_of(r, f, d);
    let s = border.size as int;
    assert(covers(r, r.u as int, r.v as int));
    assert(key_at(mask, s, r.u as int, r.v as int) == r.key);
    assert forall|u: int, v: int| #[trigger] quad_covers(q, q.face, q.layer as int, u, v) implies exposed(
        blocks,
        border,
        q.face,
        q.layer as int,
        u,
        v,
    ) && slice_block(blocks, border, q.face, q.layer as int, u, v) == Block::Solid(q.material) by {
        assert(covers(r, u, v));
        assert(key_at(mask, s, u, v) == r.key);
        lemma_key_block(slice_block(blocks, border, f, d, u, v), r.key);
    }
}

pub open spec fn fresh_covered(qs: Seq<Quad>, from: int, f: Face, d: int, u: int, v: int) -> bool {
    exists|i: int| from <= i < qs.len() && #[trigger] quad_covers(qs[i], f, d, u, v)
}

/// Every rectangle of the slice's greedy scan became a quad of one of the meshes.
pub open spec fn rects_placed(rs: Seq<Rect>, f: Face, d: int, o: Seq<Quad>, c: Seq<Quad>) -> bool {
    forall|k: int|
        0 <= k < rs.len() ==> (exists|a: int| 0 <= a < o.len() && o[a] == #[trigger] quad_of(rs[k], f, d)) || (exists|a: int|
            0 <= a < c.len() && c[a] == quad_of(rs[k], f, d))
}

proof fn lemma_before_to_earlier(rs: Seq<Rect>, f: Face, d: int, o: Seq<Quad>, c: Seq<Quad>, j: int, u: int, v: int)
    requires
        0 <= j < rs.len(),
        rects_placed(rs, f, d, o, c),
        forall|i: int, k: int|
            0 <= i < k < rs.len() ==> raster_before(rs[i].u as int, rs[i].v as int, rs[k].u as int, rs[k].v as int),
        covered_before(rs, j, u, v),
    ensures
        covered_earlier(o, c, quad_of(rs[j], f, d), u, v),
{
    let q = quad_of(rs[j], f, d);
    let k = choose|k: int| 0 <= k < j && #[trigger] covers(rs[k], u, v);
    let p = quad_of(rs[k], f, d);
    assert(earlier_cover(p, q, u, v));
    if exists|a: int| 0 <= a < o.len() && o[a] == p {
        let a = choose|a: int| 0 <= a < o.len() && o[a] == p;
        assert(earlier_cover(o[a], q, u, v));
    } else {
        let a = choose|a: int| 0 <= a < c.len() && c[a] == p;
        assert(earlier_cover(c[a], q, u, v));
    }
}

/// A quad made from a rectangle of the slice's greedy scan is greedy.
proof fn lemma_slice_quad_greedy(
    blocks: Seq<Block>,
    border: NeighborBorder,
    mask: Seq<u16>,
    rs: Seq<Rect>,
    f: Face,
    d: int,
    o: Seq<Quad>,
    c: Seq<Quad>,
    j: int,
)
    requires
        0 <= d < border.size,
        forall|u: int, v: int|
            0 <= u < border.size && 0 <= v < border.size ==> #[trigger] key_at(mask, border.size as int, u, v)
                == slice_key(blocks, border, f, d, u, v),
        exact_cover(mask, border.size as int, border.size as int, rs),
        greedy_order(mask, border.size as int, border.size as int, rs),
        0 <= j < rs.len(),
        rects_placed(rs, f, d, o, c),
    ensures
        quad_greedy(blocks, border, o, c, quad_of(rs[j], f, d)),
{
    let s = border.size as int;
    let r = rs[j];
    let q = quad_of(r, f, d);
    assert(rect_sound(mask, s, s, r));
    assert(covers(r, r.u as int, r.v as int));
    assert(key_at(mask, s, r.u as int, r.v as int) == r.key);
    assert((q.material + 1) as u16 == r.key);
    assert forall|u: int, v: int|
        0 <= u < s && 0 <= v < s && raster_before(u, v, q.u as int, q.v as int) && slice_key(
            blocks,
            border,
            q.face,
            q.layer as int,
            u,
            v,
        ) != 0 implies #[trigger] covered_earlier(o, c, q, u, v) by {
        assert(key_at(mask, s, u, v) != 0);
        assert(covered_before(rs, j, u, v));
        lemma_before_to_earlier(rs, f, d, o, c, j, u, v);
    }
    if r.u + r.w != s {
        assert(key_at(mask, s, r.u + r.w, r.v as int) == slice_key(blocks, border, f, d, r.u + r.w, r.v as int));
        if covered_before(rs, j, r.u + r.w, r.v as int) {
            lemma_before_to_earlier(rs, f, d, o, c, j, r.u + r.w, r.v as int);
        }
    }
    if r.v + r.h != s {
        assert(rs[j] == r);
        let t = choose|t: int| 0 <= t < r.w && #[trigger] row_stops(mask, s, rs, j, t);
        assert(key_at(mask, s, r.u + t, r.v + r.h) == slice_key(blocks, border, f, d, r.u + t, r.v + r.h));
        if covered_before(rs, j, r.u + t, r.v + r.h) {
            lemma_before_to_earlier(rs, f, d, o, c, j, r.u + t, r.v + r.h);
        }
        assert(quad_row_stops(blocks, border, o, c, q, t));
    }
}

/// What meshing one slice appends to a mesh list that held `before`.
pub open spec fn slice_appended(
    blocks: Seq<Block>,
    border: NeighborBorder,
    f: Face,
    d: int,
    before: Seq<Quad>,
    after: Seq<Quad>,
    tl: bool,
) -> bool {
    &&& after.len() >= before.len()
    &&& forall|i: int| 0 <= i < before.len() ==> after[i] == before[i]
    &&& forall|i: int|
        before.len() <= i < after.len() ==> (#[trigger] after[i]).face == f && after[i].layer == d
            && quad_sound(blocks, border, after[i]) && belongs(tl, after[i].material)
    &&& forall|i: int, j: int, u: int, v: int|
        #![trigger quad_covers(after[i], f, d, u, v), quad_covers(after[j], f, d, u, v)]
        before.len() <= i < after.len() && before.len() <= j < after.len() && i != j && quad_covers(
            after[i],
            f,
            d,
            u,
            v,
        ) ==> !quad_covers(after[j], f, d, u, v)
}

/// Greedy-meshes layer `d` of direction `f`, appending opaque quads to
/// `opaque` and transparent ones to `clear`.
fn mesh_slice(
    blocks: &Vec<Block>,
    border: &NeighborBorder,
    f: Face,
    d: usize,
    opaque: &mut Vec<Quad>,
    clear: &mut Vec<Quad>,
)
    requires
        border.wf(),
        blocks@.len() == volume(border.size as int),
        d < border.size,
    ensures
        slice_appended(blocks@, *border, f, d as int, old(opaque)@, final(opaque)@, false),
        slice_appended(blocks@, *border, f, d as int, old(clear)@, final(clear)@, true),
        forall|i: int|
            old(opaque)@.len() <= i < final(opaque)@.len() ==> quad_greedy(
                blocks@,
                *border,
                final(opaque)@,
                final(clear)@,
                #[trigger] final(opaque)@[i],
            ),
        forall|i: int|
            old(clear)@.len() <= i < final(clear)@.len() ==> quad_greedy(
                blocks@,
                *border,
                final(opaque)@,
                final(clear)@,
                #[trigger] final(clear)@[i],
            ),
        forall|u: int, v: int|
            0 <= u < border.size && 0 <= v < border.size && #[trigger] exposed(blocks@, *border, f, d as int, u, v)
                ==> if transparent(slice_block(blocks@, *border, f, d as int, u, v)) {
                fresh_covered(final(clear)@, old(clear)@.len() as int, f, d as int, u, v)
            } else {
                fresh_covered(final(opaque)@, old(opaque)@.len() as int, f, d as int, u, v)
            },
        slice_uniform(blocks@, *border, f, d as int) ==> if full_quad(blocks@, *border, f, d as int).material
            == WATER {
            final(opaque)@.len() == old(opaque)@.len() && final(clear)@ == old(clear)@.push(
                full_quad(blocks@, *border, f, d as int),
            )
        } else {
            final(clear)@.len() == old(clear)@.len() && final(opaque)@ == old(opaque)@.push(
                full_quad(blocks@, *border, f, d as int),
            )
        },
{
    let s = border.size;
    let ghost si = s as int;
    let ghost di = d as int;
    let mask = slice_mask(blocks, border, f, d);
    let rs = greedy_rects(&mask, s, s);
    let ghost o0 = opaque@;
    let ghost c0 = clear@;
    let ghost mut src_o: Seq<int> = Seq::empty();
    let ghost mut src_c: Seq<int> = Seq::empty();
    let mut i: usize = 0;
    while i < rs.len()
        invariant
            border.wf(),
            s == border.size,
            si == s,
            di == d,
            d < s,
            mask@.len() == si * si,
            forall|u: int, v: int|
                0 <= u < si && 0 <= v < si ==> #[trigger] key_at(mask@, si, u, v) == slice_key(
                    blocks@,
                    *border,
                    f,
                    di,
                    u,
                    v,
                ),
            exact_cover(mask@, si, si, rs@),
            greedy_order(mask@, si, si, rs@),
            i <= rs.len(),
            opaque@.len() == o0.len() + src_o.len(),
            clear@.len() == c0.len() + src_c.len(),
            src_o.len() + src_c.len() == i,
            forall|k: int| 0 <= k < o0.len() ==> opaque@[k] == o0[k],
            forall|k: int| 0 <= k < c0.len() ==> clear@[k] == c0[k],
            forall|k: int|
                0 <= k < src_o.len() ==> 0 <= #[trigger] src_o[k] < i && opaque@[o0.len() + k] == quad_of(
                    rs@[src_o[k]],
                    f,
                    di,
                ) && rs@[src_o[k]].key - 1 != WATER,
            forall|k: int|
                0 <= k < src_c.len() ==> 0 <= #[trigger] src_c[k] < i && clear@[c0.len() + k] == quad_of(
                    rs@[src_c[k]],
                    f,
                    di,
                ) && rs@[src_c[k]].key - 1 == WATER,
            forall|k1: int, k2: int| 0 <= k1 < k2 < src_o.len() ==> src_o[k1] < src_o[k2],
            forall|k1: int, k2: int| 0 <= k1 < k2 < src_c.len() ==> src_c[k1] < src_c[k2],
            forall|j: int|
                0 <= j < i ==> if rs@[j].key - 1 == WATER {
                    exists|k: int| 0 <= k < src_c.len() && src_c[k] == j
                } else {
                    exists|k: int| 0 <= k < src_o.len() && src_o[k] == j
                },
        decreases rs.len() - i,
    {
        let r = rs[i];
        assert(rect_sound(mask@, si, si, rs@[i as int]));
        proof {
            lemma_rect_quad_sound(blocks@, *border, mask@, f, di, r);
        }
        let q = Quad { face: f, layer: d, u: r.u, v: r.v, w: r.w, h: r.h, material: (r.key - 1) as u8 };
        let ghost prev_o = src_o;
        let ghost prev_c = src_c;
        if r.key == WATER as u16 + 1 {
            clear.push(q);
            proof {
                src_c = src_c.push(i as int);
                assert(src_c[src_c.len() - 1] == i);
            }
        } else {
            opaque.push(q);
            proof {
                src_o = src_o.push(i as int);
                assert(src_o[src_o.len() - 1] == i);
            }
        }
        proof {
            assert forall|j: int| 0 <= j < i + 1 implies if rs@[j].key - 1 == WATER {
                exists|k: int| 0 <= k < src_c.len() && src_c[k] == j
            } else {
                exists|k: int| 0 <= k < src_o.len() && src_o[k] == j
            } by {
                if j < i {
                    if rs@[j].key - 1 == WATER {
                        let k = choose|k: int| 0 <= k < prev_c.len() && prev_c[k] == j;
                        assert(src_c[k] == j);
                    } else {
                        let k = choose|k: int| 0 <= k < prev_o.len() && prev_o[k] == j;
                        assert(src_o[k] == j);
                    }
                } else if rs@[j].key - 1 == WATER {
                    assert(src_c[src_c.len() - 1] == j);
                } else {
                    assert(src_o[src_o.len() - 1] == j);
                }
            }
        }
        i = i + 1;
    }
    proof {
        assert forall|k: int| 0 <= k < rs@.len() implies (exists|a: int|
            0 <= a < opaque@.len() && opaque@[a] == #[trigger] quad_of(rs@[k], f, di)) || (exists|a: int|
            0 <= a < clear@.len() && clear@[a] == quad_of(rs@[k], f, di)) by {
            if rs@[k].key - 1 == WATER {
                let m = choose|m: int| 0 <= m < src_c.len() && src_c[m] == k;
                assert(clear@[c0.len() + m] == quad_of(rs@[k], f, di));
            } else {
                let m = choose|m: int| 0 <= m < src_o.len() && src_o[m] == k;
                assert(opaque@[o0.len() + m] == quad_of(rs@[k], f, di));
            }
        }
        assert(rects_placed(rs@, f, di, opaque@, clear@));
        assert forall|i: int| o0.len() <= i < opaque@.len() implies quad_greedy(
            blocks@,
            *border,
            opaque@,
            clear@,
            #[trigger] opaque@[i],
        ) by {
            lemma_slice_quad_greedy(blocks@, *border, mask@, rs@, f, di, opaque@, clear@, src_o[i - o0.len()]);
        }
        assert forall|i: int| c0.len() <= i < clear@.len() implies quad_greedy(
            blocks@,
            *border,
            opaque@,
            clear@,
            #[trigger] clear@[i],
        ) by {
            lemma_slice_quad_greedy(blocks@, *border, mask@, rs@, f, di, opaque@, clear@, src_c[i - c0.len()]);
        }
        // soundness and disjointness of the appended quads
        assert forall|k: int|
            o0.len() <= k < opaque@.len() implies (#[trigger] opaque@[k]).face == f && opaque@[k].layer == di
            && quad_sound(blocks@, *border, opaque@[k]) && belongs(false, opaque@[k].material) by {
            let j = src_o[k - o0.len()];
            lemma_rect_quad_sound(blocks@, *border, mask@, f, di, rs@[j]);
        }
        assert forall|k: int|
            c0.len() <= k < clear@.len() implies (#[trigger] clear@[k]).face == f && clear@[k].layer == di
            && quad_sound(blocks@, *border, clear@[k]) && belongs(true, clear@[k].material) by {
            let j = src_c[k - c0.len()];
            lemma_rect_quad_sound(blocks@, *border, mask@, f, di, rs@[j]);
        }
        assert forall|a: int, b: int, u: int, v: int|
            #![trigger quad_covers(opaque@[a], f, di, u, v), quad_covers(opaque@[b], f, di, u, v)]
            o0.len() <= a < opaque@.len() && o0.len() <= b < opaque@.len() && a != b && quad_covers(
                opaque@[a],
                f,
                di,
                u,
                v,
            ) implies !quad_covers(opaque@[b], f, di, u, v) by {
            let ja = src_o[a - o0.len()];
            let jb = src_o[b - o0.len()];
            assert(covers(rs@[ja], u, v));
            if quad_covers(opaque@[b], f, di, u, v) {
                assert(covers(rs@[jb], u, v));
            }
        }
        assert forall|a: int, b: int, u: int, v: int|
            #![trigger quad_covers(clear@[a], f, di, u, v), quad_covers(clear@[b], f, di, u, v)]
            c0.len() <= a < clear@.len() && c0.len() <= b < clear@.len() && a != b && quad_covers(
                clear@[a],
                f,
                di,
                u,
                v,
            ) implies !quad_covers(clear@[b], f, di, u, v) by {
            let ja = src_c[a - c0.len()];
            let jb = src_c[b - c0.len()];
            assert(covers(rs@[ja], u, v));
            if quad_covers(clear@[b], f, di, u, v) {
                assert(covers(rs@[jb], u, v));
            }
        }
        // every visible face of the slice is covered
        assert forall|u: int, v: int|
            0 <= u < si && 0 <= v < si && #[trigger] exposed(blocks@, *border, f, di, u, v) implies if transparent(
                slice_block(blocks@, *border, f, di, u, v),
            ) {
                fresh_covered(clear@, c0.len() as int, f, di, u, v)
            } else {
                fresh_covered(opaque@, o0.len() as int, f, di, u, v)
            } by {
            let b = slice_block(blocks@, *border, f, di, u, v);
            assert(key_at(mask@, si, u, v) == block_key(b));
            assert(covered(rs@, u, v));
            let j = choose|j: int| 0 <= j < rs@.len() && #[trigger] covers(rs@[j], u, v);
            assert(rect_sound(mask@, si, si, rs@[j]));
            lemma_key_block(b, rs@[j].key);
            if rs@[j].key - 1 == WATER {
                let k = choose|k: int| 0 <= k < src_c.len() && src_c[k] == j;
                assert(quad_covers(clear@[c0.len() + k], f, di, u, v));
            } else {
                let k = choose|k: int| 0 <= k < src_o.len() && src_o[k] == j;
                assert(quad_covers(opaque@[o0.len() + k], f, di, u, v));
            }
        }
        // a uniform slice gives the single full quad
        if slice_uniform(blocks@, *border, f, di) {
            assert(key_at(mask@, si, 0, 0) == slice_key(blocks@, *border, f, di, 0, 0));
            assert(uniform(mask@, si, si));
            assert(rs@ == seq![full_rect(mask@, si, si)]);
            assert(quad_of(rs@[0], f, di) == full_quad(blocks@, *border, f, di));
            if full_quad(blocks@, *border, f, di).material == WATER {
                let k = choose|k: int| 0 <= k < src_c.len() && src_c[k] == 0;
                assert(src_c.len() == 1);
                assert(clear@ =~= c0.push(full_quad(blocks@, *border, f, di)));
            } else {
                let k = choose|k: int| 0 <= k < src_o.len() && src_o[k] == 0;
                assert(src_o.len() == 1);
                assert(opaque@ =~= o0.push(full_quad(blocks@, *border, f, di)));
            }
        }
    }
}

/// Whether layer `d` of direction `f` comes before layer `dn` of the direction with index `fi`.
pub open spec fn done_before(f: Face, d: int, fi: int, dn: int) -> bool {
    face_index(f) < fi || (face_index(f) == fi && d < dn)
}

spec fn build_state(
    blocks: Seq<Block>,
    border: NeighborBorder,
    opaque: Seq<Quad>,
    clear: Seq<Quad>,
    fi: int,
    dn: int,
) -> bool {
    let s = border.size as int;
    &&& mesh_sound(blocks, border, opaque, false)
    &&& mesh_sound(blocks, border, clear, true)
    &&& mesh_disjoint(opaque)
    &&& mesh_disjoint(clear)
    &&& meshes_greedy(blocks, border, opaque, clear)
    &&& forall|i: int| 0 <= i < opaque.len() ==> done_before((#[trigger] opaque[i]).face, opaque[i].layer as int, fi, dn)
    &&& forall|i: int| 0 <= i < clear.len() ==> done_before((#[trigger] clear[i]).face, clear[i].layer as int, fi, dn)
    &&& forall|f: Face, d: int, u: int, v: int|
        0 <= d < s && 0 <= u < s && 0 <= v < s && done_before(f, d, fi, dn) && #[trigger] exposed(
            blocks,
            border,
            f,
            d,
            u,
            v,
        ) ==> if transparent(slice_block(blocks, border, f, d, u, v)) {
            mesh_covered(clear, f, d, u, v)
        } else {
            mesh_covered(opaque, f, d, u, v)
        }
    &&& forall|f: Face, d: int|
        0 <= d < s && done_before(f, d, fi, dn) && #[trigger] slice_uniform(blocks, border, f, d) ==> if full_quad(
            blocks,
            border,
            f,
            d,
        ).material == WATER {
            only_quad(clear, f, d, full_quad(blocks, border, f, d))
        } else {
            only_quad(opaque, f, d, full_quad(blocks, border, f, d))
        }
}

proof fn lemma_append_slice(
    blocks: Seq<Block>,
    border: NeighborBorder,
    f: Face,
    d: int,
    o0: Seq<Quad>,
    c0: Seq<Quad>,
    o1: Seq<Quad>,
    c1: Seq<Quad>,
)
    requires
        0 <= d < border.size,
        build_state(blocks, border, o0, c0, face_index(f), d),
        slice_appended(blocks, border, f, d, o0, o1, false),
        slice_appended(blocks, border, f, d, c0, c1, true),
        forall|i: int| o0.len() <= i < o1.len() ==> quad_greedy(blocks, border, o1, c1, #[trigger] o1[i]),
        forall|i: int| c0.len() <= i < c1.len() ==> quad_greedy(blocks, border, o1, c1, #[trigger] c1[i]),
        forall|u: int, v: int|
            0 <= u < border.size && 0 <= v < border.size && #[trigger] exposed(blocks, border, f, d, u, v)
                ==> if transparent(slice_block(blocks, border, f, d, u, v)) {
                fresh_covered(c1, c0.len() as int, f, d, u, v)
            } else {
                fresh_covered(o1, o0.len() as int, f, d, u, v)
            },
        slice_uniform(blocks, border, f, d) ==> if full_quad(blocks, border, f, d).material == WATER {
            o1.len() == o0.len() && c1 == c0.push(full_quad(blocks, border, f, d))
        } else {
            c1.len() == c0.len() && o1 == o0.push(full_quad(blocks, border, f, d))
        },
    ensures
        build_state(blocks, border, o1, c1, face_index(f), d + 1),
{
    let s = border.size as int;
    let fi = face_index(f);
    lemma_append_list(blocks, border, f, d, o0, o1, false);
    lemma_append_list(blocks, border, f, d, c0, c1, true);
    assert forall|i: int| 0 <= i < o1.len() implies quad_greedy(blocks, border, o1, c1, #[trigger] o1[i]) by {
        if i < o0.len() {
            assert(o1[i] == o0[i]);
            assert(quad_greedy(blocks, border, o0, c0, o0[i]));
            lemma_quad_greedy_grows(blocks, border, o0, c0, o1, c1, o0[i]);
        }
    }
    assert forall|i: int| 0 <= i < c1.len() implies quad_greedy(blocks, border, o1, c1, #[trigger] c1[i]) by {
        if i < c0.len() {
            assert(c1[i] == c0[i]);
            assert(quad_greedy(blocks, border, o0, c0, c0[i]));
            lemma_quad_greedy_grows(blocks, border, o0, c0, o1, c1, c0[i]);
        }
    }
    assert forall|g: Face, e: int, u: int, v: int|
        0 <= e < s && 0 <= u < s && 0 <= v < s && done_before(g, e, fi, d + 1) && #[trigger] exposed(
            blocks,
            border,
            g,
            e,
            u,
            v,
        ) implies if transparent(slice_block(blocks, border, g, e, u, v)) {
        mesh_covered(c1, g, e, u, v)
    } else {
        mesh_covered(o1, g, e, u, v)
    } by {
        if g == f && e == d {
            if transparent(slice_block(blocks, border, g, e, u, v)) {
                let i = choose|i: int| c0.len() <= i < c1.len() && #[trigger] quad_covers(c1[i], f, d, u, v);
            } else {
                let i = choose|i: int| o0.len() <= i < o1.len() && #[trigger] quad_covers(o1[i], f, d, u, v);
            }
        } else {
            assert(done_before(g, e, fi, d));
            if transparent(slice_block(blocks, border, g, e, u, v)) {
                let i = choose|i: int| 0 <= i < c0.len() && #[trigger] quad_covers(c0[i], g, e, u, v);
                assert(c1[i] == c0[i]);
            } else {
                let i = choose|i: int| 0 <= i < o0.len() && #[trigger] quad_covers(o0[i], g, e, u, v);
                assert(o1[i] == o0[i]);
            }
        }
    }
    assert forall|g: Face, e: int|
        0 <= e < s && done_before(g, e, fi, d + 1) && #[trigger] slice_uniform(blocks, border, g, e) implies if full_quad(
            blocks,
            border,
            g,
            e,
        ).material == WATER {
        only_quad(c1, g, e, full_quad(blocks, border, g, e))
    } else {
        only_quad(o1, g, e, full_quad(blocks, border, g, e))
    } by {
        let q = full_quad(blocks, border, g, e);
        if g == f && e == d {
            if q.material == WATER {
                assert(c1[c0.len() as int] == q);
                assert forall|i: int| 0 <= i < c1.len() && (#[trigger] c1[i]).face == g && c1[i].layer == e implies c1[i] == q by {
                    if i < c0.len() {
                        assert(done_before(c0[i].face, c0[i].layer as int, fi, d));
                    }
                }
            } else {
                assert(o1[o0.len() as int] == q);
                assert forall|i: int| 0 <= i < o1.len() && (#[trigger] o1[i]).face == g && o1[i].layer == e implies o1[i] == q by {
                    if i < o0.len() {
                        assert(done_before(o0[i].face, o0[i].layer as int, fi, d));
                    }
                }
            }
        } else {
            assert(done_before(g, e, fi, d));
            if q.material == WATER {
                let k = choose|k: int| 0 <= k < c0.len() && c0[k] == q;
                assert(c1[k] == q);
                assert forall|i: int| 0 <= i < c1.len() && (#[trigger] c1[i]).face == g && c1[i].layer == e implies c1[i] == q by {
                    if i < c0.len() {
                        assert(c1[i] == c0[i]);
                    }
                }
            } else {
                let k = choose|k: int| 0 <= k < o0.len() && o0[k] == q;
                assert(o1[k] == q);
                assert forall|i: int| 0 <= i < o1.len() && (#[trigger] o1[i]).face == g && o1[i].layer == e implies o1[i] == q by {
                    if i < o0.len() {
                        assert(o1[i] == o0[i]);
                    }
                }
            }
        }
    }
}

proof fn lemma_append_list(
    blocks: Seq<Block>,
    border: NeighborBorder,
    f: Face,
    d: int,
    q0: Seq<Quad>,
    q1: Seq<Quad>,
    tl: bool,
)
    requires
        mesh_sound(blocks, border, q0, tl),
        mesh_disjoint(q0),
        forall|i: int| 0 <= i < q0.len() ==> done_before((#[trigger] q0[i]).face, q0[i].layer as int, face_index(f), d),
        slice_appended(blocks, border, f, d, q0, q1, tl),
    ensures
        mesh_sound(blocks, border, q1, tl),
        mesh_disjoint(q1),
        forall|i: int| 0 <= i < q1.len() ==> done_before((#[trigger] q1[i]).face, q1[i].layer as int, face_index(f), d + 1),
{
    assert forall|i: int| 0 <= i < q1.len() implies quad_sound(blocks, border, #[trigger] q1[i]) && belongs(
        tl,
        q1[i].material,
    ) by {
        if i < q0.len() {
            assert(q1[i] == q0[i]);
        }
    }
    assert forall|i: int| 0 <= i < q1.len() implies done_before(
        (#[trigger] q1[i]).face,
        q1[i].layer as int,
        face_index(f),
        d + 1,
    ) by {
        if i < q0.len() {
            assert(q1[i] == q0[i]);
        }
    }
    assert forall|i: int, j: int, g: Face, e: int, u: int, v: int|
        #![trigger quad_covers(q1[i], g, e, u, v), quad_covers(q1[j], g, e, u, v)]
        0 <= i < q1.len() && 0 <= j < q1.len() && i != j && quad_covers(q1[i], g, e, u, v) implies !quad_covers(
        q1[j],
        g,
        e,
        u,
        v,
    ) by {
        if i < q0.len() && j < q0.len() {
            assert(q1[i] == q0[i]);
            assert(q1[j] == q0[j]);
        } else if i < q0.len() {
            assert(q1[i] == q0[i]);
            assert(done_before(q0[i].face, q0[i].layer as int, face_index(f), d));
        } else if j < q0.len() {
            assert(q1[j] == q0[j]);
            assert(done_before(q0[j].face, q0[j].layer as int, face_index(f), d));
        }
    }
}

/// Builds the opaque and the transparent mesh of a chunk from its blocks and
/// the snapshot of its neighbours' touching layers.
pub fn build_meshes(blocks: &Vec<Block>, border: &NeighborBorder) -> (r: (Vec<Quad>, Vec<Quad>))
    requires
        border.wf(),
        blocks@.len() == volume(border.size as int),
    ensures
        meshes_exact(blocks@, *border, r.0@, r.1@),
{
    let s = border.size;
    let mut opaque: Vec<Quad> = Vec::new();
    let mut clear: Vec<Quad> = Vec::new();
    let mut fi: usize = 0;
    while fi < 6
        invariant
            border.wf(),
            blocks@.len() == volume(border.size as int),
            s == border.size,
            fi <= 6,
            build_state(blocks@, *border, opaque@, clear@, fi as int, 0),
        decreases 6 - fi,
    {
        let f = Face::from_index(fi);
        let mut d: usize = 0;
        while d < s
            invariant
                border.wf(),
                blocks@.len() == volume(border.size as int),
                s == border.size,
                fi < 6,
                face_index(f) == fi,
                d <= s,
                build_state(blocks@, *border, opaque@, clear@, fi as int, d as int),
            decreases s - d,
        {
            let ghost o0 = opaque@;
            let ghost c0 = clear@;
            mesh_slice(blocks, border, f, d, &mut opaque, &mut clear);
            proof {
                lemma_append_slice(blocks@, *border, f, d as int, o0, c0, opaque@, clear@);
            }
            d = d + 1;
        }
        proof {
            assert forall|g: Face, e: int| 0 <= e < s && #[trigger] done_before(g, e, fi as int, s as int) implies done_before(
                g,
                e,
                fi + 1,
                0,
            ) by {}
            assert(build_state(blocks@, *border, opaque@, clear@, fi + 1, 0)) by {
                assert forall|i: int| 0 <= i < opaque@.len() implies done_before(
                    (#[trigger] opaque@[i]).face,
                    opaque@[i].layer as int,
                    fi + 1,
                    0,
                ) by {
                    assert(quad_sound(blocks@, *border, opaque@[i]));
                }
                assert forall|i: int| 0 <= i < clear@.len() implies done_before(
                    (#[trigger] clear@[i]).face,
                    clear@[i].layer as int,
                    fi + 1,
                    0,
                ) by {
                    assert(quad_sound(blocks@, *border, clear@[i]));
                }
            }
        }
        fi = fi + 1;
    }
    (opaque, clear)
}

/// Visibility: every face of an exact mesh sits on a solid voxel of the
/// mesh's transparency class, and no face lies between two solid voxels of
/// the same transparency class.
pub proof fn lemma_faces_only_where_visible(
    blocks: Seq<Block>,
    border: NeighborBorder,
    opaque: Seq<Quad>,
    clear: Seq<Quad>,
    tl: bool,
    qs: Seq<Quad>,
    i: int,
    u: int,
    v: int,
)
    requires
        meshes_exact(blocks, border, opaque, clear),
        qs == (if tl { clear } else { opaque }),
        0 <= i < qs.len(),
        quad_covers(qs[i], qs[i].face, qs[i].layer as int, u, v),
    ensures
        slice_block(blocks, border, qs[i].face, qs[i].layer as int, u, v) is Solid,
        transparent(slice_block(blocks, border, qs[i].face, qs[i].layer as int, u, v)) == tl,
        !(across_block(blocks, border, qs[i].face, qs[i].layer as int, u, v) is Solid && transparent(
            across_block(blocks, border, qs[i].face, qs[i].layer as int, u, v),
        ) == transparent(slice_block(blocks, border, qs[i].face, qs[i].layer as int, u, v))),
{
    assert(quad_sound(blocks, border, qs[i]));
}

/// The outermost layer of a chunk of edge `s` for faces of direction `f`.
pub open spec fn outer_layer(f: Face, s: int) -> int {
    match f {
        Face::Left | Face::Bottom | Face::Back => 0,
        Face::Right | Face::Top | Face::Front => s - 1,
    }
}

/// `q` is in `qs` and is its only quad of direction `f`.
pub open spec fn sole_quad_of_face(qs: Seq<Quad>, f: Face, q: Quad) -> bool {
    &&& exists|i: int| 0 <= i < qs.len() && qs[i] == q
    &&& forall|i: int| 0 <= i < qs.len() && (#[trigger] qs[i]).face == f ==> qs[i] == q
}

/// Mask coverage: a chunk filled with one material and with no neighbours is
/// meshed, for each face direction, as the single quad covering the whole
/// outer layer, in the mesh of that material's transparency class.
pub proof fn lemma_filled_chunk_one_quad_per_face(
    blocks: Seq<Block>,
    border: NeighborBorder,
    m: u8,
    opaque: Seq<Quad>,
    clear: Seq<Quad>,
    f: Face,
)
    requires
        border.wf(),
        blocks.len() == volume(border.size as int),
        forall|k: int| 0 <= k < blocks.len() ==> blocks[k] == Block::Solid(m),
        forall|g: Face| (#[trigger] border.layer(g)) is None,
        meshes_exact(blocks, border, opaque, clear),
    ensures
        sole_quad_of_face(
            if m == WATER { clear } else { opaque },
            f,
            Quad {
                face: f,
                layer: outer_layer(f, border.size as int) as usize,
                u: 0,
                v: 0,
                w: border.size,
                h: border.size,
                material: m,
            },
        ),
{
    let s = border.size as int;
    let qs = if m == WATER { clear } else { opaque };
    let d = outer_layer(f, s);
    assert(border.layer(f) is None);
    assert forall|u: int, v: int| 0 <= u < s && 0 <= v < s implies #[trigger] slice_key(blocks, border, f, d, u, v)
        == (m + 1) as u16 by {
        let p = slice_voxel(f, d, u, v);
        crate::engine::chunk::lemma_voxel_index_bounds(s, p.0, p.1, p.2);
    }
    assert(slice_key(blocks, border, f, d, 0, 0) == (m + 1) as u16);
    assert(slice_uniform(blocks, border, f, d));
    let full = full_quad(blocks, border, f, d);
    assert(full.material == m);
    assert(only_quad(qs, f, d, full));
    assert forall|i: int| 0 <= i < qs.len() && (#[trigger] qs[i]).face == f implies qs[i] == full by {
        let q = qs[i];
        assert(quad_sound(blocks, border, q));
        assert(quad_covers(q, q.face, q.layer as int, q.u as int, q.v as int));
        if q.layer != d {
            let p = slice_voxel(f, q.layer as int, q.u as int, q.v as int);
            let st = face_step(f);
            crate::engine::chunk::lemma_voxel_index_bounds(s, p.0, p.1, p.2);
            crate::engine::chunk::lemma_voxel_index_bounds(s, p.0 + st.0, p.1 + st.1, p.2 + st.2);
            assert(!exposed(blocks, border, f, q.layer as int, q.u as int, q.v as int));
        }
    }
}

} // verus!
