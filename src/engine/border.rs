use vstd::prelude::*;
use crate::engine::block::Block;
use crate::engine::chunk::{in_chunk, index, voxel_index, volume, Chunk};
use crate::engine::face::{slice_voxel, Face};
use crate::engine::grid::{cell, lemma_area_bound, lemma_cell_bounds, lemma_cell_next_row, lemma_cell_raster, MAX_EDGE};

verus! {

/// A per-rebuild snapshot of the single-voxel-thick layers of the six
/// neighbouring chunks that touch the chunk being meshed. Each layer is
/// indexed by the in-plane cell `(u, v)` of its face direction; a missing
/// neighbour reads as empty space.
pub struct NeighborBorder {
    pub size: usize,
    pub left: Option<Vec<Block>>,
    pub right: Option<Vec<Block>>,
    pub bottom: Option<Vec<Block>>,
    pub top: Option<Vec<Block>>,
    pub back: Option<Vec<Block>>,
    pub front: Option<Vec<Block>>,
}

/// The layer of a neighbour across face `f` that touches the chunk: the
/// neighbour's far layer for the negative directions, its first for the positive.
pub open spec fn touching_layer(f: Face, s: int) -> int {
    match f {
        Face::Left | Face::Bottom | Face::Back => s - 1,
        Face::Right | Face::Top | Face::Front => 0,
    }
}

pub open spec fn layer_at(layer: Option<Vec<Block>>, s: int, u: int, v: int) -> Block {
    match layer {
        Some(b) => b@[cell(s, u, v)],
        None => Block::Air,
    }
}

impl NeighborBorder {
    pub open spec fn layer(&self, f: Face) -> Option<Vec<Block>> {
        match f {
            Face::Left => self.left,
            Face::Right => self.right,
            Face::Bottom => self.bottom,
            Face::Top => self.top,
            Face::Back => self.back,
            Face::Front => self.front,
        }
    }

    pub open spec fn wf(&self) -> bool {
        &&& 1 <= self.size <= MAX_EDGE
        &&& forall|f: Face|
            #[trigger] self.layer(f) is Some ==> self.layer(f).unwrap()@.len() == self.size * self.size
    }

    /// The block of the neighbour across `f` at in-plane cell `(u, v)`.
    pub open spec fn at(&self, f: Face, u: int, v: int) -> Block {
        layer_at(self.layer(f), self.size as int, u, v)
    }

    /// A border with no neighbours loaded.
    pub fn empty(size: usize) -> (b: NeighborBorder)
        requires
            1 <= size <= MAX_EDGE,
        ensures
            b.wf(),
            b.size == size,
            forall|f: Face| (#[trigger] b.layer(f)) is None,
    {
        NeighborBorder { size, left: None, right: None, bottom: None, top: None, back: None, front: None }
    }

    /// Stores the touching layer of the neighbour across `f`.
    pub fn set_layer(&mut self, f: Face, layer: Vec<Block>)
        requires
            old(self).wf(),
            layer@.len() == old(self).size * old(self).size,
        ensures
            final(self).wf(),
            final(self).size == old(self).size,
            final(self).layer(f) == Some(layer),
            forall|g: Face| g != f ==> #[trigger] final(self).layer(g) == old(self).layer(g),
    {
        match f {
            Face::Left => self.left = Some(layer),
            Face::Right => self.right = Some(layer),
            Face::Bottom => self.bottom = Some(layer),
            Face::Top => self.top = Some(layer),
            Face::Back => self.back = Some(layer),
            Face::Front => self.front = Some(layer),
        }
        proof {
            assert forall|g: Face| #[trigger] self.layer(g) is Some implies self.layer(g).unwrap()@.len()
                == self.size * self.size by {
                if g != f {
                    assert(old(self).layer(g) is Some);
                }
            }
        }
    }
}

/// The block at local position `(x, y, z)` as seen while meshing a chunk with
/// blocks `blocks`: inside the chunk its own block, one step outside a face the
/// neighbour's border block, anywhere else empty space.
pub open spec fn lookup(blocks: Seq<Block>, border: NeighborBorder, x: int, y: int, z: int) -> Block {
    let s = border.size as int;
    if in_chunk(s, x, y, z) {
        blocks[voxel_index(s, x, y, z)]
    } else if x == -1 && 0 <= y < s && 0 <= z < s {
        border.at(Face::Left, y, z)
    } else if x == s && 0 <= y < s && 0 <= z < s {
        border.at(Face::Right, y, z)
    } else if y == -1 && 0 <= x < s && 0 <= z < s {
        border.at(Face::Bottom, x, z)
    } else if y == s && 0 <= x < s && 0 <= z < s {
        border.at(Face::Top, x, z)
    } else if z == -1 && 0 <= x < s && 0 <= y < s {
        border.at(Face::Back, x, y)
    } else if z == s && 0 <= x < s && 0 <= y < s {
        border.at(Face::Front, x, y)
    } else {
        Block::Air
    }
}

fn read_layer(layer: &Option<Vec<Block>>, size: usize, u: i32, v: i32) -> (b: Block)
    requires
        1 <= size <= MAX_EDGE,
        0 <= u < size,
        0 <= v < size,
        layer is Some ==> layer.unwrap()@.len() == size * size,
    ensures
        b == layer_at(*layer, size as int, u as int, v as int),
{
    match layer {
        Some(blocks) => {
            proof {
                lemma_cell_bounds(size as int, size as int, u as int, v as int);
                lemma_area_bound(size as int, size as int);
            }
            blocks[(v as usize) * size + (u as usize)]
        },
        None => Block::Air,
    }
}

/// Reads local position `(lx, ly, lz)` from a chunk's own block snapshot or
/// its neighbour border; positions known to neither are empty.
pub fn get_block_from_neighbors_with_blocks(
    lx: i32,
    ly: i32,
    lz: i32,
    border: &NeighborBorder,
    current_blocks: &Vec<Block>,
) -> (b: Block)
    requires
        border.wf(),
        current_blocks@.len() == volume(border.size as int),
    ensures
        b == lookup(current_blocks@, *border, lx as int, ly as int, lz as int),
{
    let s = border.size as i32;
    let size = border.size;
    if lx >= 0 && lx < s && ly >= 0 && ly < s && lz >= 0 && lz < s {
        return current_blocks[index(size, lx as usize, ly as usize, lz as usize)];
    }
    proof {
        assert(border.layer(Face::Left) == border.left);
        assert(border.layer(Face::Right) == border.right);
        assert(border.layer(Face::Bottom) == border.bottom);
        assert(border.layer(Face::Top) == border.top);
        assert(border.layer(Face::Back) == border.back);
        assert(border.layer(Face::Front) == border.front);
    }
    let y_in = ly >= 0 && ly < s;
    let z_in = lz >= 0 && lz < s;
    let x_in = lx >= 0 && lx < s;
    if lx == -1 && y_in && z_in {
        read_layer(&border.left, size, ly, lz)
    } else if lx == s && y_in && z_in {
        read_layer(&border.right, size, ly, lz)
    } else if ly == -1 && x_in && z_in {
        read_layer(&border.bottom, size, lx, lz)
    } else if ly == s && x_in && z_in {
        read_layer(&border.top, size, lx, lz)
    } else if lz == -1 && x_in && y_in {
        read_layer(&border.back, size, lx, ly)
    } else if lz == s && x_in && y_in {
        read_layer(&border.front, size, lx, ly)
    } else {
        Block::Air
    }
}

/// The local position in the neighbour across `f` of its touching layer's cell `(u, v)`.
pub open spec fn touching_voxel(f: Face, s: int, u: int, v: int) -> (int, int, int) {
    slice_voxel(f, touching_layer(f, s), u, v)
}

/// Copies the layer of `neighbor` that touches a chunk lying across face `f` of
/// it, as seen from that chunk.
pub fn collect_border_face(neighbor: &Chunk, f: Face) -> (layer: Vec<Block>)
    requires
        neighbor.wf(),
    ensures
        layer@.len() == neighbor.size * neighbor.size,
        forall|u: int, v: int|
            0 <= u < neighbor.size && 0 <= v < neighbor.size ==> #[trigger] layer@[cell(
                neighbor.size as int,
                u,
                v,
            )] == neighbor.block_at(
                touching_voxel(f, neighbor.size as int, u, v).0,
                touching_voxel(f, neighbor.size as int, u, v).1,
                touching_voxel(f, neighbor.size as int, u, v).2,
            ),
{
    let s = neighbor.size;
    let ghost si = s as int;
    let d: usize = match f {
        Face::Left | Face::Bottom | Face::Back => s - 1,
        Face::Right | Face::Top | Face::Front => 0,
    };
    assert(d == touching_layer(f, si));
    proof {
        lemma_area_bound(si, si);
    }
    let mut layer: Vec<Block> = Vec::new();
    let mut v: usize = 0;
    while v < s
        invariant
            neighbor.wf(),
            s == neighbor.size,
            si == s,
            d == touching_layer(f, si),
            v <= s,
            layer@.len() == cell(si, 0, v as int),
            forall|uu: int, vv: int|
                0 <= uu < s && 0 <= vv < v ==> #[trigger] layer@[cell(si, uu, vv)] == neighbor.block_at(
                    touching_voxel(f, si, uu, vv).0,
                    touching_voxel(f, si, uu, vv).1,
                    touching_voxel(f, si, uu, vv).2,
                ),
        decreases s - v,
    {
        let mut u: usize = 0;
        while u < s
            invariant
                neighbor.wf(),
                s == neighbor.size,
                si == s,
                d == touching_layer(f, si),
                v < s,
                u <= s,
                layer@.len() == cell(si, u as int, v as int),
                forall|uu: int, vv: int|
                    0 <= uu < s && 0 <= vv <= v && (vv < v || uu < u) ==> #[trigger] layer@[cell(
                        si,
                        uu,
                        vv,
                    )] == neighbor.block_at(
                        touching_voxel(f, si, uu, vv).0,
                        touching_voxel(f, si, uu, vv).1,
                        touching_voxel(f, si, uu, vv).2,
                    ),
            decreases s - u,
        {
            let b = match f {
                Face::Left | Face::Right => neighbor.get_block(d, u, v),
                Face::Bottom | Face::Top => neighbor.get_block(u, d, v),
                Face::Back | Face::Front => neighbor.get_block(u, v, d),
            };
            let ghost before = layer@;
            layer.push(b);
            proof {
                assert forall|uu: int, vv: int|
                    0 <= uu < s && 0 <= vv <= v && (vv < v || uu < u + 1) implies #[trigger] layer@[cell(
                    si,
                    uu,
                    vv,
                )] == neighbor.block_at(
                    touching_voxel(f, si, uu, vv).0,
                    touching_voxel(f, si, uu, vv).1,
                    touching_voxel(f, si, uu, vv).2,
                ) by {
                    if vv < v || uu < u {
                        lemma_cell_raster(si, u as int, v as int, uu, vv);
                        assert(layer@[cell(si, uu, vv)] == before[cell(si, uu, vv)]);
                    }
                }
            }
            u = u + 1;
        }
        proof {
            lemma_cell_next_row(si, v as int);
        }
        v = v + 1;
    }
    layer
}

} // verus!
