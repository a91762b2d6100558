use vstd::prelude::*;
use crate::engine::block::Block;
use crate::engine::border::{collect_border_face, touching_voxel, NeighborBorder};
use crate::engine::chunk::{mesh_quads, mesh_cached, volume, Chunk, ChunkPos};
use crate::engine::face::{face_step, Face};
use crate::engine::grid::{cell, MAX_EDGE};
use crate::engine::mesher::meshes_exact;

verus! {

/// Largest render distance, in chunks: with the viewpoint within
/// `VIEW_LIMIT` of the origin, every coordinate in range then stays within
/// `COORD_LIMIT`, which keeps neighbour steps and squared distances inside
/// `i32` and `i64`.
pub const MAX_RENDER_DISTANCE: i32 = 1_000_000;
/// Largest distance of the viewpoint chunk from the origin along `x` or `z`.
pub const VIEW_LIMIT: i32 = 1_000_000;
/// Largest distance of any stored chunk from the origin along any axis.
pub const COORD_LIMIT: i32 = 2_000_000;

pub const MAX_NEW_CHUNKS_PER_FRAME: usize = 16;
pub const DEFAULT_RENDER_DISTANCE: i32 = 6;
pub const MAX_MESH_REBUILDS_PER_FRAME: usize = 4;
pub const MAX_CHUNK_RECEIVES_PER_FRAME: usize = 8;
pub const UNLOAD_MARGIN: i32 = 2;
pub const BAND_MIN: i32 = -1;
pub const BAND_MAX: i32 = 4;

/// The streaming parameters: chunk edge, hysteresis margin for unloading,
/// the vertical band of chunk layers kept around the viewpoint, and the
/// per-frame caps on new requests, drained results and mesh rebuilds.
#[derive(Clone, Copy, PartialEq, Eq, Debug, Structural)]
pub struct StreamConfig {
    pub chunk_size: usize,
    pub unload_margin: i32,
    pub band_min: i32,
    pub band_max: i32,
    pub max_new_chunks_per_frame: usize,
    pub max_chunk_receives_per_frame: usize,
    pub max_mesh_rebuilds_per_frame: usize,
}

impl StreamConfig {
    pub open spec fn valid(&self) -> bool {
        &&& 1 <= self.chunk_size <= MAX_EDGE
        &&& 0 <= self.unload_margin <= MAX_RENDER_DISTANCE
        &&& -MAX_RENDER_DISTANCE <= self.band_min <= self.band_max <= MAX_RENDER_DISTANCE
        &&& self.max_new_chunks_per_frame <= 0x10000
        &&& self.max_mesh_rebuilds_per_frame >= 1
    }

    /// Chunks of 32, unloading two chunks beyond the render distance, layers
    /// -1 to 4, and at most 16 requests, 8 results and 4 rebuilds per frame.
    pub fn standard() -> (c: StreamConfig)
        ensures
            c.valid(),
            c.chunk_size == 32,
            c.unload_margin == UNLOAD_MARGIN,
            c.band_min == BAND_MIN && c.band_max == BAND_MAX,
            c.max_new_chunks_per_frame == MAX_NEW_CHUNKS_PER_FRAME,
            c.max_chunk_receives_per_frame == MAX_CHUNK_RECEIVES_PER_FRAME,
            c.max_mesh_rebuilds_per_frame == MAX_MESH_REBUILDS_PER_FRAME,
    {
        StreamConfig {
            chunk_size: 32,
            unload_margin: UNLOAD_MARGIN,
            band_min: BAND_MIN,
            band_max: BAND_MAX,
            max_new_chunks_per_frame: MAX_NEW_CHUNKS_PER_FRAME,
            max_chunk_receives_per_frame: MAX_CHUNK_RECEIVES_PER_FRAME,
            max_mesh_rebuilds_per_frame: MAX_MESH_REBUILDS_PER_FRAME,
        }
    }
}

/// A completed generation job: the coordinate and its block grid.
pub struct ChunkGenResult {
    pub pos: ChunkPos,
    pub blocks: Vec<Block>,
}

pub open spec fn abs(a: int) -> int {
    if a < 0 {
        -a
    } else {
        a
    }
}

pub open spec fn coord_ok(p: ChunkPos) -> bool {
    &&& abs(p.x as int) <= COORD_LIMIT
    &&& abs(p.y as int) <= COORD_LIMIT
    &&& abs(p.z as int) <= COORD_LIMIT
}

/// Horizontal Chebyshev distance between chunk coordinates.
pub open spec fn flat_distance(p: ChunkPos, v: ChunkPos) -> int {
    let dx = abs(p.x - v.x);
    let dz = abs(p.z - v.z);
    if dx >= dz {
        dx
    } else {
        dz
    }
}

/// Squared horizontal distance between chunk coordinates.
pub open spec fn flat_distance_sq(p: ChunkPos, v: ChunkPos) -> int {
    (p.x - v.x) * (p.x - v.x) + (p.z - v.z) * (p.z - v.z)
}

/// Squared distance between chunk coordinates.
pub open spec fn distance_sq(p: ChunkPos, v: ChunkPos) -> int {
    (p.x - v.x) * (p.x - v.x) + (p.y - v.y) * (p.y - v.y) + (p.z - v.z) * (p.z - v.z)
}

/// The chunks sharing a face.
pub open spec fn adjacent(a: ChunkPos, b: ChunkPos) -> bool {
    abs(a.x - b.x) + abs(a.y - b.y) + abs(a.z - b.z) == 1
}

pub open spec fn step_pos(p: ChunkPos, f: Face) -> ChunkPos {
    let st = face_step(f);
    ChunkPos { x: (p.x + st.0) as i32, y: (p.y + st.1) as i32, z: (p.z + st.2) as i32 }
}

pub open spec fn keys_unique(chunks: Seq<Chunk>) -> bool {
    forall|i: int, j: int| 0 <= i < chunks.len() && 0 <= j < chunks.len() && i != j ==> chunks[i].pos != chunks[j].pos
}

pub open spec fn no_duplicates(ps: Seq<ChunkPos>) -> bool {
    forall|i: int, j: int| 0 <= i < ps.len() && 0 <= j < ps.len() && i != j ==> ps[i] != ps[j]
}

pub open spec fn holds_chunk(chunks: Seq<Chunk>, p: ChunkPos) -> bool {
    exists|i: int| 0 <= i < chunks.len() && (#[trigger] chunks[i]).pos == p
}

/// `after` is `before` with chunk `i` at most re-marked dirty.
pub open spec fn same_chunk_but_dirty(before: Chunk, after: Chunk, dirty: bool) -> bool {
    &&& after.pos == before.pos
    &&& after.size == before.size
    &&& after.blocks@ == before.blocks@
    &&& after.mesh == before.mesh
    &&& after.transparent_mesh == before.transparent_mesh
    &&& after.dirty == dirty
}

pub open spec fn view_ok(v: ChunkPos) -> bool {
    abs(v.x as int) <= VIEW_LIMIT && abs(v.z as int) <= VIEW_LIMIT && v.y == 0
}

fn flat_distance_sq_exec(p: ChunkPos, v: ChunkPos) -> (r: i64)
    requires
        coord_ok(p),
        view_ok(v),
    ensures
        r == flat_distance_sq(p, v),
{
    let dx = p.x as i64 - v.x as i64;
    let dz = p.z as i64 - v.z as i64;
    assert(0 <= dx * dx <= 0x10_0000_0000_0000) by (nonlinear_arith)
        requires
            -4_000_000 <= dx <= 4_000_000,
    ;
    assert(0 <= dz * dz <= 0x10_0000_0000_0000) by (nonlinear_arith)
        requires
            -4_000_000 <= dz <= 4_000_000,
    ;
    dx * dx + dz * dz
}

/// The untaken candidate nearest to `v` (the first of equals), if any is left.
fn nearest_untaken(cs: &Vec<ChunkPos>, taken: &Vec<bool>, v: ChunkPos) -> (r: Option<usize>)
    requires
        taken@.len() == cs@.len(),
        forall|k: int| 0 <= k < cs@.len() ==> coord_ok(#[trigger] cs@[k]),
        view_ok(v),
    ensures
        match r {
            Some(b) => b < cs@.len() && !taken@[b as int] && forall|j: int|
                0 <= j < cs@.len() && !taken@[j] ==> flat_distance_sq(cs@[b as int], v) <= flat_distance_sq(
                    #[trigger] cs@[j],
                    v,
                ),
            None => forall|j: int| 0 <= j < cs@.len() ==> #[trigger] taken@[j],
        },
{
    let mut best: Option<usize> = None;
    let mut best_d: i64 = 0;
    let mut j: usize = 0;
    while j < cs.len()
        invariant
            taken@.len() == cs@.len(),
            forall|k: int| 0 <= k < cs@.len() ==> coord_ok(#[trigger] cs@[k]),
            view_ok(v),
            j <= cs@.len(),
            match best {
                Some(b) => b < j && !taken@[b as int] && best_d == flat_distance_sq(cs@[b as int], v) && forall|i: int|
                    0 <= i < j && !taken@[i] ==> best_d <= flat_distance_sq(#[trigger] cs@[i], v),
                None => forall|i: int| 0 <= i < j ==> #[trigger] taken@[i],
            },
        decreases cs@.len() - j,
    {
        if !taken[j] {
            let d = flat_distance_sq_exec(cs[j], v);
            let better = match best {
                Some(_) => d < best_d,
                None => true,
            };
            if better {
                best = Some(j);
                best_d = d;
            }
        }
        j = j + 1;
    }
    best
}

/// Up to `cap` candidates nearest to `v`, nearest first.
fn select_nearest(cs: &Vec<ChunkPos>, v: ChunkPos, cap: usize) -> (out: Vec<ChunkPos>)
    requires
        no_duplicates(cs@),
        forall|k: int| 0 <= k < cs@.len() ==> coord_ok(#[trigger] cs@[k]),
        view_ok(v),
    ensures
        out@.len() <= cap,
        no_duplicates(out@),
        forall|k: int| 0 <= k < out@.len() ==> cs@.contains(#[trigger] out@[k]),
        forall|a: int, b: int|
            0 <= a < b < out@.len() ==> flat_distance_sq(out@[a], v) <= flat_distance_sq(out@[b], v),
        forall|p: ChunkPos, k: int|
            cs@.contains(p) && !out@.contains(p) && 0 <= k < out@.len() ==> #[trigger] flat_distance_sq(out@[k], v)
                <= #[trigger] flat_distance_sq(p, v),
        out@.len() < cap ==> forall|p: ChunkPos| cs@.contains(p) ==> out@.contains(p),
{
    let n = cs.len();
    let mut taken: Vec<bool> = Vec::new();
    let mut i: usize = 0;
    while i < n
        invariant
            n == cs@.len(),
            i <= n,
            taken@.len() == i,
            forall|j: int| 0 <= j < i ==> !taken@[j],
        decreases n - i,
    {
        taken.push(false);
        i = i + 1;
    }
    let mut out: Vec<ChunkPos> = Vec::new();
    let ghost mut idx: Seq<int> = Seq::empty();
    let mut done = false;
    while out.len() < cap && !done
        invariant
            n == cs@.len(),
            no_duplicates(cs@),
            forall|k: int| 0 <= k < cs@.len() ==> coord_ok(#[trigger] cs@[k]),
            view_ok(v),
            taken@.len() == n,
            out@.len() == idx.len(),
            out@.len() <= cap,
            forall|k: int| 0 <= k < idx.len() ==> 0 <= #[trigger] idx[k] < n && out@[k] == cs@[idx[k]],
            forall|j: int| 0 <= j < n ==> (#[trigger] taken@[j] <==> exists|k: int| 0 <= k < idx.len() && idx[k] == j),
            forall|a: int, b: int| 0 <= a < idx.len() && 0 <= b < idx.len() && a != b ==> idx[a] != idx[b],
            forall|a: int, b: int|
                0 <= a < b < out@.len() ==> flat_distance_sq(out@[a], v) <= flat_distance_sq(out@[b], v),
            forall|j: int, k: int|
                0 <= j < n && !taken@[j] && 0 <= k < out@.len() ==> flat_distance_sq(#[trigger] out@[k], v)
                    <= flat_distance_sq(#[trigger] cs@[j], v),
            done ==> forall|j: int| 0 <= j < n ==> #[trigger] taken@[j],
        decreases n - out@.len(), if done { 0int } else { 1int },
    {
        match nearest_untaken(cs, &taken, v) {
            Some(b) => {
                proof {
                    assert forall|k: int| 0 <= k < idx.len() implies idx[k] != b by {
                        assert(taken@[idx[k]]);
                    }
                    if n <= out@.len() {
                        // every index is taken once out holds n of them
                        assert(forall|k: int| 0 <= k < idx.len() ==> 0 <= #[trigger] idx[k] < n);
                        lemma_injective_bound(idx, n as int, b as int);
                    }
                }
                let ghost old_taken = taken@;
                let ghost old_out = out@;
                taken.set(b, true);
                out.push(cs[b]);
                let ghost old_idx = idx;
                proof {
                    idx = idx.push(b as int);
                    assert forall|j: int| 0 <= j < n implies (#[trigger] taken@[j] <==> exists|k: int|
                        0 <= k < idx.len() && idx[k] == j) by {
                        if j == b {
                            assert(idx[idx.len() - 1] == j);
                        } else if old_taken[j] {
                            let k = choose|k: int| 0 <= k < old_idx.len() && old_idx[k] == j;
                            assert(idx[k] == j);
                        } else {
                            if exists|k: int| 0 <= k < idx.len() && idx[k] == j {
                                let k = choose|k: int| 0 <= k < idx.len() && idx[k] == j;
                                assert(k < idx.len() - 1);
                            }
                        }
                    }
                    assert forall|a: int, c: int|
                        0 <= a < c < out@.len() implies flat_distance_sq(out@[a], v) <= flat_distance_sq(out@[c], v) by {
                        if c == out@.len() - 1 {
                            assert(out@[a] == old_out[a]);
                            assert(!old_taken[b as int]);
                            assert(flat_distance_sq(old_out[a], v) <= flat_distance_sq(cs@[b as int], v));
                        } else {
                            assert(out@[a] == old_out[a] && out@[c] == old_out[c]);
                        }
                    }
                    assert forall|j: int, k: int|
                        0 <= j < n && !taken@[j] && 0 <= k < out@.len() implies flat_distance_sq(#[trigger] out@[k], v)
                            <= flat_distance_sq(#[trigger] cs@[j], v) by {
                        assert(!old_taken[j]);
                        if k < old_out.len() {
                            assert(out@[k] == old_out[k]);
                        }
                    }
                }
            },
            None => {
                done = true;
            },
        }
    }
    proof {
        assert forall|a: int, b: int| 0 <= a < out@.len() && 0 <= b < out@.len() && a != b implies out@[a] != out@[b] by {
            assert(idx[a] != idx[b]);
        }
        assert forall|k: int| 0 <= k < out@.len() implies cs@.contains(#[trigger] out@[k]) by {
            assert(out@[k] == cs@[idx[k]]);
        }
        assert forall|p: ChunkPos, k: int|
            cs@.contains(p) && !out@.contains(p) && 0 <= k < out@.len() implies #[trigger] flat_distance_sq(out@[k], v)
                <= #[trigger] flat_distance_sq(p, v) by {
            let j = choose|j: int| 0 <= j < n && cs@[j] == p;
            if taken@[j] {
                let kk = choose|kk: int| 0 <= kk < idx.len() && idx[kk] == j;
                assert(out@[kk] == p);
            }
        }
        if out@.len() < cap {
            assert forall|p: ChunkPos| cs@.contains(p) implies out@.contains(p) by {
                let j = choose|j: int| 0 <= j < n && cs@[j] == p;
                assert(taken@[j]);
                let kk = choose|kk: int| 0 <= kk < idx.len() && idx[kk] == j;
                assert(out@[kk] == p);
            }
        }
    }
    out
}

/// An injective sequence of indices below `n` that misses `b < n` has fewer than `n` entries.
proof fn lemma_injective_bound(idx: Seq<int>, n: int, b: int)
    requires
        0 <= b < n,
        forall|k: int| 0 <= k < idx.len() ==> 0 <= #[trigger] idx[k] < n,
        forall|k: int| 0 <= k < idx.len() ==> idx[k] != b,
        forall|a: int, c: int| 0 <= a < idx.len() && 0 <= c < idx.len() && a != c ==> idx[a] != idx[c],
    ensures
        idx.len() < n,
{
    let s = idx.to_set();
    let full = vstd::set_lib::set_int_range(0, n);
    vstd::set_lib::lemma_int_range(0, n);
    assert(s.subset_of(full.remove(b)));
    vstd::set_lib::lemma_len_subset(s, full.remove(b));
    assert(idx.no_duplicates());
    idx.unique_seq_to_set();
}

/// The chunk coordinate holding world block coordinate `block`, for chunks of
/// edge `size`: the floor of `block / size`.
pub fn chunk_coord(block: i64, size: usize) -> (c: i64)
    requires
        1 <= size <= MAX_EDGE,
        -0x100_0000_0000 <= block <= 0x100_0000_0000,
    ensures
        c * size <= block < (c + 1) * size,
        -0x100_0000_0000 <= c <= 0x100_0000_0000,
{
    let s = size as u64;
    if block >= 0 {
        let m = block as u64;
        let q = m / s;
        proof {
            let (mi, si, qi) = (m as int, s as int, q as int);
            vstd::arithmetic::div_mod::lemma_fundamental_div_mod(mi, si);
            vstd::arithmetic::div_mod::lemma_mod_bound(mi, si);
            let r = mi % si;
            assert(si * qi == qi * si) by (nonlinear_arith);
            assert((qi + 1) * si == qi * si + si) by (nonlinear_arith);
            assert(qi <= qi * si) by (nonlinear_arith)
                requires
                    si >= 1,
                    qi >= 0,
            ;
        }
        q as i64
    } else {
        let m = (-(block + 1)) as u64;
        let q = m / s;
        proof {
            let (mi, si, qi) = (m as int, s as int, q as int);
            vstd::arithmetic::div_mod::lemma_fundamental_div_mod(mi, si);
            vstd::arithmetic::div_mod::lemma_mod_bound(mi, si);
            let r = mi % si;
            assert(si * qi == qi * si) by (nonlinear_arith);
            assert((-qi - 1) * si == -(qi * si) - si) by (nonlinear_arith);
            assert((-qi - 1 + 1) * si == -(qi * si)) by (nonlinear_arith);
            assert(qi <= qi * si) by (nonlinear_arith)
                requires
                    si >= 1,
                    qi >= 0,
            ;
        }
        -(q as i64) - 1
    }
}

/// The number of dirty chunks.
pub open spec fn dirty_count(chunks: Seq<Chunk>) -> nat
    decreases chunks.len(),
{
    if chunks.len() == 0 {
        0
    } else {
        dirty_count(chunks.drop_last()) + if chunks.last().dirty {
            1nat
        } else {
            0nat
        }
    }
}

/// Two stores whose dirty flags agree everywhere but at `i` have dirty counts
/// that differ by exactly that flag.
proof fn lemma_dirty_count_step(a: Seq<Chunk>, b: Seq<Chunk>, i: int)
    requires
        a.len() == b.len(),
        0 <= i < a.len(),
        forall|j: int| 0 <= j < a.len() && j != i ==> a[j].dirty == b[j].dirty,
    ensures
        dirty_count(b) + (if a[i].dirty { 1int } else { 0int }) == dirty_count(a) + (if b[i].dirty {
            1int
        } else {
            0int
        }),
    decreases a.len(),
{
    if i < a.len() - 1 {
        lemma_dirty_count_step(a.drop_last(), b.drop_last(), i);
    } else {
        lemma_dirty_count_same(a.drop_last(), b.drop_last());
    }
}

proof fn lemma_dirty_count_same(a: Seq<Chunk>, b: Seq<Chunk>)
    requires
        a.len() == b.len(),
        forall|j: int| 0 <= j < a.len() ==> a[j].dirty == b[j].dirty,
    ensures
        dirty_count(a) == dirty_count(b),
    decreases a.len(),
{
    if a.len() > 0 {
        lemma_dirty_count_same(a.drop_last(), b.drop_last());
    }
}

proof fn lemma_dirty_count_none(a: Seq<Chunk>)
    requires
        forall|j: int| 0 <= j < a.len() ==> !(#[trigger] a[j]).dirty,
    ensures
        dirty_count(a) == 0,
    decreases a.len(),
{
    if a.len() > 0 {
        lemma_dirty_count_none(a.drop_last());
    }
}

proof fn lemma_dirty_count_zero(a: Seq<Chunk>, i: int)
    requires
        0 <= i < a.len(),
        a[i].dirty,
    ensures
        dirty_count(a) > 0,
    decreases a.len(),
{
    if i < a.len() - 1 {
        lemma_dirty_count_zero(a.drop_last(), i);
    }
}

/// One frame of rebuilding with cap `cap`: the dirty count drops by the cap,
/// or to zero when fewer are dirty.
pub open spec fn rebuild_frame(before: Seq<Chunk>, after: Seq<Chunk>, cap: nat) -> bool {
    dirty_count(after) == dirty_count(before) - if dirty_count(before) < cap {
        dirty_count(before) as int
    } else {
        cap as int
    }
}

/// Dirty resolution: over a run of rebuild frames with no loads or edits in
/// between, once the frames times the cap reach the initial dirty count, no
/// chunk is dirty any more.
pub proof fn lemma_dirty_resolution(frames: Seq<Seq<Chunk>>, cap: nat)
    requires
        cap >= 1,
        frames.len() >= 1,
        forall|k: int| 0 <= k < frames.len() - 1 ==> rebuild_frame(#[trigger] frames[k], frames[k + 1], cap),
        (frames.len() - 1) * cap >= dirty_count(frames[0]),
    ensures
        forall|i: int| 0 <= i < frames.last().len() ==> !(#[trigger] frames.last()[i]).dirty,
{
    let d0 = dirty_count(frames[0]) as int;
    assert forall|k: int| 0 <= k < frames.len() implies #[trigger] dirty_count(frames[k]) <= if d0 - k * cap > 0 {
        d0 - k * cap
    } else {
        0
    } by {
        lemma_dirty_bound(frames, cap, k);
    }
    let n = frames.len() - 1;
    assert(dirty_count(frames[n]) == 0) by {
        assert(dirty_count(frames[n]) <= if d0 - n * cap > 0 {
            d0 - n * cap
        } else {
            0
        });
    }
    assert forall|i: int| 0 <= i < frames.last().len() implies !(#[trigger] frames.last()[i]).dirty by {
        if frames.last()[i].dirty {
            lemma_dirty_count_zero(frames.last(), i);
        }
    }
}

proof fn lemma_dirty_bound(frames: Seq<Seq<Chunk>>, cap: nat, k: int)
    requires
        cap >= 1,
        0 <= k < frames.len(),
        forall|j: int| 0 <= j < frames.len() - 1 ==> rebuild_frame(#[trigger] frames[j], frames[j + 1], cap),
    ensures
        dirty_count(frames[k]) <= if dirty_count(frames[0]) - k * cap > 0 {
            dirty_count(frames[0]) - k * cap
        } else {
            0
        },
    decreases k,
{
    if k > 0 {
        lemma_dirty_bound(frames, cap, k - 1);
        assert(rebuild_frame(frames[k - 1], frames[k], cap));
        let d = dirty_count(frames[0]) as int;
        let prev = dirty_count(frames[k - 1]) as int;
        let next = dirty_count(frames[k]) as int;
        let c = cap as int;
        assert((k - 1) * c + c == k * c) by (nonlinear_arith);
        assert(prev <= if d - (k - 1) * c > 0 {
            d - (k - 1) * c
        } else {
            0
        });
        if prev >= c {
            assert(next == prev - c);
            assert(d - (k - 1) * c > 0);
            assert(next <= d - k * c);
            assert(next >= 0);
        } else {
            assert(next == 0);
        }
    } else {
        assert(k * cap == 0) by (nonlinear_arith)
            requires
                k == 0,
        ;
    }
}

/// `layer` is the touching layer of chunk `nb` across face `f`.
pub open spec fn layer_matches(layer: Seq<Block>, nb: Chunk, f: Face) -> bool {
    let s = nb.size as int;
    &&& layer.len() == s * s
    &&& forall|u: int, v: int|
        0 <= u < s && 0 <= v < s ==> #[trigger] layer[cell(s, u, v)] == nb.block_at(
            touching_voxel(f, s, u, v).0,
            touching_voxel(f, s, u, v).1,
            touching_voxel(f, s, u, v).2,
        )
}

/// `border` snapshots, for the chunk at `me`, the touching layers of exactly
/// those of its six neighbours that are stored in `chunks`.
pub open spec fn border_matches(chunks: Seq<Chunk>, me: ChunkPos, border: NeighborBorder) -> bool {
    &&& forall|f: Face|
        !holds_chunk(chunks, #[trigger] step_pos(me, f)) ==> border.layer(f) is None
    &&& forall|f: Face, j: int|
        0 <= j < chunks.len() && #[trigger] chunks[j].pos == #[trigger] step_pos(me, f) ==> border.layer(f) is Some
            && layer_matches(border.layer(f).unwrap()@, chunks[j], f)
}

/// Chunk `c` was rebuilt from `chunks` (its blocks, and the border taken from its
/// stored neighbours): its cached meshes are exact for them.
pub open spec fn rebuilt_from(chunks: Seq<Chunk>, c: Chunk) -> bool {
    exists|border: NeighborBorder|
        #![trigger border_matches(chunks, c.pos, border)]
        border.wf() && border.size == c.size && border_matches(chunks, c.pos, border) && meshes_exact(
            c.blocks@,
            border,
            mesh_quads(c.mesh),
            mesh_quads(c.transparent_mesh),
        ) && mesh_cached(c.mesh) && mesh_cached(c.transparent_mesh)
}

/// Same positions and blocks, index by index.
pub open spec fn same_voxels(a: Seq<Chunk>, b: Seq<Chunk>) -> bool {
    &&& a.len() == b.len()
    &&& forall|j: int|
        0 <= j < a.len() ==> (#[trigger] a[j]).pos == b[j].pos && a[j].size == b[j].size && a[j].blocks@
            == b[j].blocks@
}

proof fn lemma_border_transfer(a: Seq<Chunk>, b: Seq<Chunk>, me: ChunkPos, border: NeighborBorder)
    requires
        same_voxels(a, b),
        border_matches(a, me, border),
    ensures
        border_matches(b, me, border),
{
    assert forall|f: Face| !holds_chunk(b, #[trigger] step_pos(me, f)) implies border.layer(f) is None by {
        if holds_chunk(a, step_pos(me, f)) {
            let j = choose|j: int| 0 <= j < a.len() && (#[trigger] a[j]).pos == step_pos(me, f);
            assert(b[j].pos == step_pos(me, f));
        }
    }
    assert forall|f: Face, j: int|
        0 <= j < b.len() && #[trigger] b[j].pos == #[trigger] step_pos(me, f) implies border.layer(f) is Some
            && layer_matches(border.layer(f).unwrap()@, b[j], f) by {
        assert(a[j].pos == step_pos(me, f));
        assert(layer_matches(border.layer(f).unwrap()@, a[j], f));
    }
}

fn distance_sq_exec(p: ChunkPos, v: ChunkPos) -> (r: i64)
    requires
        coord_ok(p),
        view_ok(v),
    ensures
        r == distance_sq(p, v),
{
    let dx = p.x as i64 - v.x as i64;
    let dy = p.y as i64 - v.y as i64;
    let dz = p.z as i64 - v.z as i64;
    assert(0 <= dx * dx <= 0x10_0000_0000_0000) by (nonlinear_arith)
        requires
            -4_000_000 <= dx <= 4_000_000,
    ;
    assert(0 <= dy * dy <= 0x10_0000_0000_0000) by (nonlinear_arith)
        requires
            -4_000_000 <= dy <= 4_000_000,
    ;
    assert(0 <= dz * dz <= 0x10_0000_0000_0000) by (nonlinear_arith)
        requires
            -4_000_000 <= dz <= 4_000_000,
    ;
    dx * dx + dy * dy + dz * dz
}

/// A chunk just stored from generation result `r`: its blocks, dirty, no meshes yet.
pub open spec fn fresh_from(c: Chunk, r: ChunkGenResult) -> bool {
    &&& c.blocks@ == r.blocks@
    &&& c.dirty
    &&& c.mesh is None
    &&& c.transparent_mesh is None
}

/// Some of the first `n` results is for `p`.
pub open spec fn received_pos(rs: Seq<ChunkGenResult>, n: int, p: ChunkPos) -> bool {
    exists|k: int| 0 <= k < n && (#[trigger] rs[k]).pos == p
}

/// Some of the first `n` results is for `p`, and `p` lies within `rd` of `v`.
pub open spec fn stored_result(rs: Seq<ChunkGenResult>, n: int, v: ChunkPos, rd: int, p: ChunkPos) -> bool {
    received_pos(rs, n, p) && flat_distance(p, v) <= rd
}

/// Some of the first `n` results within `rd` of `v` shares a face with `p`.
pub open spec fn touched_by(rs: Seq<ChunkGenResult>, n: int, v: ChunkPos, rd: int, p: ChunkPos) -> bool {
    exists|k: int| 0 <= k < n && flat_distance((#[trigger] rs[k]).pos, v) <= rd && adjacent(rs[k].pos, p)
}

/// Result `k` is the last of the first `n` for its coordinate.
pub open spec fn latest_result(rs: Seq<ChunkGenResult>, n: int, k: int) -> bool {
    0 <= k < n && forall|j: int| k < j < n ==> (#[trigger] rs[j]).pos != rs[k].pos
}

/// What a stored chunk is once the first `n` results have come in, with the
/// viewpoint chunk `v` and render distance `rd`: the latest in-range result
/// for its coordinate, freshly stored; otherwise the chunk that was stored
/// before, unchanged but for being marked dirty when an in-range result
/// arrived next to it.
pub open spec fn chunk_after_results(
    before: Seq<Chunk>,
    rs: Seq<ChunkGenResult>,
    n: int,
    v: ChunkPos,
    rd: int,
    c: Chunk,
) -> bool {
    if stored_result(rs, n, v, rd, c.pos) {
        exists|k: int| latest_result(rs, n, k) && rs[k].pos == c.pos && #[trigger] fresh_from(c, rs[k])
    } else {
        exists|j: int|
            0 <= j < before.len() && (#[trigger] before[j]).pos == c.pos && same_chunk_but_dirty(
                before[j],
                c,
                before[j].dirty || touched_by(rs, n, v, rd, c.pos),
            )
    }
}

proof fn lemma_received_step(rs: Seq<ChunkGenResult>, k: int, p: ChunkPos)
    requires
        0 <= k < rs.len(),
    ensures
        received_pos(rs, k + 1, p) <==> (received_pos(rs, k, p) || rs[k].pos == p),
{
    if received_pos(rs, k + 1, p) {
        let j = choose|j: int| 0 <= j < k + 1 && (#[trigger] rs[j]).pos == p;
        if j < k {
            assert(received_pos(rs, k, p));
        }
    }
    if received_pos(rs, k, p) {
        let j = choose|j: int| 0 <= j < k && (#[trigger] rs[j]).pos == p;
        assert(0 <= j < k + 1 && rs[j].pos == p);
    }
    if rs[k].pos == p {
        assert(0 <= k < k + 1 && rs[k].pos == p);
    }
}

proof fn lemma_touched_step(rs: Seq<ChunkGenResult>, k: int, v: ChunkPos, rd: int, p: ChunkPos)
    requires
        0 <= k < rs.len(),
    ensures
        touched_by(rs, k + 1, v, rd, p) <==> (touched_by(rs, k, v, rd, p) || (flat_distance(rs[k].pos, v) <= rd
            && adjacent(rs[k].pos, p))),
{
    if touched_by(rs, k + 1, v, rd, p) {
        let j = choose|j: int| 0 <= j < k + 1 && flat_distance((#[trigger] rs[j]).pos, v) <= rd && adjacent(rs[j].pos, p);
        if j < k {
            assert(touched_by(rs, k, v, rd, p));
        }
    }
    if touched_by(rs, k, v, rd, p) {
        let j = choose|j: int| 0 <= j < k && flat_distance((#[trigger] rs[j]).pos, v) <= rd && adjacent(rs[j].pos, p);
        assert(0 <= j < k + 1 && flat_distance(rs[j].pos, v) <= rd && adjacent(rs[j].pos, p));
    }
    if flat_distance(rs[k].pos, v) <= rd && adjacent(rs[k].pos, p) {
        assert(0 <= k < k + 1 && flat_distance(rs[k].pos, v) <= rd && adjacent(rs[k].pos, p));
    }
}

/// Taking in result `k` keeps every stored chunk described by `chunk_after_results`.
proof fn lemma_chunks_after_result(
    before: Seq<Chunk>,
    prev: Seq<Chunk>,
    next: Seq<Chunk>,
    rs: Seq<ChunkGenResult>,
    k: int,
    v: ChunkPos,
    rd: int,
)
    requires
        0 <= k < rs.len(),
        forall|i: int| 0 <= i < prev.len() ==> chunk_after_results(before, rs, k, v, rd, #[trigger] prev[i]),
        flat_distance(rs[k].pos, v) <= rd ==> forall|i: int|
            0 <= i < next.len() ==> if (#[trigger] next[i]).pos == rs[k].pos {
                fresh_from(next[i], rs[k])
            } else {
                i < prev.len() && same_chunk_but_dirty(prev[i], next[i], prev[i].dirty || adjacent(prev[i].pos, rs[k].pos))
            },
        flat_distance(rs[k].pos, v) > rd ==> next == prev,
    ensures
        forall|i: int| 0 <= i < next.len() ==> chunk_after_results(before, rs, k + 1, v, rd, #[trigger] next[i]),
{
    let r = rs[k];
    assert forall|i: int| 0 <= i < next.len() implies chunk_after_results(before, rs, k + 1, v, rd, #[trigger] next[i]) by {
        let c = next[i];
        lemma_received_step(rs, k, c.pos);
        lemma_touched_step(rs, k, v, rd, c.pos);
        if flat_distance(r.pos, v) <= rd && c.pos == r.pos {
            assert(stored_result(rs, k + 1, v, rd, c.pos));
            assert(latest_result(rs, k + 1, k));
            assert(fresh_from(c, rs[k]));
        } else {
            let p = if flat_distance(r.pos, v) <= rd {
                prev[i]
            } else {
                c
            };
            if flat_distance(r.pos, v) <= rd {
                assert(same_chunk_but_dirty(p, c, p.dirty || adjacent(p.pos, r.pos)));
            } else {
                assert(c == prev[i]);
            }
            assert(p.pos == c.pos);
            assert(chunk_after_results(before, rs, k, v, rd, p));
            assert(stored_result(rs, k + 1, v, rd, c.pos) == stored_result(rs, k, v, rd, c.pos));
            if stored_result(rs, k, v, rd, c.pos) {
                let kk = choose|kk: int| latest_result(rs, k, kk) && rs[kk].pos == p.pos && #[trigger] fresh_from(p, rs[kk]);
                assert(rs[k].pos != rs[kk].pos);
                assert(latest_result(rs, k + 1, kk));
                assert(fresh_from(c, rs[kk]));
            } else {
                let j = choose|j: int|
                    0 <= j < before.len() && (#[trigger] before[j]).pos == p.pos && same_chunk_but_dirty(
                        before[j],
                        p,
                        before[j].dirty || touched_by(rs, k, v, rd, p.pos),
                    );
                assert(adjacent(p.pos, r.pos) == adjacent(r.pos, p.pos));
                assert(same_chunk_but_dirty(before[j], c, before[j].dirty || touched_by(rs, k + 1, v, rd, c.pos)));
            }
        }
    }
}

/// The voxel world around a moving viewpoint: loaded chunks, coordinates
/// whose generation is pending, the render distance, the last viewpoint chunk,
/// and the streaming parameters.
pub struct World {
    pub chunks: Vec<Chunk>,
    pub render_distance: i32,
    pub last_player_chunk: Option<ChunkPos>,
    pub pending_chunks: Vec<ChunkPos>,
    pub config: StreamConfig,
}

impl World {
    pub open spec fn loaded(&self, p: ChunkPos) -> bool {
        holds_chunk(self.chunks@, p)
    }

    pub open spec fn pending(&self, p: ChunkPos) -> bool {
        self.pending_chunks@.contains(p)
    }

    pub open spec fn wf(&self) -> bool {
        &&& self.config.valid()
        &&& 1 <= self.render_distance <= MAX_RENDER_DISTANCE
        &&& forall|i: int|
            0 <= i < self.chunks@.len() ==> (#[trigger] self.chunks@[i]).wf() && self.chunks@[i].size
                == self.config.chunk_size && coord_ok(self.chunks@[i].pos)
        &&& keys_unique(self.chunks@)
        &&& no_duplicates(self.pending_chunks@)
        &&& forall|i: int| 0 <= i < self.pending_chunks@.len() ==> coord_ok(#[trigger] self.pending_chunks@[i])
        &&& forall|i: int, j: int|
            0 <= i < self.chunks@.len() && 0 <= j < self.pending_chunks@.len() ==> (#[trigger] self.chunks@[i]).pos
                != #[trigger] self.pending_chunks@[j]
        &&& self.last_player_chunk is Some ==> abs(self.last_player_chunk.unwrap().x as int) <= VIEW_LIMIT && abs(
            self.last_player_chunk.unwrap().z as int,
        ) <= VIEW_LIMIT && self.last_player_chunk.unwrap().y == 0
    }

    /// An empty world: nothing loaded or pending, no viewpoint yet.
    pub fn new(config: StreamConfig) -> (w: World)
        requires
            config.valid(),
        ensures
            w.wf(),
            w.config == config,
            w.render_distance == DEFAULT_RENDER_DISTANCE,
            w.last_player_chunk is None,
            w.chunks@.len() == 0,
            w.pending_chunks@.len() == 0,
    {
        World {
            chunks: Vec::new(),
            render_distance: DEFAULT_RENDER_DISTANCE,
            last_player_chunk: None,
            pending_chunks: Vec::new(),
            config,
        }
    }

    /// Sets the render distance, raised to at least 1.
    pub fn set_render_distance(&mut self, radius: i32)
        requires
            old(self).wf(),
            radius <= MAX_RENDER_DISTANCE,
        ensures
            final(self).wf(),
            final(self).render_distance == if radius < 1 {
                1
            } else {
                radius
            },
            final(self).chunks@ == old(self).chunks@,
            final(self).pending_chunks@ == old(self).pending_chunks@,
            final(self).last_player_chunk == old(self).last_player_chunk,
            final(self).config == old(self).config,
    {
        self.render_distance = if radius < 1 {
            1
        } else {
            radius
        };
    }

    pub fn get_render_distance(&self) -> (r: i32)
        ensures
            r == self.render_distance,
    {
        self.render_distance
    }

    /// The number of loaded chunks.
    pub fn chunk_count(&self) -> (r: usize)
        ensures
            r == self.chunks@.len(),
    {
        self.chunks.len()
    }

    /// The number of coordinates awaiting generation.
    pub fn pending_count(&self) -> (r: usize)
        ensures
            r == self.pending_chunks@.len(),
    {
        self.pending_chunks.len()
    }

    /// Where the chunk at `p` is stored, if it is loaded.
    pub fn find_chunk(&self, p: ChunkPos) -> (r: Option<usize>)
        ensures
            match r {
                Some(i) => i < self.chunks@.len() && self.chunks@[i as int].pos == p,
                None => !self.loaded(p),
            },
    {
        let mut i: usize = 0;
        while i < self.chunks.len()
            invariant
                i <= self.chunks@.len(),
                forall|j: int| 0 <= j < i ==> (#[trigger] self.chunks@[j]).pos != p,
            decreases self.chunks@.len() - i,
        {
            if self.chunks[i].pos == p {
                return Some(i);
            }
            i = i + 1;
        }
        None
    }

    /// Whether generation of `p` is awaited.
    pub fn is_pending(&self, p: ChunkPos) -> (r: bool)
        ensures
            r == self.pending(p),
    {
        let mut i: usize = 0;
        while i < self.pending_chunks.len()
            invariant
                i <= self.pending_chunks@.len(),
                forall|j: int| 0 <= j < i ==> self.pending_chunks@[j] != p,
            decreases self.pending_chunks@.len() - i,
        {
            if self.pending_chunks[i] == p {
                return true;
            }
            i = i + 1;
        }
        false
    }

    /// Drops `p` from the pending coordinates.
    fn remove_pending(&mut self, p: ChunkPos)
        requires
            old(self).wf(),
        ensures
            final(self).wf(),
            final(self).chunks@ == old(self).chunks@,
            final(self).render_distance == old(self).render_distance,
            final(self).last_player_chunk == old(self).last_player_chunk,
            final(self).config == old(self).config,
            forall|q: ChunkPos| final(self).pending(q) <==> (old(self).pending(q) && q != p),
    {
        let mut kept: Vec<ChunkPos> = Vec::new();
        let mut i: usize = 0;
        while i < self.pending_chunks.len()
            invariant
                i <= self.pending_chunks@.len(),
                no_duplicates(self.pending_chunks@),
                no_duplicates(kept@),
                forall|j: int| 0 <= j < kept@.len() ==> exists|k: int| 0 <= k < i && self.pending_chunks@[k] == #[trigger] kept@[j],
                forall|j: int| 0 <= j < kept@.len() ==> kept@[j] != p,
                forall|k: int| 0 <= k < i && self.pending_chunks@[k] != p ==> kept@.contains(#[trigger] self.pending_chunks@[k]),
            decreases self.pending_chunks@.len() - i,
        {
            let q = self.pending_chunks[i];
            if q != p {
                proof {
                    assert forall|j: int| 0 <= j < kept@.len() implies kept@[j] != q by {
                        let k = choose|k: int| 0 <= k < i && self.pending_chunks@[k] == kept@[j];
                    }
                }
                let ghost before = kept@;
                kept.push(q);
                proof {
                    assert forall|j: int| 0 <= j < kept@.len() implies exists|k: int| 0 <= k < i + 1 && self.pending_chunks@[k] == #[trigger] kept@[j] by {
                        if j < before.len() {
                            let k = choose|k: int| 0 <= k < i && self.pending_chunks@[k] == before[j];
                        } else {
                            assert(self.pending_chunks@[i as int] == kept@[j]);
                        }
                    }
                    assert forall|k: int| 0 <= k < i + 1 && self.pending_chunks@[k] != p implies kept@.contains(#[trigger] self.pending_chunks@[k]) by {
                        if k < i {
                            let j = choose|j: int| 0 <= j < before.len() && before[j] == self.pending_chunks@[k];
                            assert(kept@[j] == self.pending_chunks@[k]);
                        } else {
                            assert(kept@[before.len() as int] == q);
                        }
                    }
                }
            }
            i = i + 1;
        }
        let ghost old_pending = self.pending_chunks@;
        self.pending_chunks = kept;
        proof {
            assert forall|q: ChunkPos| self.pending(q) <==> (old(self).pending(q) && q != p) by {
                if self.pending(q) {
                    let j = choose|j: int| 0 <= j < kept@.len() && kept@[j] == q;
                    let k = choose|k: int| 0 <= k < old_pending.len() && old_pending[k] == #[trigger] kept@[j];
                }
                if old(self).pending(q) && q != p {
                    let k = choose|k: int| 0 <= k < old_pending.len() && old_pending[k] == q;
                }
            }
            assert forall|i: int| 0 <= i < self.pending_chunks@.len() implies coord_ok(#[trigger] self.pending_chunks@[i]) by {
                let k = choose|k: int| 0 <= k < old_pending.len() && old_pending[k] == #[trigger] kept@[i];
            }
            assert forall|i: int, j: int|
                0 <= i < self.chunks@.len() && 0 <= j < self.pending_chunks@.len() implies (#[trigger] self.chunks@[i]).pos
                    != #[trigger] self.pending_chunks@[j] by {
                let k = choose|k: int| 0 <= k < old_pending.len() && old_pending[k] == #[trigger] kept@[j];
            }
        }
    }

    /// Whether `p` is within render distance of the last viewpoint chunk.
    pub open spec fn in_render_range(&self, p: ChunkPos) -> bool {
        &&& self.last_player_chunk is Some
        &&& flat_distance(p, self.last_player_chunk.unwrap()) <= self.render_distance
    }

    /// Marks dirty every loaded chunk that shares a face with `p`.
    fn mark_neighbors_dirty(&mut self, p: ChunkPos)
        requires
            old(self).wf(),
            coord_ok(p),
        ensures
            final(self).wf(),
            final(self).chunks@.len() == old(self).chunks@.len(),
            forall|i: int|
                0 <= i < old(self).chunks@.len() ==> same_chunk_but_dirty(
                    #[trigger] old(self).chunks@[i],
                    final(self).chunks@[i],
                    old(self).chunks@[i].dirty || adjacent(old(self).chunks@[i].pos, p),
                ),
            final(self).pending_chunks@ == old(self).pending_chunks@,
            final(self).render_distance == old(self).render_distance,
            final(self).last_player_chunk == old(self).last_player_chunk,
            final(self).config == old(self).config,
    {
        let ghost before = self.chunks@;
        let mut i: usize = 0;
        while i < self.chunks.len()
            invariant
                old(self).wf(),
                before == old(self).chunks@,
                self.pending_chunks@ == old(self).pending_chunks@,
                self.render_distance == old(self).render_distance,
                self.last_player_chunk == old(self).last_player_chunk,
                self.config == old(self).config,
                i <= self.chunks@.len(),
                self.chunks@.len() == before.len(),
                coord_ok(p),
                forall|j: int| 0 <= j < before.len() ==> coord_ok(#[trigger] before[j].pos),
                forall|j: int|
                    0 <= j < i ==> same_chunk_but_dirty(
                        #[trigger] before[j],
                        self.chunks@[j],
                        before[j].dirty || adjacent(before[j].pos, p),
                    ),
                forall|j: int| i <= j < before.len() ==> #[trigger] self.chunks@[j] == before[j],
            decreases self.chunks@.len() - i,
        {
            let q = self.chunks[i].pos;
            assert(coord_ok(before[i as int].pos));
            let dx = q.x as i64 - p.x as i64;
            let dy = q.y as i64 - p.y as i64;
            let dz = q.z as i64 - p.z as i64;
            let ax = if dx < 0 { -dx } else { dx };
            let ay = if dy < 0 { -dy } else { dy };
            let az = if dz < 0 { -dz } else { dz };
            if ax + ay + az == 1 {
                self.chunks[i].dirty = true;
            }
            i = i + 1;
        }
        proof {
            assert forall|j: int| 0 <= j < self.chunks@.len() implies (#[trigger] self.chunks@[j]).wf()
                && self.chunks@[j].size == self.config.chunk_size && coord_ok(self.chunks@[j].pos) by {
                assert(same_chunk_but_dirty(before[j], self.chunks@[j], before[j].dirty || adjacent(before[j].pos, p)));
                assert(before[j].wf());
            }
            assert forall|a: int, b: int|
                0 <= a < self.chunks@.len() && 0 <= b < self.chunks@.len() && a != b implies self.chunks@[a].pos
                    != self.chunks@[b].pos by {
                assert(same_chunk_but_dirty(before[a], self.chunks@[a], before[a].dirty || adjacent(before[a].pos, p)));
                assert(same_chunk_but_dirty(before[b], self.chunks@[b], before[b].dirty || adjacent(before[b].pos, p)));
            }
            assert forall|a: int, b: int|
                0 <= a < self.chunks@.len() && 0 <= b < self.pending_chunks@.len() implies (#[trigger] self.chunks@[a]).pos
                    != #[trigger] self.pending_chunks@[b] by {
                assert(same_chunk_but_dirty(before[a], self.chunks@[a], before[a].dirty || adjacent(before[a].pos, p)));
            }
        }
    }

    /// Takes in a completed generation result: the coordinate stops pending;
    /// if it is still within render distance of the current viewpoint, its
    /// chunk is stored (dirty, replacing any earlier copy) and every loaded
    /// chunk sharing a face with it is marked dirty; otherwise it is dropped.
    pub fn receive_chunk(&mut self, result: ChunkGenResult)
        requires
            old(self).wf(),
            old(self).last_player_chunk is Some,
            result.blocks@.len() == volume(old(self).config.chunk_size as int),
            coord_ok(result.pos),
        ensures
            final(self).wf(),
            final(self).render_distance == old(self).render_distance,
            final(self).last_player_chunk == old(self).last_player_chunk,
            final(self).config == old(self).config,
            forall|q: ChunkPos| final(self).pending(q) <==> (old(self).pending(q) && q != result.pos),
            old(self).in_render_range(result.pos) ==> {
                &&& final(self).chunks@.len() == old(self).chunks@.len() + if old(self).loaded(result.pos) {
                    0int
                } else {
                    1int
                }
                &&& forall|i: int|
                    0 <= i < old(self).chunks@.len() && old(self).chunks@[i].pos != result.pos ==> same_chunk_but_dirty(
                        #[trigger] old(self).chunks@[i],
                        final(self).chunks@[i],
                        old(self).chunks@[i].dirty || adjacent(old(self).chunks@[i].pos, result.pos),
                    )
                &&& exists|k: int|
                    0 <= k < final(self).chunks@.len() && (#[trigger] final(self).chunks@[k]).pos == result.pos
                        && final(self).chunks@[k].blocks@ == result.blocks@ && final(self).chunks@[k].dirty
                        && final(self).chunks@[k].mesh is None && final(self).chunks@[k].transparent_mesh is None
                &&& forall|i: int|
                    0 <= i < final(self).chunks@.len() ==> if (#[trigger] final(self).chunks@[i]).pos == result.pos {
                        fresh_from(final(self).chunks@[i], result)
                    } else {
                        i < old(self).chunks@.len() && same_chunk_but_dirty(
                            old(self).chunks@[i],
                            final(self).chunks@[i],
                            old(self).chunks@[i].dirty || adjacent(old(self).chunks@[i].pos, result.pos),
                        )
                    }
            },
            !old(self).in_render_range(result.pos) ==> final(self).chunks@ == old(self).chunks@,
            forall|q: ChunkPos| old(self).loaded(q) ==> #[trigger] final(self).loaded(q),
            old(self).in_render_range(result.pos) ==> final(self).loaded(result.pos),
    {
        let ChunkGenResult { pos, blocks } = result;
        self.remove_pending(pos);
        let ghost pend = self.pending_chunks@;
        proof {
            assert forall|q: ChunkPos| pend.contains(q) implies q != pos by {
                assert(self.pending(q));
            }
        }
        let view = match self.last_player_chunk {
            Some(v) => v,
            None => {
                return;
            },
        };
        let dx = pos.x as i64 - view.x as i64;
        let dz = pos.z as i64 - view.z as i64;
        let ax = if dx < 0 { -dx } else { dx };
        let az = if dz < 0 { -dz } else { dz };
        if ax > self.render_distance as i64 || az > self.render_distance as i64 {
            proof {
                assert forall|q: ChunkPos| old(self).loaded(q) implies #[trigger] self.loaded(q) by {
                    let j = choose|j: int| 0 <= j < old(self).chunks@.len() && (#[trigger] old(self).chunks@[j]).pos == q;
                    assert(self.chunks@[j].pos == q);
                }
            }
            return;
        }
        let chunk = Chunk::from_blocks(pos, self.config.chunk_size, blocks);
        let ghost mid = self.chunks@;
        assert(forall|a: int, b: int|
            0 <= a < mid.len() && 0 <= b < self.pending_chunks@.len() ==> (#[trigger] mid[a]).pos
                != #[trigger] self.pending_chunks@[b]);
        let ghost k: int;
        match self.find_chunk(pos) {
            Some(i) => {
                self.chunks.set(i, chunk);
                proof {
                    k = i as int;
                }
            },
            None => {
                self.chunks.push(chunk);
                proof {
                    k = mid.len() as int;
                }
            },
        }
        proof {
            assert forall|i: int| 0 <= i < self.chunks@.len() implies (#[trigger] self.chunks@[i]).wf()
                && self.chunks@[i].size == self.config.chunk_size && coord_ok(self.chunks@[i].pos) by {
                if i != k {
                    assert(self.chunks@[i] == mid[i]);
                }
            }
            assert forall|a: int, b: int|
                0 <= a < self.chunks@.len() && 0 <= b < self.chunks@.len() && a != b implies self.chunks@[a].pos
                    != self.chunks@[b].pos by {
                if a != k {
                    assert(self.chunks@[a] == mid[a]);
                }
                if b != k {
                    assert(self.chunks@[b] == mid[b]);
                }
            }
            assert forall|a: int, b: int|
                0 <= a < self.chunks@.len() && 0 <= b < self.pending_chunks@.len() implies (#[trigger] self.chunks@[a]).pos
                    != #[trigger] self.pending_chunks@[b] by {
                if a != k {
                    assert(self.chunks@[a] == mid[a]);
                    assert(mid[a].pos != self.pending_chunks@[b]);
                } else {
                    assert(self.chunks@[a].pos == pos);
                    let q = self.pending_chunks@[b];
                    assert(self.pending_chunks@.contains(q));
                    assert(q != pos);
                }
            }
        }
        let ghost placed = self.chunks@;
        self.mark_neighbors_dirty(pos);
        proof {
            assert(same_chunk_but_dirty(placed[k], self.chunks@[k], placed[k].dirty || adjacent(placed[k].pos, pos)));
            assert(old(self).loaded(pos) ==> mid.len() == old(self).chunks@.len() && k < mid.len()) by {
                if old(self).loaded(pos) {
                    let j = choose|j: int| 0 <= j < old(self).chunks@.len() && (#[trigger] old(self).chunks@[j]).pos == pos;
                    assert(mid[j].pos == pos);
                }
            }
            assert forall|q: ChunkPos| old(self).loaded(q) implies #[trigger] self.loaded(q) by {
                let j = choose|j: int| 0 <= j < old(self).chunks@.len() && (#[trigger] old(self).chunks@[j]).pos == q;
                assert(mid[j].pos == q);
                if j == k {
                    assert(self.chunks@[k].pos == q);
                } else {
                    assert(placed[j] == mid[j]);
                    assert(same_chunk_but_dirty(placed[j], self.chunks@[j], placed[j].dirty || adjacent(placed[j].pos, pos)));
                    assert(self.chunks@[j].pos == q);
                }
            }
            assert(self.chunks@[k].pos == pos);
            assert forall|i: int| 0 <= i < self.chunks@.len() implies if (#[trigger] self.chunks@[i]).pos == pos {
                fresh_from(self.chunks@[i], result)
            } else {
                i < old(self).chunks@.len() && same_chunk_but_dirty(
                    old(self).chunks@[i],
                    self.chunks@[i],
                    old(self).chunks@[i].dirty || adjacent(old(self).chunks@[i].pos, pos),
                )
            } by {
                if self.chunks@[i].pos == pos {
                    assert(i == k);
                } else {
                    assert(i != k);
                    assert(same_chunk_but_dirty(placed[i], self.chunks@[i], placed[i].dirty || adjacent(placed[i].pos, pos)));
                    assert(placed[i] == mid[i]);
                }
            }
            assert forall|i: int|
                0 <= i < old(self).chunks@.len() && old(self).chunks@[i].pos != pos implies same_chunk_but_dirty(
                #[trigger] old(self).chunks@[i],
                self.chunks@[i],
                old(self).chunks@[i].dirty || adjacent(old(self).chunks@[i].pos, pos),
            ) by {
                assert(placed[i] == mid[i]);
                assert(same_chunk_but_dirty(placed[i], self.chunks@[i], placed[i].dirty || adjacent(placed[i].pos, pos)));
            }
        }
    }

    /// Whether `p` lies in the region kept loaded around the last viewpoint
    /// chunk (within render distance horizontally, within the vertical band)
    /// and is neither loaded nor pending.
    pub open spec fn wanted(&self, p: ChunkPos) -> bool {
        &&& self.last_player_chunk is Some
        &&& self.config.band_min <= p.y <= self.config.band_max
        &&& abs(p.x - self.last_player_chunk.unwrap().x) <= self.render_distance
        &&& abs(p.z - self.last_player_chunk.unwrap().z) <= self.render_distance
        &&& !self.loaded(p)
        &&& !self.pending(p)
    }

    /// Every wanted coordinate, each once.
    fn collect_candidates(&self) -> (cs: Vec<ChunkPos>)
        requires
            self.wf(),
            self.last_player_chunk is Some,
        ensures
            no_duplicates(cs@),
            forall|k: int| 0 <= k < cs@.len() ==> self.wanted(#[trigger] cs@[k]),
            forall|p: ChunkPos| self.wanted(p) ==> cs@.contains(p),
    {
        let view = match self.last_player_chunk {
            Some(v) => v,
            None => {
                return Vec::new();
            },
        };
        let rd = self.render_distance;
        let mut cs: Vec<ChunkPos> = Vec::new();
        let mut cy: i32 = self.config.band_min;
        while cy <= self.config.band_max
            invariant
                self.wf(),
                self.last_player_chunk == Some(view),
                rd == self.render_distance,
                self.config.band_min <= cy <= self.config.band_max + 1,
                no_duplicates(cs@),
                forall|k: int| 0 <= k < cs@.len() ==> self.wanted(#[trigger] cs@[k]) && cs@[k].y < cy,
                forall|p: ChunkPos| self.wanted(p) && p.y < cy ==> cs@.contains(p),
            decreases self.config.band_max + 1 - cy,
        {
            let mut cz: i32 = view.z - rd;
            while cz <= view.z + rd
                invariant
                    self.wf(),
                    self.last_player_chunk == Some(view),
                    rd == self.render_distance,
                    self.config.band_min <= cy <= self.config.band_max,
                    view.z - rd <= cz <= view.z + rd + 1,
                    no_duplicates(cs@),
                    forall|k: int|
                        0 <= k < cs@.len() ==> self.wanted(#[trigger] cs@[k]) && (cs@[k].y < cy || (cs@[k].y == cy
                            && cs@[k].z < cz)),
                    forall|p: ChunkPos| self.wanted(p) && (p.y < cy || (p.y == cy && p.z < cz)) ==> cs@.contains(p),
                decreases view.z + rd + 1 - cz,
            {
                let mut cx: i32 = view.x - rd;
                while cx <= view.x + rd
                    invariant
                        self.wf(),
                        self.last_player_chunk == Some(view),
                        rd == self.render_distance,
                        self.config.band_min <= cy <= self.config.band_max,
                        view.z - rd <= cz <= view.z + rd,
                        view.x - rd <= cx <= view.x + rd + 1,
                        no_duplicates(cs@),
                        forall|k: int|
                            0 <= k < cs@.len() ==> self.wanted(#[trigger] cs@[k]) && (cs@[k].y < cy || (cs@[k].y
                                == cy && (cs@[k].z < cz || (cs@[k].z == cz && cs@[k].x < cx)))),
                        forall|p: ChunkPos|
                            self.wanted(p) && (p.y < cy || (p.y == cy && (p.z < cz || (p.z == cz && p.x < cx))))
                                ==> cs@.contains(p),
                    decreases view.x + rd + 1 - cx,
                {
                    let p = ChunkPos { x: cx, y: cy, z: cz };
                    let missing = match self.find_chunk(p) {
                        Some(_) => false,
                        None => !self.is_pending(p),
                    };
                    let ghost before = cs@;
                    if missing {
                        cs.push(p);
                        proof {
                            assert forall|a: int, b: int| 0 <= a < cs@.len() && 0 <= b < cs@.len() && a != b implies cs@[a]
                                != cs@[b] by {
                                if a < before.len() && b < before.len() {
                                    assert(cs@[a] == before[a] && cs@[b] == before[b]);
                                } else if a < before.len() {
                                    assert(self.wanted(before[a]));
                                } else {
                                    assert(self.wanted(before[b]));
                                }
                            }
                            assert(cs@[before.len() as int] == p);
                        }
                    }
                    proof {
                        assert forall|q: ChunkPos|
                            self.wanted(q) && (q.y < cy || (q.y == cy && (q.z < cz || (q.z == cz && q.x < cx + 1))))
                                implies cs@.contains(q) by {
                            if q == p {
                                assert(cs@[before.len() as int] == p);
                            } else {
                                let j = choose|j: int| 0 <= j < before.len() && before[j] == q;
                                assert(cs@[j] == q);
                            }
                        }
                        assert forall|k: int| 0 <= k < cs@.len() implies self.wanted(#[trigger] cs@[k]) && (cs@[k].y
                            < cy || (cs@[k].y == cy && (cs@[k].z < cz || (cs@[k].z == cz && cs@[k].x < cx + 1)))) by {
                            if k < before.len() {
                                assert(cs@[k] == before[k]);
                            }
                        }
                    }
                    cx = cx + 1;
                }
                cz = cz + 1;
            }
            cy = cy + 1;
        }
        cs
    }

    /// Requests generation of the wanted coordinates nearest the viewpoint,
    /// nearest first, at most the per-frame cap of them; they become pending.
    /// Fewer than the cap are requested only when every wanted coordinate is.
    pub fn request_chunks(&mut self) -> (requested: Vec<ChunkPos>)
        requires
            old(self).wf(),
            old(self).last_player_chunk is Some,
        ensures
            final(self).wf(),
            final(self).chunks@ == old(self).chunks@,
            final(self).render_distance == old(self).render_distance,
            final(self).last_player_chunk == old(self).last_player_chunk,
            final(self).config == old(self).config,
            final(self).pending_chunks@ == old(self).pending_chunks@ + requested@,
            requested@.len() <= old(self).config.max_new_chunks_per_frame,
            no_duplicates(requested@),
            forall|k: int| 0 <= k < requested@.len() ==> old(self).wanted(#[trigger] requested@[k]),
            forall|a: int, b: int|
                0 <= a < b < requested@.len() ==> flat_distance_sq(requested@[a], old(self).last_player_chunk.unwrap())
                    <= flat_distance_sq(requested@[b], old(self).last_player_chunk.unwrap()),
            forall|p: ChunkPos, k: int|
                old(self).wanted(p) && !requested@.contains(p) && 0 <= k < requested@.len() ==> #[trigger] flat_distance_sq(
                    requested@[k],
                    old(self).last_player_chunk.unwrap(),
                ) <= #[trigger] flat_distance_sq(p, old(self).last_player_chunk.unwrap()),
            requested@.len() < old(self).config.max_new_chunks_per_frame ==> forall|p: ChunkPos|
                old(self).wanted(p) ==> requested@.contains(p),
    {
        let view = match self.last_player_chunk {
            Some(v) => v,
            None => {
                return Vec::new();
            },
        };
        let cs = self.collect_candidates();
        proof {
            assert forall|k: int| 0 <= k < cs@.len() implies coord_ok(#[trigger] cs@[k]) by {
                assert(self.wanted(cs@[k]));
            }
        }
        let out = select_nearest(&cs, view, self.config.max_new_chunks_per_frame);
        proof {
            assert forall|k: int| 0 <= k < out@.len() implies old(self).wanted(#[trigger] out@[k]) by {
                assert(cs@.contains(out@[k]));
            }
            assert forall|p: ChunkPos| old(self).wanted(p) implies cs@.contains(p) by {}
        }
        let ghost start = self.pending_chunks@;
        let mut i: usize = 0;
        while i < out.len()
            invariant
                i <= out@.len(),
                self.pending_chunks@ == start + out@.subrange(0, i as int),
                self.chunks@ == old(self).chunks@,
                self.render_distance == old(self).render_distance,
                self.last_player_chunk == old(self).last_player_chunk,
                self.config == old(self).config,
            decreases out@.len() - i,
        {
            self.pending_chunks.push(out[i]);
            proof {
                assert(out@.subrange(0, i + 1) =~= out@.subrange(0, i as int).push(out@[i as int]));
            }
            i = i + 1;
        }
        proof {
            assert(out@.subrange(0, out@.len() as int) =~= out@);
            let pend = self.pending_chunks@;
            assert forall|a: int, b: int| 0 <= a < pend.len() && 0 <= b < pend.len() && a != b implies pend[a] != pend[b] by {
                if a >= start.len() && b < start.len() {
                    assert(old(self).wanted(out@[a - start.len()]));
                    assert(old(self).pending(pend[b]));
                } else if a < start.len() && b >= start.len() {
                    assert(old(self).wanted(out@[b - start.len()]));
                    assert(old(self).pending(pend[a]));
                }
            }
            assert forall|k: int| 0 <= k < pend.len() implies coord_ok(#[trigger] pend[k]) by {
                if k >= start.len() {
                    assert(old(self).wanted(out@[k - start.len()]));
                }
            }
            assert forall|a: int, b: int|
                0 <= a < self.chunks@.len() && 0 <= b < pend.len() implies (#[trigger] self.chunks@[a]).pos
                    != #[trigger] pend[b] by {
                if b >= start.len() {
                    assert(old(self).wanted(out@[b - start.len()]));
                    assert(holds_chunk(old(self).chunks@, self.chunks@[a].pos));
                }
            }
        }
        out
    }

    /// Whether `p` lies within render distance plus the unloading margin of the viewpoint.
    pub open spec fn keeps(&self, p: ChunkPos) -> bool {
        flat_distance(p, self.last_player_chunk.unwrap()) <= self.render_distance + self.config.unload_margin
    }

    /// Evicts every loaded chunk, and drops every pending coordinate, farther
    /// than render distance plus the unloading margin from the viewpoint.
    /// Whatever stays is unchanged.
    pub fn evict_out_of_range(&mut self)
        requires
            old(self).wf(),
            old(self).last_player_chunk is Some,
        ensures
            final(self).wf(),
            final(self).render_distance == old(self).render_distance,
            final(self).last_player_chunk == old(self).last_player_chunk,
            final(self).config == old(self).config,
            forall|p: ChunkPos| #[trigger] final(self).loaded(p) <==> (old(self).loaded(p) && old(self).keeps(p)),
            forall|p: ChunkPos| #[trigger] final(self).pending(p) <==> (old(self).pending(p) && old(self).keeps(p)),
            forall|j: int|
                0 <= j < final(self).chunks@.len() ==> old(self).chunks@.contains(#[trigger] final(self).chunks@[j]),
            forall|i: int|
                0 <= i < old(self).chunks@.len() && old(self).keeps(old(self).chunks@[i].pos) ==> final(self).chunks@.contains(
                    #[trigger] old(self).chunks@[i],
                ),
    {
        let view = match self.last_player_chunk {
            Some(v) => v,
            None => {
                return;
            },
        };
        let reach = self.render_distance as i64 + self.config.unload_margin as i64;
        let mut rest: Vec<Chunk> = Vec::new();
        std::mem::swap(&mut self.chunks, &mut rest);
        let ghost orig = rest@;
        let mut kept: Vec<Chunk> = Vec::new();
        let ghost mut src: Seq<int> = Seq::empty();
        while rest.len() > 0
            invariant
                old(self).wf(),
                orig == old(self).chunks@,
                view == old(self).last_player_chunk.unwrap(),
                reach == old(self).render_distance + old(self).config.unload_margin,
                rest@.len() <= orig.len(),
                rest@ == orig.subrange(0, rest@.len() as int),
                kept@.len() == src.len(),
                forall|j: int|
                    0 <= j < src.len() ==> rest@.len() <= #[trigger] src[j] < orig.len() && kept@[j] == orig[src[j]]
                        && old(self).keeps(orig[src[j]].pos),
                forall|a: int, b: int| 0 <= a < src.len() && 0 <= b < src.len() && a != b ==> src[a] != src[b],
                forall|i: int|
                    rest@.len() <= i < orig.len() && old(self).keeps(orig[i].pos) ==> exists|j: int|
                        0 <= j < src.len() && src[j] == i,
            decreases rest@.len(),
        {
            let ghost n = rest@.len() as int;
            let c = rest.pop().unwrap();
            assert(c == orig[n - 1]);
            assert(coord_ok(orig[n - 1].pos));
            let dx = c.pos.x as i64 - view.x as i64;
            let dz = c.pos.z as i64 - view.z as i64;
            let ax = if dx < 0 { -dx } else { dx };
            let az = if dz < 0 { -dz } else { dz };
            let ghost old_src = src;
            if ax <= reach && az <= reach {
                kept.push(c);
                proof {
                    src = src.push(n - 1);
                }
            }
            proof {
                assert(rest@ =~= orig.subrange(0, n - 1));
                assert forall|i: int|
                    n - 1 <= i < orig.len() && old(self).keeps(orig[i].pos) implies exists|j: int|
                        0 <= j < src.len() && src[j] == i by {
                    if i == n - 1 {
                        assert(src[src.len() - 1] == i);
                    } else {
                        let j = choose|j: int| 0 <= j < old_src.len() && old_src[j] == i;
                        assert(src[j] == i);
                    }
                }
            }
        }
        self.chunks = kept;
        self.retain_pending_within(view, reach);
        proof {
            assert forall|p: ChunkPos| #[trigger] self.loaded(p) <==> (old(self).loaded(p) && old(self).keeps(p)) by {
                if self.loaded(p) {
                    let j = choose|j: int| 0 <= j < self.chunks@.len() && (#[trigger] self.chunks@[j]).pos == p;
                    assert(old(self).chunks@[src[j]].pos == p);
                }
                if old(self).loaded(p) && old(self).keeps(p) {
                    let i = choose|i: int| 0 <= i < orig.len() && (#[trigger] orig[i]).pos == p;
                    let j = choose|j: int| 0 <= j < src.len() && src[j] == i;
                    assert(self.chunks@[j].pos == p);
                }
            }
            assert forall|j: int| 0 <= j < self.chunks@.len() implies old(self).chunks@.contains(
                #[trigger] self.chunks@[j],
            ) by {
                let i = src[j];
                assert(0 <= i < old(self).chunks@.len() && self.chunks@[j] == old(self).chunks@[i]);
            }
            assert forall|i: int|
                0 <= i < old(self).chunks@.len() && old(self).keeps(old(self).chunks@[i].pos) implies self.chunks@.contains(
                    #[trigger] old(self).chunks@[i],
                ) by {
                let j = choose|j: int| 0 <= j < src.len() && src[j] == i;
                assert(self.chunks@[j] == orig[i]);
            }
            assert forall|j: int| 0 <= j < self.chunks@.len() implies (#[trigger] self.chunks@[j]).wf()
                && self.chunks@[j].size == self.config.chunk_size && coord_ok(self.chunks@[j].pos) by {
                assert(self.chunks@[j] == orig[src[j]]);
            }
            assert forall|a: int, b: int|
                0 <= a < self.chunks@.len() && 0 <= b < self.chunks@.len() && a != b implies self.chunks@[a].pos
                    != self.chunks@[b].pos by {
                assert(self.chunks@[a] == orig[src[a]]);
                assert(self.chunks@[b] == orig[src[b]]);
            }
            assert forall|a: int, b: int|
                0 <= a < self.chunks@.len() && 0 <= b < self.pending_chunks@.len() implies (#[trigger] self.chunks@[a]).pos
                    != #[trigger] self.pending_chunks@[b] by {
                assert(self.chunks@[a] == orig[src[a]]);
                let q = self.pending_chunks@[b];
                assert(self.pending(q));
                let k = choose|k: int| 0 <= k < old(self).pending_chunks@.len() && old(self).pending_chunks@[k] == q;
                assert(orig[src[a]].pos != old(self).pending_chunks@[k]);
            }
        }
    }

    /// Keeps only the pending coordinates within `reach` of `view` along `x` and `z`.
    fn retain_pending_within(&mut self, view: ChunkPos, reach: i64)
        requires
            no_duplicates(old(self).pending_chunks@),
            forall|i: int| 0 <= i < old(self).pending_chunks@.len() ==> coord_ok(#[trigger] old(self).pending_chunks@[i]),
            view_ok(view),
        ensures
            final(self).chunks@ == old(self).chunks@,
            final(self).render_distance == old(self).render_distance,
            final(self).last_player_chunk == old(self).last_player_chunk,
            final(self).config == old(self).config,
            no_duplicates(final(self).pending_chunks@),
            forall|i: int| 0 <= i < final(self).pending_chunks@.len() ==> coord_ok(#[trigger] final(self).pending_chunks@[i]),
            forall|q: ChunkPos|
                #[trigger] final(self).pending(q) <==> (old(self).pending(q) && flat_distance(q, view) <= reach),
    {
        let mut kept: Vec<ChunkPos> = Vec::new();
        let mut i: usize = 0;
        while i < self.pending_chunks.len()
            invariant
                i <= self.pending_chunks@.len(),
                self.pending_chunks@ == old(self).pending_chunks@,
                no_duplicates(self.pending_chunks@),
                forall|k: int| 0 <= k < self.pending_chunks@.len() ==> coord_ok(#[trigger] self.pending_chunks@[k]),
                view_ok(view),
                no_duplicates(kept@),
                forall|j: int|
                    0 <= j < kept@.len() ==> exists|k: int| 0 <= k < i && self.pending_chunks@[k] == #[trigger] kept@[j],
                forall|j: int| 0 <= j < kept@.len() ==> flat_distance(#[trigger] kept@[j], view) <= reach,
                forall|k: int|
                    0 <= k < i && flat_distance(self.pending_chunks@[k], view) <= reach ==> kept@.contains(
                        #[trigger] self.pending_chunks@[k],
                    ),
            decreases self.pending_chunks@.len() - i,
        {
            let q = self.pending_chunks[i];
            let dx = q.x as i64 - view.x as i64;
            let dz = q.z as i64 - view.z as i64;
            let ax = if dx < 0 { -dx } else { dx };
            let az = if dz < 0 { -dz } else { dz };
            if ax <= reach && az <= reach {
                proof {
                    assert forall|j: int| 0 <= j < kept@.len() implies kept@[j] != q by {
                        let k = choose|k: int| 0 <= k < i && self.pending_chunks@[k] == kept@[j];
                    }
                }
                let ghost before = kept@;
                kept.push(q);
                proof {
                    assert forall|j: int| 0 <= j < kept@.len() implies exists|k: int|
                        0 <= k < i + 1 && self.pending_chunks@[k] == #[trigger] kept@[j] by {
                        if j < before.len() {
                            let k = choose|k: int| 0 <= k < i && self.pending_chunks@[k] == before[j];
                        } else {
                            assert(self.pending_chunks@[i as int] == kept@[j]);
                        }
                    }
                    assert forall|k: int|
                        0 <= k < i + 1 && flat_distance(self.pending_chunks@[k], view) <= reach implies kept@.contains(
                            #[trigger] self.pending_chunks@[k],
                        ) by {
                        if k < i {
                            let j = choose|j: int| 0 <= j < before.len() && before[j] == self.pending_chunks@[k];
                            assert(kept@[j] == self.pending_chunks@[k]);
                        } else {
                            assert(kept@[before.len() as int] == q);
                        }
                    }
                }
            }
            i = i + 1;
        }
        let ghost old_pending = self.pending_chunks@;
        self.pending_chunks = kept;
        proof {
            assert forall|q: ChunkPos| #[trigger] self.pending(q) <==> (old(self).pending(q) && flat_distance(q, view) <= reach) by {
                if self.pending(q) {
                    let j = choose|j: int| 0 <= j < kept@.len() && kept@[j] == q;
                    let k = choose|k: int| 0 <= k < old_pending.len() && old_pending[k] == #[trigger] kept@[j];
                }
                if old(self).pending(q) && flat_distance(q, view) <= reach {
                    let k = choose|k: int| 0 <= k < old_pending.len() && old_pending[k] == q;
                }
            }
            assert forall|k: int| 0 <= k < self.pending_chunks@.len() implies coord_ok(#[trigger] self.pending_chunks@[k]) by {
                let m = choose|m: int| 0 <= m < old_pending.len() && old_pending[m] == #[trigger] kept@[k];
            }
        }
    }

    /// One frame of streaming with the viewpoint in chunk column
    /// `(view_x, view_z)`: takes in the generation results drained this frame,
    /// requests new chunks nearest first, and, when the viewpoint changed chunk,
    /// evicts what lies beyond render distance plus the unloading margin.
    /// Returns the coordinates to hand to the generation workers.
    pub fn update_chunks(&mut self, view_x: i32, view_z: i32, results: Vec<ChunkGenResult>) -> (requested: Vec<ChunkPos>)
        requires
            old(self).wf(),
            -VIEW_LIMIT <= view_x <= VIEW_LIMIT,
            -VIEW_LIMIT <= view_z <= VIEW_LIMIT,
            results@.len() <= old(self).config.max_chunk_receives_per_frame,
            forall|k: int|
                0 <= k < results@.len() ==> (#[trigger] results@[k]).blocks@.len() == volume(
                    old(self).config.chunk_size as int,
                ) && coord_ok(results@[k].pos),
        ensures
            final(self).wf(),
            final(self).last_player_chunk == Some(ChunkPos { x: view_x, y: 0, z: view_z }),
            final(self).render_distance == old(self).render_distance,
            final(self).config == old(self).config,
            requested@.len() <= old(self).config.max_new_chunks_per_frame,
            no_duplicates(requested@),
            forall|k: int| 0 <= k < requested@.len() ==> final(self).pending(#[trigger] requested@[k]),
            forall|a: int, b: int|
                0 <= a < b < requested@.len() ==> flat_distance_sq(
                    requested@[a],
                    ChunkPos { x: view_x, y: 0, z: view_z },
                ) <= flat_distance_sq(requested@[b], ChunkPos { x: view_x, y: 0, z: view_z }),
            forall|p: ChunkPos, k: int|
                final(self).wanted(p) && 0 <= k < requested@.len() ==> #[trigger] flat_distance_sq(
                    requested@[k],
                    ChunkPos { x: view_x, y: 0, z: view_z },
                ) <= #[trigger] flat_distance_sq(p, ChunkPos { x: view_x, y: 0, z: view_z }),
            requested@.len() < old(self).config.max_new_chunks_per_frame ==> forall|p: ChunkPos|
                !#[trigger] final(self).wanted(p),
            forall|k: int|
                0 <= k < results@.len() && flat_distance(
                    #[trigger] results@[k].pos,
                    ChunkPos { x: view_x, y: 0, z: view_z },
                ) <= old(self).render_distance ==> final(self).loaded(results@[k].pos),
            forall|p: ChunkPos|
                old(self).loaded(p) && flat_distance(p, ChunkPos { x: view_x, y: 0, z: view_z }) <= old(
                    self,
                ).render_distance + old(self).config.unload_margin ==> #[trigger] final(self).loaded(p),
            old(self).last_player_chunk != Some(ChunkPos { x: view_x, y: 0, z: view_z }) ==> forall|p: ChunkPos|
                #[trigger] final(self).loaded(p) ==> flat_distance(p, ChunkPos { x: view_x, y: 0, z: view_z })
                    <= old(self).render_distance + old(self).config.unload_margin,
            old(self).last_player_chunk == Some(ChunkPos { x: view_x, y: 0, z: view_z }) ==> forall|p: ChunkPos|
                old(self).loaded(p) ==> #[trigger] final(self).loaded(p),
            forall|i: int|
                0 <= i < final(self).chunks@.len() ==> chunk_after_results(
                    old(self).chunks@,
                    results@,
                    results@.len() as int,
                    ChunkPos { x: view_x, y: 0, z: view_z },
                    old(self).render_distance as int,
                    #[trigger] final(self).chunks@[i],
                ),
            forall|p: ChunkPos|
                #[trigger] final(self).loaded(p) <==> ((old(self).loaded(p) && (old(self).last_player_chunk != Some(
                    ChunkPos { x: view_x, y: 0, z: view_z },
                ) ==> final(self).keeps(p))) || stored_result(
                    results@,
                    results@.len() as int,
                    ChunkPos { x: view_x, y: 0, z: view_z },
                    old(self).render_distance as int,
                    p,
                )),
            forall|p: ChunkPos|
                #[trigger] final(self).pending(p) <==> ((old(self).pending(p) && !received_pos(
                    results@,
                    results@.len() as int,
                    p,
                ) && (old(self).last_player_chunk != Some(ChunkPos { x: view_x, y: 0, z: view_z }) ==> final(self).keeps(p)))
                    || requested@.contains(p)),
            forall|k: int|
                0 <= k < requested@.len() ==> {
                    let p = #[trigger] requested@[k];
                    &&& old(self).config.band_min <= p.y <= old(self).config.band_max
                    &&& abs(p.x - view_x) <= old(self).render_distance
                    &&& abs(p.z - view_z) <= old(self).render_distance
                    &&& !final(self).loaded(p)
                    &&& !(old(self).pending(p) && !received_pos(results@, results@.len() as int, p))
                },
            forall|k: int| 0 <= k < results@.len() ==> !final(self).pending(#[trigger] results@[k].pos),
            forall|i: int|
                0 <= i < final(self).chunks@.len() && touched_by(
                    results@,
                    results@.len() as int,
                    ChunkPos { x: view_x, y: 0, z: view_z },
                    old(self).render_distance as int,
                    (#[trigger] final(self).chunks@[i]).pos,
                ) ==> final(self).chunks@[i].dirty,
    {
        let view = ChunkPos { x: view_x, y: 0, z: view_z };
        let moved = match self.last_player_chunk {
            Some(v) => v != view,
            None => true,
        };
        self.last_player_chunk = Some(view);
        let mut results = results;
        let ghost all = results@;
        let mut k: usize = 0;
        while results.len() > 0
            invariant
                self.wf(),
                self.last_player_chunk == Some(view),
                self.render_distance == old(self).render_distance,
                self.config == old(self).config,
                k + results@.len() == all.len(),
                all.len() <= self.config.max_chunk_receives_per_frame,
                results@ == all.subrange(k as int, all.len() as int),
                forall|j: int|
                    0 <= j < all.len() ==> (#[trigger] all[j]).blocks@.len() == volume(self.config.chunk_size as int)
                        && coord_ok(all[j].pos),
                forall|j: int| 0 <= j < k && self.in_render_range(#[trigger] all[j].pos) ==> self.loaded(all[j].pos),
                forall|p: ChunkPos| old(self).loaded(p) ==> #[trigger] self.loaded(p),
                forall|i: int|
                    0 <= i < self.chunks@.len() ==> chunk_after_results(
                        old(self).chunks@,
                        all,
                        k as int,
                        view,
                        old(self).render_distance as int,
                        #[trigger] self.chunks@[i],
                    ),
                forall|p: ChunkPos|
                    #[trigger] self.loaded(p) <==> (old(self).loaded(p) || stored_result(
                        all,
                        k as int,
                        view,
                        old(self).render_distance as int,
                        p,
                    )),
                forall|p: ChunkPos|
                    #[trigger] self.pending(p) <==> (old(self).pending(p) && !received_pos(all, k as int, p)),
            decreases results@.len(),
        {
            let r = results.remove(0);
            assert(r == all[k as int]);
            let ghost before = *self;
            self.receive_chunk(r);
            proof {
                let rd = old(self).render_distance as int;
                lemma_chunks_after_result(old(self).chunks@, before.chunks@, self.chunks@, all, k as int, view, rd);
                assert forall|p: ChunkPos|
                    #[trigger] self.loaded(p) <==> (old(self).loaded(p) || stored_result(all, k + 1, view, rd, p)) by {
                    lemma_received_step(all, k as int, p);
                    if self.loaded(p) {
                        let i = choose|i: int| 0 <= i < self.chunks@.len() && (#[trigger] self.chunks@[i]).pos == p;
                        if p != r.pos {
                            assert(before.chunks@[i].pos == p);
                            assert(before.loaded(p));
                        }
                    }
                    if stored_result(all, k + 1, view, rd, p) && !stored_result(all, k as int, view, rd, p) {
                        assert(p == r.pos);
                    }
                    if before.loaded(p) {
                        assert(self.loaded(p));
                    }
                }
                assert forall|p: ChunkPos| #[trigger] self.pending(p) <==> (old(self).pending(p) && !received_pos(
                    all,
                    k + 1,
                    p,
                )) by {
                    lemma_received_step(all, k as int, p);
                }
                assert(results@ =~= all.subrange(k + 1, all.len() as int));
                assert forall|j: int| 0 <= j < k + 1 && self.in_render_range(#[trigger] all[j].pos) implies self.loaded(
                    all[j].pos,
                ) by {
                    if j < k {
                        assert(before.loaded(all[j].pos));
                    }
                }
            }
            k = k + 1;
        }
        let ghost received = *self;
        let requested = self.request_chunks();
        proof {
            assert forall|k: int| 0 <= k < requested@.len() implies self.pending(#[trigger] requested@[k]) by {
                assert(self.pending_chunks@[received.pending_chunks@.len() + k] == requested@[k]);
            }
            assert forall|p: ChunkPos| received.loaded(p) implies #[trigger] self.loaded(p) by {
                let j = choose|j: int| 0 <= j < received.chunks@.len() && (#[trigger] received.chunks@[j]).pos == p;
                assert(self.chunks@[j].pos == p);
            }
        }
        let ghost asked = *self;
        proof {
            assert forall|p: ChunkPos| self.wanted(p) implies received.wanted(p) && !requested@.contains(p) by {
                if received.loaded(p) {
                    let j = choose|j: int| 0 <= j < received.chunks@.len() && (#[trigger] received.chunks@[j]).pos == p;
                    assert(self.chunks@[j].pos == p);
                }
                if received.pending(p) {
                    let k = choose|k: int| 0 <= k < received.pending_chunks@.len() && received.pending_chunks@[k] == p;
                    assert(self.pending_chunks@[k] == p);
                }
                if requested@.contains(p) {
                    let k = choose|k: int| 0 <= k < requested@.len() && requested@[k] == p;
                    assert(self.pending_chunks@[received.pending_chunks@.len() + k] == p);
                }
            }
            assert forall|p: ChunkPos| received.wanted(p) && !requested@.contains(p) implies self.wanted(p) by {
                if self.pending(p) {
                    let k = choose|k: int| 0 <= k < self.pending_chunks@.len() && self.pending_chunks@[k] == p;
                    if k >= received.pending_chunks@.len() {
                        assert(requested@[k - received.pending_chunks@.len()] == p);
                    }
                }
            }
        }
        if moved {
            self.evict_out_of_range();
            proof {
                assert forall|p: ChunkPos| self.wanted(p) implies asked.wanted(p) by {
                    if asked.loaded(p) {
                        assert(self.loaded(p));
                    }
                    if asked.pending(p) {
                        assert(self.pending(p));
                    }
                }
                assert forall|k: int| 0 <= k < requested@.len() implies self.pending(#[trigger] requested@[k]) by {
                    assert(received.wanted(requested@[k]));
                    assert(asked.pending(requested@[k]));
                }
                assert forall|j: int|
                    0 <= j < all.len() && flat_distance(#[trigger] all[j].pos, view) <= old(self).render_distance implies self.loaded(
                    all[j].pos,
                ) by {
                    assert(received.loaded(all[j].pos));
                    assert(asked.loaded(all[j].pos));
                }
                assert forall|p: ChunkPos|
                    old(self).loaded(p) && flat_distance(p, view) <= old(self).render_distance
                        + old(self).config.unload_margin implies #[trigger] self.loaded(p) by {
                    assert(received.loaded(p));
                    assert(asked.loaded(p));
                }
            }
        }
        proof {
            assert forall|p: ChunkPos| #[trigger] self.wanted(p) implies received.wanted(p) && !requested@.contains(p) by {
                assert(asked.wanted(p));
            }
            let rd = old(self).render_distance as int;
            let n = all.len() as int;
            assert(moved == (old(self).last_player_chunk != Some(view)));
            assert forall|p: ChunkPos| requested@.contains(p) implies flat_distance(p, view) <= rd && !received.loaded(p)
                && asked.pending(p) by {
                let k = choose|k: int| 0 <= k < requested@.len() && requested@[k] == p;
                assert(received.wanted(requested@[k]));
                assert(asked.pending(requested@[k]));
            }
            assert forall|p: ChunkPos| #[trigger] asked.pending(p) implies received.pending(p) || requested@.contains(p) by {
                let k = choose|k: int| 0 <= k < asked.pending_chunks@.len() && asked.pending_chunks@[k] == p;
                if k >= received.pending_chunks@.len() {
                    assert(requested@[k - received.pending_chunks@.len()] == p);
                }
            }
            assert forall|p: ChunkPos| #[trigger] received.pending(p) implies asked.pending(p) by {
                let k = choose|k: int| 0 <= k < received.pending_chunks@.len() && received.pending_chunks@[k] == p;
                assert(asked.pending_chunks@[k] == p);
            }
            assert forall|p: ChunkPos|
                #[trigger] self.pending(p) <==> ((old(self).pending(p) && !received_pos(all, n, p) && (moved
                    ==> self.keeps(p))) || requested@.contains(p)) by {
                assert(received.pending(p) <==> (old(self).pending(p) && !received_pos(all, n, p)));
                if moved {
                    assert(self.pending(p) <==> (asked.pending(p) && asked.keeps(p)));
                } else {
                    assert(self.pending(p) == asked.pending(p));
                }
            }
            assert forall|k: int| 0 <= k < n implies !self.pending(#[trigger] all[k].pos) by {
                let p = all[k].pos;
                assert(received_pos(all, n, p));
                if flat_distance(p, view) <= rd {
                    assert(stored_result(all, n, view, rd, p));
                    assert(received.loaded(p));
                }
            }
        }
        requested
    }

    /// The chunk coordinate that rebuilds are prioritised around.
    pub open spec fn focus(&self) -> ChunkPos {
        match self.last_player_chunk {
            Some(v) => v,
            None => ChunkPos { x: 0, y: 0, z: 0 },
        }
    }

    /// Snapshots the touching layers of the stored neighbours of chunk `i`.
    fn collect_neighbor_blocks(&self, i: usize) -> (border: NeighborBorder)
        requires
            self.wf(),
            i < self.chunks@.len(),
        ensures
            border.wf(),
            border.size == self.config.chunk_size,
            border_matches(self.chunks@, self.chunks@[i as int].pos, border),
    {
        let me = self.chunks[i].pos;
        assert(coord_ok(self.chunks@[i as int].pos));
        let mut border = NeighborBorder::empty(self.config.chunk_size);
        let mut fi: usize = 0;
        while fi < 6
            invariant
                self.wf(),
                i < self.chunks@.len(),
                me == self.chunks@[i as int].pos,
                coord_ok(me),
                fi <= 6,
                border.wf(),
                border.size == self.config.chunk_size,
                forall|g: Face|
                    crate::engine::face::face_index(g) >= fi ==> (#[trigger] border.layer(g)) is None,
                forall|g: Face|
                    crate::engine::face::face_index(g) < fi && !holds_chunk(self.chunks@, #[trigger] step_pos(me, g))
                        ==> border.layer(g) is None,
                forall|g: Face, j: int|
                    crate::engine::face::face_index(g) < fi && 0 <= j < self.chunks@.len()
                        && #[trigger] self.chunks@[j].pos == #[trigger] step_pos(me, g) ==> border.layer(g) is Some
                        && layer_matches(border.layer(g).unwrap()@, self.chunks@[j], g),
            decreases 6 - fi,
        {
            let f = Face::from_index(fi);
            let (dx, dy, dz) = f.step();
            let np = ChunkPos { x: me.x + dx, y: me.y + dy, z: me.z + dz };
            assert(np == step_pos(me, f));
            match self.find_chunk(np) {
                Some(j) => {
                    let layer = collect_border_face(&self.chunks[j], f);
                    let ghost prev = border;
                    border.set_layer(f, layer);
                    proof {
                        assert forall|g: Face, jj: int|
                            crate::engine::face::face_index(g) < fi + 1 && 0 <= jj < self.chunks@.len()
                                && #[trigger] self.chunks@[jj].pos == #[trigger] step_pos(me, g) implies border.layer(g) is Some
                                && layer_matches(border.layer(g).unwrap()@, self.chunks@[jj], g) by {
                            if g == f {
                                assert(jj == j);
                                assert(self.chunks@[j as int].wf());
                            }
                        }
                    }
                },
                None => {},
            }
            fi = fi + 1;
        }
        border
    }

    /// The dirty chunk nearest to `v`, if any.
    fn nearest_dirty(&self, v: ChunkPos) -> (r: Option<usize>)
        requires
            self.wf(),
            view_ok(v),
        ensures
            match r {
                Some(i) => i < self.chunks@.len() && self.chunks@[i as int].dirty && forall|j: int|
                    0 <= j < self.chunks@.len() && (#[trigger] self.chunks@[j]).dirty ==> distance_sq(
                        self.chunks@[i as int].pos,
                        v,
                    ) <= distance_sq(self.chunks@[j].pos, v),
                None => forall|j: int| 0 <= j < self.chunks@.len() ==> !(#[trigger] self.chunks@[j]).dirty,
            },
    {
        let mut best: Option<usize> = None;
        let mut best_d: i64 = 0;
        let mut j: usize = 0;
        while j < self.chunks.len()
            invariant
                self.wf(),
                view_ok(v),
                j <= self.chunks@.len(),
                match best {
                    Some(b) => b < j && self.chunks@[b as int].dirty && best_d == distance_sq(
                        self.chunks@[b as int].pos,
                        v,
                    ) && forall|k: int|
                        0 <= k < j && (#[trigger] self.chunks@[k]).dirty ==> best_d <= distance_sq(
                            self.chunks@[k].pos,
                            v,
                        ),
                    None => forall|k: int| 0 <= k < j ==> !(#[trigger] self.chunks@[k]).dirty,
                },
            decreases self.chunks@.len() - j,
        {
            if self.chunks[j].dirty {
                assert(coord_ok(self.chunks@[j as int].pos));
                let d = distance_sq_exec(self.chunks[j].pos, v);
                let better = match best {
                    Some(_) => d < best_d,
                    None => true,
                };
                if better {
                    best = Some(j);
                    best_d = d;
                }
            }
            j = j + 1;
        }
        best
    }

    /// Rebuilds the meshes of up to the per-frame cap of dirty chunks, nearest
    /// to the viewpoint chunk first, each from its own blocks and a snapshot
    /// of its stored neighbours' touching layers.
    pub fn rebuild_dirty(&mut self)
        requires
            old(self).wf(),
        ensures
            final(self).wf(),
            final(self).pending_chunks@ == old(self).pending_chunks@,
            final(self).render_distance == old(self).render_distance,
            final(self).last_player_chunk == old(self).last_player_chunk,
            final(self).config == old(self).config,
            same_voxels(old(self).chunks@, final(self).chunks@),
            rebuild_frame(old(self).chunks@, final(self).chunks@, old(self).config.max_mesh_rebuilds_per_frame as nat),
            forall|i: int|
                0 <= i < old(self).chunks@.len() && !old(self).chunks@[i].dirty ==> #[trigger] final(self).chunks@[i]
                    == old(self).chunks@[i],
            forall|i: int|
                0 <= i < old(self).chunks@.len() && (#[trigger] final(self).chunks@[i]).dirty ==> final(self).chunks@[i]
                    == old(self).chunks@[i],
            forall|i: int|
                0 <= i < old(self).chunks@.len() && old(self).chunks@[i].dirty && !final(self).chunks@[i].dirty
                    ==> rebuilt_from(old(self).chunks@, #[trigger] final(self).chunks@[i]),
            forall|i: int, j: int|
                0 <= i < old(self).chunks@.len() && 0 <= j < old(self).chunks@.len() && old(self).chunks@[i].dirty
                    && !(#[trigger] final(self).chunks@[i]).dirty && (#[trigger] final(self).chunks@[j]).dirty
                    ==> distance_sq(final(self).chunks@[i].pos, old(self).focus()) <= distance_sq(
                    final(self).chunks@[j].pos,
                    old(self).focus(),
                ),
    {
        let view = match self.last_player_chunk {
            Some(v) => v,
            None => ChunkPos { x: 0, y: 0, z: 0 },
        };
        let cap = self.config.max_mesh_rebuilds_per_frame;
        let ghost orig = self.chunks@;
        let mut count: usize = 0;
        let mut done = false;
        while count < cap && !done
            invariant
                self.wf(),
                view == old(self).focus(),
                view_ok(view),
                orig == old(self).chunks@,
                cap == self.config.max_mesh_rebuilds_per_frame,
                self.pending_chunks@ == old(self).pending_chunks@,
                self.render_distance == old(self).render_distance,
                self.last_player_chunk == old(self).last_player_chunk,
                self.config == old(self).config,
                same_voxels(orig, self.chunks@),
                count <= cap,
                count + dirty_count(self.chunks@) == dirty_count(orig),
                forall|i: int| 0 <= i < orig.len() && !orig[i].dirty ==> #[trigger] self.chunks@[i] == orig[i],
                forall|i: int| 0 <= i < orig.len() && (#[trigger] self.chunks@[i]).dirty ==> self.chunks@[i] == orig[i]
                    && orig[i].dirty,
                forall|i: int|
                    0 <= i < orig.len() && orig[i].dirty && !self.chunks@[i].dirty ==> rebuilt_from(
                        orig,
                        #[trigger] self.chunks@[i],
                    ),
                forall|i: int, j: int|
                    0 <= i < orig.len() && 0 <= j < orig.len() && orig[i].dirty && !(#[trigger] self.chunks@[i]).dirty
                        && (#[trigger] self.chunks@[j]).dirty ==> distance_sq(self.chunks@[i].pos, view) <= distance_sq(
                        self.chunks@[j].pos,
                        view,
                    ),
                done ==> dirty_count(self.chunks@) == 0,
            decreases cap - count, if done { 0int } else { 1int },
        {
            match self.nearest_dirty(view) {
                None => {
                    proof {
                        if dirty_count(self.chunks@) > 0 {
                            assert(forall|j: int| 0 <= j < self.chunks@.len() ==> !(#[trigger] self.chunks@[j]).dirty);
                            lemma_dirty_count_none(self.chunks@);
                        }
                    }
                    done = true;
                },
                Some(i) => {
                    let border = self.collect_neighbor_blocks(i);
                    let ghost before = self.chunks@;
                    proof {
                        assert(before[i as int].wf());
                    }
                    self.chunks[i].rebuild_mesh(&border);
                    proof {
                        let after = self.chunks@;
                        assert forall|j: int| 0 <= j < after.len() && j != i implies after[j] == before[j] by {}
                        lemma_dirty_count_step(before, after, i as int);
                        lemma_border_transfer(before, orig, before[i as int].pos, border);
                        assert(rebuilt_from(orig, after[i as int]));
                        assert forall|a: int| 0 <= a < after.len() implies (#[trigger] after[a]).wf()
                            && after[a].size == self.config.chunk_size && coord_ok(after[a].pos) by {
                            assert(before[a].wf());
                        }
                        assert forall|a: int, b: int|
                            0 <= a < after.len() && 0 <= b < after.len() && a != b implies after[a].pos != after[b].pos by {
                            assert(before[a].pos != before[b].pos);
                        }
                        assert forall|a: int, b: int|
                            0 <= a < after.len() && 0 <= b < self.pending_chunks@.len() implies (#[trigger] after[a]).pos
                                != #[trigger] self.pending_chunks@[b] by {
                            assert(before[a].pos != self.pending_chunks@[b]);
                        }
                        assert forall|a: int, b: int|
                            0 <= a < orig.len() && 0 <= b < orig.len() && orig[a].dirty && !(#[trigger] after[a]).dirty
                                && (#[trigger] after[b]).dirty implies distance_sq(after[a].pos, view) <= distance_sq(
                                after[b].pos,
                                view,
                            ) by {
                            assert(before[b].dirty);
                            if a != i {
                                assert(!before[a].dirty);
                            }
                        }
                    }
                    count = count + 1;
                },
            }
        }
    }
}

/// Pending and loaded are exclusive: in a well-formed world no coordinate is
/// both stored and awaiting generation.
pub proof fn lemma_pending_loaded_exclusive(w: World, p: ChunkPos)
    requires
        w.wf(),
    ensures
        !(w.loaded(p) && w.pending(p)),
{
    if w.loaded(p) && w.pending(p) {
        let i = choose|i: int| 0 <= i < w.chunks@.len() && (#[trigger] w.chunks@[i]).pos == p;
        let j = choose|j: int| 0 <= j < w.pending_chunks@.len() && w.pending_chunks@[j] == p;
        assert(w.chunks@[i].pos != w.pending_chunks@[j]);
    }
}

} // verus!
