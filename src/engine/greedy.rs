use vstd::prelude::*;
use crate::engine::grid::{cell, lemma_area_bound, lemma_cell_bounds, lemma_cell_injective, MAX_EDGE};

verus! {

/// An axis-aligned rectangle of cells in a slice mask, all carrying `key`.
#[derive(Clone, Copy, PartialEq, Eq, Debug, Structural)]
pub struct Rect {
    pub u: usize,
    pub v: usize,
    pub w: usize,
    pub h: usize,
    pub key: u16,
}

/// The key of cell `(u, v)` of a row-major mask with rows `w` long; 0 means inactive.
pub open spec fn key_at(mask: Seq<u16>, w: int, u: int, v: int) -> u16 {
    mask[cell(w, u, v)]
}

pub open spec fn seen(visited: Seq<bool>, w: int, u: int, v: int) -> bool {
    visited[cell(w, u, v)]
}

pub open spec fn covers(r: Rect, u: int, v: int) -> bool {
    r.u <= u < r.u + r.w && r.v <= v < r.v + r.h
}

/// The rectangle lies in the `w` x `h` mask, is not empty, and every cell it
/// covers is active with the rectangle's key.
pub open spec fn rect_sound(mask: Seq<u16>, w: int, h: int, r: Rect) -> bool {
    &&& 1 <= r.w
    &&& 1 <= r.h
    &&& r.u + r.w <= w
    &&& r.v + r.h <= h
    &&& r.key != 0
    &&& forall|u: int, v: int| #[trigger] covers(r, u, v) ==> key_at(mask, w, u, v) == r.key
}

pub open spec fn covered(rs: Seq<Rect>, u: int, v: int) -> bool {
    exists|i: int| 0 <= i < rs.len() && #[trigger] covers(rs[i], u, v)
}

pub open spec fn disjoint(rs: Seq<Rect>) -> bool {
    forall|i: int, j: int, u: int, v: int|
        #![trigger covers(rs[i], u, v), covers(rs[j], u, v)]
        0 <= i < rs.len() && 0 <= j < rs.len() && i != j && covers(rs[i], u, v) ==> !covers(
            rs[j],
            u,
            v,
        )
}

/// `rs` partitions the active cells of the mask into same-key rectangles:
/// every rectangle is sound, no two overlap, and every active cell is covered.
pub open spec fn exact_cover(mask: Seq<u16>, w: int, h: int, rs: Seq<Rect>) -> bool {
    &&& forall|i: int| 0 <= i < rs.len() ==> rect_sound(mask, w, h, #[trigger] rs[i])
    &&& disjoint(rs)
    &&& forall|u: int, v: int|
        0 <= u < w && 0 <= v < h && key_at(mask, w, u, v) != 0 ==> #[trigger] covered(rs, u, v)
}

/// Every cell of the mask is active with one and the same key.
pub open spec fn uniform(mask: Seq<u16>, w: int, h: int) -> bool {
    &&& key_at(mask, w, 0, 0) != 0
    &&& forall|u: int, v: int|
        0 <= u < w && 0 <= v < h ==> #[trigger] key_at(mask, w, u, v) == key_at(mask, w, 0, 0)
}

pub open spec fn full_rect(mask: Seq<u16>, w: int, h: int) -> Rect {
    Rect { u: 0, v: 0, w: w as usize, h: h as usize, key: key_at(mask, w, 0, 0) }
}

/// Some rectangle before the `i`-th covers `(u, v)`.
pub open spec fn covered_before(rs: Seq<Rect>, i: int, u: int, v: int) -> bool {
    exists|k: int| 0 <= k < i && #[trigger] covers(rs[k], u, v)
}

/// Cell `(u1, v1)` comes before `(u2, v2)` in raster order (rows by `v`, then `u`).
pub open spec fn raster_before(u1: int, v1: int, u2: int, v2: int) -> bool {
    v1 < v2 || (v1 == v2 && u1 < u2)
}

/// The rectangles are those of the greedy scan: their corners come in raster
/// order, each corner is the first active cell that no earlier rectangle
/// covers, each rectangle is as wide as its first row allows (the next cell
/// has another key or is covered earlier, or the mask ends), and as tall as
/// whole rows of that width allow.
pub open spec fn greedy_order(mask: Seq<u16>, w: int, h: int, rs: Seq<Rect>) -> bool {
    &&& forall|i: int, j: int|
        0 <= i < j < rs.len() ==> raster_before(rs[i].u as int, rs[i].v as int, rs[j].u as int, rs[j].v as int)
    &&& forall|i: int, u: int, v: int|
        0 <= i < rs.len() && 0 <= u < w && 0 <= v < h && raster_before(u, v, rs[i].u as int, rs[i].v as int)
            && key_at(mask, w, u, v) != 0 ==> #[trigger] covered_before(rs, i, u, v)
    &&& forall|i: int|
        0 <= i < rs.len() ==> (#[trigger] rs[i]).u + rs[i].w == w || key_at(mask, w, rs[i].u + rs[i].w, rs[i].v as int)
            != rs[i].key || covered_before(rs, i, rs[i].u + rs[i].w, rs[i].v as int)
    &&& forall|i: int|
        0 <= i < rs.len() ==> (#[trigger] rs[i]).v + rs[i].h == h || exists|t: int|
            0 <= t < rs[i].w && #[trigger] row_stops(mask, w, rs, i, t)
}

/// Cell `t` of the row just below rectangle `i` has another key or is covered earlier.
pub open spec fn row_stops(mask: Seq<u16>, w: int, rs: Seq<Rect>, i: int, t: int) -> bool {
    key_at(mask, w, rs[i].u + t, rs[i].v + rs[i].h) != rs[i].key || covered_before(
        rs,
        i,
        rs[i].u + t,
        rs[i].v + rs[i].h,
    )
}

proof fn lemma_covered_before_prefix(a: Seq<Rect>, b: Seq<Rect>, i: int, u: int, v: int)
    requires
        0 <= i <= a.len() <= b.len(),
        forall|k: int| 0 <= k < a.len() ==> a[k] == b[k],
    ensures
        covered_before(a, i, u, v) == covered_before(b, i, u, v),
{
    if covered_before(b, i, u, v) {
        let k = choose|k: int| 0 <= k < i && #[trigger] covers(b[k], u, v);
        assert(covers(a[k], u, v));
    }
}

spec fn merge_state(mask: Seq<u16>, w: int, h: int, visited: Seq<bool>, rs: Seq<Rect>) -> bool {
    &&& visited.len() == w * h
    &&& forall|i: int| 0 <= i < rs.len() ==> rect_sound(mask, w, h, #[trigger] rs[i])
    &&& disjoint(rs)
    &&& forall|u: int, v: int|
        0 <= u < w && 0 <= v < h ==> #[trigger] seen(visited, w, u, v) == covered(rs, u, v)
}

spec fn free_cell(mask: Seq<u16>, visited: Seq<bool>, w: int, u: int, v: int, k: u16) -> bool {
    key_at(mask, w, u, v) == k && !seen(visited, w, u, v)
}

/// Whether cells `u .. u + len` of row `v` are all unvisited and carry key `k`.
fn row_free(
    mask: &Vec<u16>,
    visited: &Vec<bool>,
    w: usize,
    h: usize,
    u: usize,
    v: usize,
    len: usize,
    k: u16,
) -> (r: bool)
    requires
        1 <= w <= MAX_EDGE,
        1 <= h <= MAX_EDGE,
        mask.len() == w * h,
        visited.len() == w * h,
        u + len <= w,
        v < h,
    ensures
        r == forall|t: int| 0 <= t < len ==> #[trigger] free_cell(mask@, visited@, w as int, u + t, v as int, k),
{
    let mut t: usize = 0;
    while t < len
        invariant
            1 <= w <= MAX_EDGE,
            1 <= h <= MAX_EDGE,
            mask.len() == w * h,
            visited.len() == w * h,
            u + len <= w,
            v < h,
            t <= len,
            forall|s: int| 0 <= s < t ==> #[trigger] free_cell(mask@, visited@, w as int, u + s, v as int, k),
        decreases len - t,
    {
        proof {
            lemma_cell_bounds(w as int, h as int, (u + t) as int, v as int);
        }
        let c = v * w + u + t;
        if mask[c] != k || visited[c] {
            assert(!free_cell(mask@, visited@, w as int, u + t, v as int, k));
            return false;
        }
        t = t + 1;
    }
    true
}

/// Grows a rectangle from its corner `(u, v)`: first along `u` while the
/// cells are free with key `k`, then along `v` while whole rows are.
fn grow(mask: &Vec<u16>, visited: &Vec<bool>, w: usize, h: usize, u: usize, v: usize, k: u16) -> (r: Rect)
    requires
        1 <= w <= MAX_EDGE,
        1 <= h <= MAX_EDGE,
        mask.len() == w * h,
        visited.len() == w * h,
        u < w,
        v < h,
        k != 0,
        free_cell(mask@, visited@, w as int, u as int, v as int, k),
    ensures
        r.u == u,
        r.v == v,
        r.key == k,
        1 <= r.w,
        1 <= r.h,
        r.u + r.w <= w,
        r.v + r.h <= h,
        forall|uu: int, vv: int|
            #[trigger] covers(r, uu, vv) ==> free_cell(mask@, visited@, w as int, uu, vv, k),
        (forall|uu: int, vv: int|
            0 <= uu < w && 0 <= vv < h ==> #[trigger] free_cell(mask@, visited@, w as int, uu, vv, k))
            ==> r.w == w - u && r.h == h - v,
        r.u + r.w == w || !free_cell(mask@, visited@, w as int, r.u + r.w, v as int, k),
        r.v + r.h == h || exists|t: int| 0 <= t < r.w && !#[trigger] free_cell(mask@, visited@, w as int, u + t, r.v + r.h, k),
{
    let mut rw: usize = 1;
    while u + rw < w && row_free(mask, visited, w, h, u + rw, v, 1, k)
        invariant
            1 <= w <= MAX_EDGE,
            1 <= h <= MAX_EDGE,
            mask.len() == w * h,
            visited.len() == w * h,
            u < w,
            v < h,
            1 <= rw,
            u + rw <= w,
            forall|t: int| 0 <= t < rw ==> #[trigger] free_cell(mask@, visited@, w as int, u + t, v as int, k),
        decreases w - u - rw,
    {
        assert(free_cell(mask@, visited@, w as int, u + rw + 0, v as int, k));
        rw = rw + 1;
    }
    let mut rh: usize = 1;
    while v + rh < h && row_free(mask, visited, w, h, u, v + rh, rw, k)
        invariant
            1 <= w <= MAX_EDGE,
            1 <= h <= MAX_EDGE,
            mask.len() == w * h,
            visited.len() == w * h,
            u < w,
            v < h,
            1 <= rw,
            u + rw <= w,
            1 <= rh,
            v + rh <= h,
            forall|t: int| 0 <= t < rw ==> #[trigger] free_cell(mask@, visited@, w as int, u + t, v as int, k),
            forall|t: int, s: int|
                0 <= t < rw && 0 <= s < rh ==> #[trigger] free_cell(mask@, visited@, w as int, u + t, v + s, k),
        decreases h - v - rh,
    {
        rh = rh + 1;
    }
    let r = Rect { u, v, w: rw, h: rh, key: k };
    assert(u + rw == w || !free_cell(mask@, visited@, w as int, u + rw + 0, v as int, k));
    assert forall|uu: int, vv: int| #[trigger] covers(r, uu, vv) implies free_cell(
        mask@,
        visited@,
        w as int,
        uu,
        vv,
        k,
    ) by {
        assert(free_cell(mask@, visited@, w as int, u + (uu - u), v + (vv - v), k));
    }
    r
}

/// Marks every cell of `r` visited.
fn mark(visited: &mut Vec<bool>, w: usize, h: usize, r: Rect)
    requires
        1 <= w <= MAX_EDGE,
        1 <= h <= MAX_EDGE,
        old(visited).len() == w * h,
        r.u + r.w <= w,
        r.v + r.h <= h,
    ensures
        final(visited).len() == w * h,
        forall|uu: int, vv: int|
            0 <= uu < w && 0 <= vv < h ==> #[trigger] seen(final(visited)@, w as int, uu, vv) == (seen(
                old(visited)@,
                w as int,
                uu,
                vv,
            ) || covers(r, uu, vv)),
{
    let ghost before = visited@;
    let mut s: usize = 0;
    while s < r.h
        invariant
            1 <= w <= MAX_EDGE,
            1 <= h <= MAX_EDGE,
            visited.len() == w * h,
            r.u + r.w <= w,
            r.v + r.h <= h,
            s <= r.h,
            forall|uu: int, vv: int|
                0 <= uu < w && 0 <= vv < h ==> #[trigger] seen(visited@, w as int, uu, vv) == (seen(
                    before,
                    w as int,
                    uu,
                    vv,
                ) || (r.u <= uu < r.u + r.w && r.v <= vv < r.v + s)),
        decreases r.h - s,
    {
        let mut t: usize = 0;
        while t < r.w
            invariant
                1 <= w <= MAX_EDGE,
                1 <= h <= MAX_EDGE,
                visited.len() == w * h,
                r.u + r.w <= w,
                r.v + r.h <= h,
                s < r.h,
                t <= r.w,
                forall|uu: int, vv: int|
                    0 <= uu < w && 0 <= vv < h ==> #[trigger] seen(visited@, w as int, uu, vv) == (seen(
                        before,
                        w as int,
                        uu,
                        vv,
                    ) || (r.u <= uu < r.u + r.w && r.v <= vv < r.v + s) || (vv == r.v + s && r.u <= uu
                        < r.u + t)),
            decreases r.w - t,
        {
            let uu0 = r.u + t;
            let vv0 = r.v + s;
            proof {
                lemma_cell_bounds(w as int, h as int, uu0 as int, vv0 as int);
            }
            let ghost prev = visited@;
            visited.set(vv0 * w + uu0, true);
            proof {
                assert forall|uu: int, vv: int| 0 <= uu < w && 0 <= vv < h implies #[trigger] seen(
                    visited@,
                    w as int,
                    uu,
                    vv,
                ) == (seen(prev, w as int, uu, vv) || (uu == uu0 && vv == vv0)) by {
                    if !(uu == uu0 && vv == vv0) {
                        lemma_cell_bounds(w as int, h as int, uu, vv);
                        if cell(w as int, uu, vv) == cell(w as int, uu0 as int, vv0 as int) {
                            lemma_cell_injective(w as int, uu, vv, uu0 as int, vv0 as int);
                        }
                    }
                }
            }
            t = t + 1;
        }
        s = s + 1;
    }
}

/// Greedy meshing of one slice mask of `w` x `h` cells (row-major, key 0 =
/// inactive). Cells are scanned in raster order; each unvisited active cell
/// starts a rectangle that grows along `u`, then along `v`, over unvisited
/// cells of the same key.
///
/// The result partitions the active cells exactly; a mask whose cells all
/// carry one key yields the single full rectangle.
pub fn greedy_rects(mask: &Vec<u16>, w: usize, h: usize) -> (rs: Vec<Rect>)
    requires
        1 <= w <= MAX_EDGE,
        1 <= h <= MAX_EDGE,
        mask.len() == w * h,
    ensures
        exact_cover(mask@, w as int, h as int, rs@),
        greedy_order(mask@, w as int, h as int, rs@),
        uniform(mask@, w as int, h as int) ==> rs@ == seq![full_rect(mask@, w as int, h as int)],
{
    proof {
        lemma_area_bound(w as int, h as int);
    }
    let n = w * h;
    let mut visited: Vec<bool> = Vec::new();
    let mut i: usize = 0;
    while i < n
        invariant
            i <= n,
            visited.len() == i,
            forall|j: int| 0 <= j < i ==> !visited@[j],
        decreases n - i,
    {
        visited.push(false);
        i = i + 1;
    }
    let mut rs: Vec<Rect> = Vec::new();
    let ghost full = full_rect(mask@, w as int, h as int);
    proof {
        assert forall|u: int, v: int| 0 <= u < w && 0 <= v < h implies #[trigger] seen(
            visited@,
            w as int,
            u,
            v,
        ) == covered(rs@, u, v) by {
            lemma_cell_bounds(w as int, h as int, u, v);
        }
    }
    let mut v: usize = 0;
    while v < h
        invariant
            1 <= w <= MAX_EDGE,
            1 <= h <= MAX_EDGE,
            mask.len() == w * h,
            v <= h,
            merge_state(mask@, w as int, h as int, visited@, rs@),
            full == full_rect(mask@, w as int, h as int),
            forall|uu: int, vv: int|
                0 <= uu < w && 0 <= vv < v && key_at(mask@, w as int, uu, vv) != 0 ==> #[trigger] seen(
                    visited@,
                    w as int,
                    uu,
                    vv,
                ),
            greedy_order(mask@, w as int, h as int, rs@),
            forall|i: int| 0 <= i < rs@.len() ==> (#[trigger] rs@[i]).v < v,
            uniform(mask@, w as int, h as int) ==> if v == 0 {
                rs@.len() == 0
            } else {
                rs@ == seq![full]
            },
        decreases h - v,
    {
        let mut u: usize = 0;
        while u < w
            invariant
                1 <= w <= MAX_EDGE,
                1 <= h <= MAX_EDGE,
                mask.len() == w * h,
                v < h,
                u <= w,
                merge_state(mask@, w as int, h as int, visited@, rs@),
                full == full_rect(mask@, w as int, h as int),
                forall|uu: int, vv: int|
                    0 <= uu < w && 0 <= vv < h && key_at(mask@, w as int, uu, vv) != 0 && (vv < v || (vv
                        == v && uu < u)) ==> #[trigger] seen(visited@, w as int, uu, vv),
                greedy_order(mask@, w as int, h as int, rs@),
                forall|i: int|
                    0 <= i < rs@.len() ==> raster_before(
                        (#[trigger] rs@[i]).u as int,
                        rs@[i].v as int,
                        u as int,
                        v as int,
                    ),
                uniform(mask@, w as int, h as int) ==> if v == 0 && u == 0 {
                    rs@.len() == 0
                } else {
                    rs@ == seq![full]
                },
            decreases w - u,
        {
            proof {
                lemma_cell_bounds(w as int, h as int, u as int, v as int);
            }
            let c = v * w + u;
            let k = mask[c];
            if k != 0 && !visited[c] {
                let ghost old_rs = rs@;
                let ghost old_vis = visited@;
                proof {
                    if uniform(mask@, w as int, h as int) {
                        if v != 0 || u != 0 {
                            assert(rs@[0] == full);
                            assert(covers(rs@[0], u as int, v as int));
                            assert(seen(visited@, w as int, u as int, v as int));
                        }
                        assert(v == 0 && u == 0);
                        assert forall|uu: int, vv: int| 0 <= uu < w && 0 <= vv < h implies #[trigger] free_cell(
                            mask@,
                            visited@,
                            w as int,
                            uu,
                            vv,
                            k,
                        ) by {
                            assert(key_at(mask@, w as int, uu, vv) == key_at(mask@, w as int, 0, 0));
                            assert(!covered(rs@, uu, vv));
                        }
                    }
                }
                let r = grow(mask, &visited, w, h, u, v, k);
                mark(&mut visited, w, h, r);
                rs.push(r);
                proof {
                    assert(rs@[rs@.len() - 1] == r);
                    assert forall|i: int| 0 <= i < rs@.len() implies rect_sound(
                        mask@,
                        w as int,
                        h as int,
                        #[trigger] rs@[i],
                    ) by {
                        if i < old_rs.len() {
                            assert(rs@[i] == old_rs[i]);
                        }
                    }
                    assert forall|i: int, j: int, uu: int, vv: int|
                        #![trigger covers(rs@[i], uu, vv), covers(rs@[j], uu, vv)]
                        0 <= i < rs@.len() && 0 <= j < rs@.len() && i != j && covers(rs@[i], uu, vv)
                            implies !covers(rs@[j], uu, vv) by {
                        if i < old_rs.len() && j < old_rs.len() {
                            assert(rs@[i] == old_rs[i]);
                            assert(rs@[j] == old_rs[j]);
                        } else if i < old_rs.len() {
                            assert(rs@[i] == old_rs[i]);
                            assert(covered(old_rs, uu, vv));
                            if covers(r, uu, vv) {
                                assert(free_cell(mask@, old_vis, w as int, uu, vv, k));
                            }
                        } else {
                            assert(rs@[j] == old_rs[j]);
                            if covers(old_rs[j], uu, vv) {
                                assert(covered(old_rs, uu, vv));
                                assert(free_cell(mask@, old_vis, w as int, uu, vv, k));
                            }
                        }
                    }
                    assert forall|uu: int, vv: int| 0 <= uu < w && 0 <= vv < h implies #[trigger] seen(
                        visited@,
                        w as int,
                        uu,
                        vv,
                    ) == covered(rs@, uu, vv) by {
                        if covered(old_rs, uu, vv) {
                            let i = choose|i: int| 0 <= i < old_rs.len() && #[trigger] covers(old_rs[i], uu, vv);
                            assert(rs@[i] == old_rs[i]);
                        }
                        if covered(rs@, uu, vv) {
                            let i = choose|i: int| 0 <= i < rs@.len() && #[trigger] covers(rs@[i], uu, vv);
                            if i < old_rs.len() {
                                assert(rs@[i] == old_rs[i]);
                            }
                        }
                        if covers(r, uu, vv) {
                            assert(covers(rs@[rs@.len() - 1], uu, vv));
                        }
                    }
                    assert(covers(r, u as int, v as int));
                    let n = old_rs.len() as int;
                    assert forall|uu: int, vv: int| 0 <= uu < w && 0 <= vv < h implies #[trigger] seen(
                        old_vis,
                        w as int,
                        uu,
                        vv,
                    ) == covered_before(rs@, n, uu, vv) by {
                        lemma_covered_before_prefix(old_rs, rs@, n, uu, vv);
                        if covered(old_rs, uu, vv) {
                            let kk = choose|kk: int| 0 <= kk < old_rs.len() && #[trigger] covers(old_rs[kk], uu, vv);
                            assert(covers(old_rs[kk], uu, vv));
                        }
                    }
                    assert forall|i: int, uu: int, vv: int|
                        0 <= i < n implies covered_before(old_rs, i, uu, vv) == #[trigger] covered_before(
                        rs@,
                        i,
                        uu,
                        vv,
                    ) by {
                        lemma_covered_before_prefix(old_rs, rs@, i, uu, vv);
                    }
                    assert forall|i: int, uu: int, vv: int|
                        0 <= i < rs@.len() && 0 <= uu < w && 0 <= vv < h && raster_before(
                            uu,
                            vv,
                            rs@[i].u as int,
                            rs@[i].v as int,
                        ) && key_at(mask@, w as int, uu, vv) != 0 implies #[trigger] covered_before(rs@, i, uu, vv) by {
                        if i < n {
                            assert(rs@[i] == old_rs[i]);
                            assert(covered_before(old_rs, i, uu, vv));
                        } else {
                            assert(seen(old_vis, w as int, uu, vv));
                        }
                    }
                    assert forall|i: int| 0 <= i < rs@.len() implies (#[trigger] rs@[i]).u + rs@[i].w == w || key_at(
                        mask@,
                        w as int,
                        rs@[i].u + rs@[i].w,
                        rs@[i].v as int,
                    ) != rs@[i].key || covered_before(rs@, i, rs@[i].u + rs@[i].w, rs@[i].v as int) by {
                        if i < n {
                            assert(rs@[i] == old_rs[i]);
                        } else if r.u + r.w < w {
                            assert(seen(old_vis, w as int, r.u + r.w, v as int) == covered_before(rs@, n, r.u + r.w, v as int));
                        }
                    }
                    assert forall|i: int| 0 <= i < rs@.len() implies (#[trigger] rs@[i]).v + rs@[i].h == h || exists|t: int|
                        0 <= t < rs@[i].w && #[trigger] row_stops(mask@, w as int, rs@, i, t) by {
                        if i < n {
                            assert(rs@[i] == old_rs[i]);
                            if !(old_rs[i].v + old_rs[i].h == h) {
                                let t = choose|t: int| 0 <= t < old_rs[i].w && #[trigger] row_stops(mask@, w as int, old_rs, i, t);
                                assert(covered_before(old_rs, i, old_rs[i].u + t, old_rs[i].v + old_rs[i].h)
                                    == covered_before(rs@, i, old_rs[i].u + t, old_rs[i].v + old_rs[i].h));
                                assert(row_stops(mask@, w as int, rs@, i, t));
                            }
                        } else if r.v + r.h < h {
                            let t = choose|t: int|
                                0 <= t < r.w && !#[trigger] free_cell(mask@, old_vis, w as int, u + t, r.v + r.h, k);
                            assert(seen(old_vis, w as int, u + t, r.v + r.h) == covered_before(rs@, n, u + t, r.v + r.h));
                            assert(row_stops(mask@, w as int, rs@, i, t));
                        }
                    }
                    assert forall|i: int, j: int|
                        0 <= i < j < rs@.len() implies raster_before(
                        rs@[i].u as int,
                        rs@[i].v as int,
                        rs@[j].u as int,
                        rs@[j].v as int,
                    ) by {
                        assert(rs@[i] == old_rs[i]);
                        if j < n {
                            assert(rs@[j] == old_rs[j]);
                        }
                    }
                    if uniform(mask@, w as int, h as int) {
                        assert(v == 0 && u == 0);
                        assert(r == full);
                        assert(rs@ =~= seq![full]);
                    }
                }
            } else {
                proof {
                    if uniform(mask@, w as int, h as int) && v == 0 && u == 0 {
                        assert(!covered(rs@, 0, 0));
                        assert(!seen(visited@, w as int, 0, 0));
                    }
                }
            }
            u = u + 1;
        }
        v = v + 1;
    }
    proof {
        assert forall|uu: int, vv: int|
            0 <= uu < w && 0 <= vv < h && key_at(mask@, w as int, uu, vv) != 0 implies #[trigger] covered(
            rs@,
            uu,
            vv,
        ) by {
            assert(seen(visited@, w as int, uu, vv));
        }
    }
    rs
}

} // verus!
