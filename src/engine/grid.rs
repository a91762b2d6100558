use vstd::prelude::*;

verus! {

/// Largest supported edge length of a chunk or a meshing slice: a chunk of
/// this edge holds 2^30 blocks, so block counts and indices fit a `usize`
/// even on 32-bit targets.
pub const MAX_EDGE: usize = 1024;

/// Row-major position of cell `(u, v)` in a grid whose rows are `w` cells long.
pub open spec fn cell(w: int, u: int, v: int) -> int {
    v * w + u
}

pub proof fn lemma_cell_bounds(w: int, h: int, u: int, v: int)
    requires
        0 <= u < w,
        0 <= v < h,
    ensures
        0 <= cell(w, u, v) < w * h,
{
    assert(0 <= v * w + u < w * h) by (nonlinear_arith)
        requires
            0 <= u < w,
            0 <= v < h,
    ;
}

pub proof fn lemma_cell_injective(w: int, u: int, v: int, u2: int, v2: int)
    requires
        0 <= u < w,
        0 <= u2 < w,
        0 <= v,
        0 <= v2,
        cell(w, u, v) == cell(w, u2, v2),
    ensures
        u == u2,
        v == v2,
{
    if v < v2 {
        assert(v * w + u < v2 * w) by (nonlinear_arith)
            requires
                0 <= u < w,
                v < v2,
        ;
    } else if v2 < v {
        assert(v2 * w + u2 < v * w) by (nonlinear_arith)
            requires
                0 <= u2 < w,
                v2 < v,
        ;
    }
}

pub proof fn lemma_area_bound(w: int, h: int)
    requires
        1 <= w <= MAX_EDGE,
        1 <= h <= MAX_EDGE,
    ensures
        1 <= w * h <= MAX_EDGE * MAX_EDGE,
{
    assert(1 <= w * h <= 1024 * 1024) by (nonlinear_arith)
        requires
            1 <= w <= 1024,
            1 <= h <= 1024,
    ;
}

/// Cells earlier in raster order have smaller positions.
pub proof fn lemma_cell_raster(w: int, u: int, v: int, u2: int, v2: int)
    requires
        0 <= u < w,
        0 <= u2 < w,
        0 <= v2,
        v2 < v || (v2 == v && u2 < u),
    ensures
        cell(w, u2, v2) < cell(w, u, v),
{
    if v2 < v {
        assert(v2 * w + u2 < v * w + u) by (nonlinear_arith)
            requires
                0 <= u < w,
                0 <= u2 < w,
                v2 < v,
        ;
    }
}

/// One past the end of row `v` is the start of row `v + 1`.
pub proof fn lemma_cell_next_row(w: int, v: int)
    ensures
        cell(w, w, v) == cell(w, 0, v + 1),
{
    assert(v * w + w == (v + 1) * w) by (nonlinear_arith);
}

} // verus!
