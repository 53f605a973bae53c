//! The column dropper: after matches are marked, each column independently
//! compacts its surviving tiles downward over the cleared cells and spawns
//! fresh falling tiles above to refill the column.

use vstd::prelude::*;

use crate::tile::{TileColor, TileState, MAX_DISTANCE};

verus! {

/// Every falling tile of the column keeps its physics fields in bounds.
pub open spec fn col_wf(col: Seq<TileState>) -> bool {
    forall|i: int| 0 <= i < col.len() ==> (#[trigger] col[i]).wf()
}

/// No cell of the column is mid-swap.
pub open spec fn no_swapping(col: Seq<TileState>) -> bool {
    forall|i: int| 0 <= i < col.len() ==> !((#[trigger] col[i]) is Swapping)
}

/// No cell of the column is marked for clearing.
pub open spec fn no_matched(col: Seq<TileState>) -> bool {
    forall|i: int| 0 <= i < col.len() ==> !(#[trigger] col[i]).is_matched()
}

/// How far above its settled position a tile effectively rests: the remaining
/// fall distance of a falling tile, zero for a tile at rest.
pub open spec fn effective_distance(s: TileState) -> int {
    match s {
        TileState::Falling { d, .. } => d as int,
        _ => 0,
    }
}

/// The stacking invariant of one column: among the cells that are not marked
/// for clearing, effective distances never increase downward, so no tile can
/// pass through the tile below it. Row index 0 is the top of the screen.
pub open spec fn col_stacked(col: Seq<TileState>) -> bool {
    forall|i: int, j: int|
        0 <= i < j < col.len() && !(#[trigger] col[i]).is_matched() && !(#[trigger] col[j]).is_matched()
            ==> effective_distance(col[i]) >= effective_distance(col[j])
}

/// Number of cells marked `JustMatched` among positions `lo <= p < hi`.
pub open spec fn count_matched(col: Seq<TileState>, lo: int, hi: int) -> int
    decreases hi - lo,
{
    if lo >= hi {
        0
    } else {
        count_matched(col, lo, hi - 1) + if col[hi - 1].is_matched() {
            1int
        } else {
            0int
        }
    }
}

/// How many cells a surviving tile at position `p` drops: the number of
/// cleared cells strictly below it.
pub open spec fn shift_of(col: Seq<TileState>, p: int) -> int {
    count_matched(col, p + 1, col.len() as int)
}

/// The first position at or after `i` that is not marked for clearing, or
/// the length of the column when every such cell is marked.
pub open spec fn first_unmatched(col: Seq<TileState>, i: int) -> int
    decreases col.len() - i,
{
    if i < 0 || i >= col.len() {
        col.len() as int
    } else if !col[i].is_matched() {
        i
    } else {
        first_unmatched(col, i + 1)
    }
}

/// Distances are saturated at the overflow bound; far beyond any reachable
/// play state, but it closes the arithmetic.
pub open spec fn cap_distance(x: int) -> int {
    if x > MAX_DISTANCE {
        MAX_DISTANCE as int
    } else {
        x
    }
}

/// The state of a surviving tile after dropping `shift` cells: unchanged when
/// it stays put; otherwise falling, with the height of the newly vacated
/// cells added to any travel it had already accumulated and its velocity
/// preserved. Resetting the accumulated travel here would let a moved tile
/// clip through its still-falling neighbors.
pub open spec fn spec_adjusted(s: TileState, shift: int, tile_h: int) -> TileState {
    if shift == 0 {
        s
    } else {
        match s {
            TileState::Settled(c) => TileState::Falling {
                color: c,
                d: cap_distance(shift * tile_h) as i64,
                v: 0,
            },
            TileState::Falling { color, d, v } => TileState::Falling {
                color,
                d: cap_distance(d + shift * tile_h) as i64,
                v,
            },
            _ => s,
        }
    }
}

/// The shared starting distance of the tiles spawned above the column: the
/// height of the refilled span, raised to the travel of the topmost surviving
/// tile when that tile is still falling farther, so new tiles never clip
/// through it.
pub open spec fn spec_fill_distance(col: Seq<TileState>, tile_h: int) -> int {
    let m = count_matched(col, 0, col.len() as int);
    let p0 = first_unmatched(col, 0);
    if p0 >= col.len() {
        m * tile_h
    } else {
        match spec_adjusted(col[p0], shift_of(col, p0), tile_h) {
            TileState::Falling { d, .. } => if m * tile_h >= d {
                m * tile_h
            } else {
                d as int
            },
            _ => m * tile_h,
        }
    }
}

/// Two columns that agree cell by cell on effective distance and on being
/// marked satisfy the stacking invariant together.
pub proof fn lemma_stacked_eff_equal(c1: Seq<TileState>, c2: Seq<TileState>)
    requires
        c1.len() == c2.len(),
        forall|i: int|
            0 <= i < c1.len() ==> effective_distance(#[trigger] c1[i]) == effective_distance(
                c2[i],
            ) && c1[i].is_matched() == c2[i].is_matched(),
        col_stacked(c1),
    ensures
        col_stacked(c2),
{
    assert forall|i: int, j: int|
        0 <= i < j < c2.len() && !(#[trigger] c2[i]).is_matched() && !(
        #[trigger] c2[j]).is_matched() implies effective_distance(c2[i]) >= effective_distance(
        c2[j],
    ) by {
        assert(effective_distance(c1[i]) >= effective_distance(c1[j]));
    }
}

/// Counting over `[lo, hi)` splits at any midpoint.
pub proof fn lemma_count_split(col: Seq<TileState>, lo: int, mid: int, hi: int)
    requires
        lo <= mid <= hi,
    ensures
        count_matched(col, lo, hi) == count_matched(col, lo, mid) + count_matched(col, mid, hi),
    decreases hi - mid,
{
    if mid < hi {
        lemma_count_split(col, lo, mid, hi - 1);
    }
}

/// The count over a range is bounded by the size of the range.
pub proof fn lemma_count_bounds(col: Seq<TileState>, lo: int, hi: int)
    requires
        lo <= hi,
    ensures
        0 <= count_matched(col, lo, hi) <= hi - lo,
    decreases hi - lo,
{
    if lo < hi {
        lemma_count_bounds(col, lo, hi - 1);
    }
}

/// A range counts full exactly when every cell in it is marked.
pub proof fn lemma_count_full(col: Seq<TileState>, lo: int, hi: int)
    requires
        lo <= hi,
    ensures
        (count_matched(col, lo, hi) == hi - lo) <==> (forall|q: int|
            lo <= q < hi ==> (#[trigger] col[q]).is_matched()),
    decreases hi - lo,
{
    if lo < hi {
        lemma_count_full(col, lo, hi - 1);
        lemma_count_bounds(col, lo, hi - 1);
    }
}

/// A range counts zero exactly when no cell in it is marked.
pub proof fn lemma_count_zero(col: Seq<TileState>, lo: int, hi: int)
    requires
        lo <= hi,
    ensures
        (count_matched(col, lo, hi) == 0) <==> (forall|q: int|
            lo <= q < hi ==> !(#[trigger] col[q]).is_matched()),
    decreases hi - lo,
{
    if lo < hi {
        lemma_count_zero(col, lo, hi - 1);
        lemma_count_bounds(col, lo, hi - 1);
    }
}

/// For a settled or falling tile, adjusting by a positive shift adds the
/// vacated height to its effective distance, saturating at the bound.
proof fn lemma_adjusted_eff(s: TileState, shift: int, tile_h: int)
    requires
        s is Settled || s is Falling,
        shift >= 0,
        tile_h > 0,
    ensures
        effective_distance(spec_adjusted(s, shift, tile_h)) == if shift == 0 {
            effective_distance(s)
        } else {
            cap_distance(effective_distance(s) + shift * tile_h)
        },
{
}

/// Adjusting preserves the stacking order: an upper tile that starts no
/// lower-traveled and drops through at least as many vacated cells keeps an
/// effective distance at least that of the tile below it.
proof fn lemma_adjusted_mono(s1: TileState, s2: TileState, sh1: int, sh2: int, tile_h: int)
    requires
        s1 is Settled || s1 is Falling,
        s2 is Settled || s2 is Falling,
        s1.wf(),
        s2.wf(),
        sh1 >= sh2 >= 0,
        0 < tile_h,
        effective_distance(s1) >= effective_distance(s2),
    ensures
        effective_distance(spec_adjusted(s1, sh1, tile_h)) >= effective_distance(
            spec_adjusted(s2, sh2, tile_h),
        ),
{
    let e1 = effective_distance(s1);
    let e2 = effective_distance(s2);
    lemma_adjusted_eff(s1, sh1, tile_h);
    lemma_adjusted_eff(s2, sh2, tile_h);
    assert(sh1 * tile_h >= sh2 * tile_h >= 0) by (nonlinear_arith)
        requires
            sh1 >= sh2 >= 0,
            tile_h > 0,
    ;
    assert(e2 <= MAX_DISTANCE);
}

/// In a column with no marked cells, a non-increasing chain of adjacent
/// effective distances gives the full stacking invariant.
proof fn lemma_chain_stacked(col: Seq<TileState>, i: int, j: int)
    requires
        0 <= i <= j < col.len(),
        forall|q: int|
            0 <= q < col.len() - 1 ==> effective_distance(#[trigger] col[q]) >= effective_distance(
                col[q + 1],
            ),
    ensures
        effective_distance(col[i]) >= effective_distance(col[j]),
    decreases j - i,
{
    if i < j {
        lemma_chain_stacked(col, i + 1, j);
        assert(effective_distance(col[i]) >= effective_distance(col[i + 1]));
    }
}

/// Properties of the first unmarked position: everything before it is
/// marked, and it is unmarked when it lies inside the column.
pub proof fn lemma_first_unmatched(col: Seq<TileState>, i: int)
    requires
        0 <= i <= col.len(),
    ensures
        i <= first_unmatched(col, i) <= col.len(),
        forall|q: int| i <= q < first_unmatched(col, i) ==> (#[trigger] col[q]).is_matched(),
        first_unmatched(col, i) < col.len() ==> !col[first_unmatched(col, i)].is_matched(),
    decreases col.len() - i,
{
    if i < col.len() && col[i].is_matched() {
        lemma_first_unmatched(col, i + 1);
    }
}

/// Number of cells of the column currently marked for clearing; this is how
/// many fresh tiles a drop pass will spawn.
pub fn count_matched_tiles(col: &Vec<TileState>) -> (m: usize)
    ensures
        m == count_matched(col@, 0, col@.len() as int),
{
    let mut m: usize = 0;
    let mut i: usize = 0;
    while i < col.len()
        invariant
            i <= col@.len(),
            m <= i,
            m == count_matched(col@, 0, i as int),
        decreases col@.len() - i,
    {
        if col[i].is_just_matched() {
            m = m + 1;
        }
        i = i + 1;
    }
    m
}

/// One drop pass over a single column, with the colors of the freshly
/// spawned tiles supplied by the caller (one per cleared cell, used from the
/// top of the column downward).
///
/// Surviving tiles are compacted downward over the cleared cells, each
/// keeping its color and velocity and accumulating the height of the cells
/// it drops through; the refilled span above starts falling from a common
/// distance with velocity zero. A column without marked cells is left
/// exactly as it was.
#[verifier::rlimit(100)]
pub fn drop_column_with(col: &mut Vec<TileState>, colors: &Vec<TileColor>, tile_h: i64)
    requires
        old(col)@.len() <= 256,
        0 < tile_h <= 1_000_000,
        col_wf(old(col)@),
        no_swapping(old(col)@),
        colors@.len() == count_matched(old(col)@, 0, old(col)@.len() as int),
    ensures
        final(col)@.len() == old(col)@.len(),
        no_matched(final(col)@),
        no_swapping(final(col)@),
        col_wf(final(col)@),
        forall|i: int|
            0 <= i < final(col)@.len() ==> ((#[trigger] final(col)@[i]) is Settled
                || final(col)@[i] is Falling),
        0 <= spec_fill_distance(old(col)@, tile_h as int) <= MAX_DISTANCE,
        forall|i: int|
            0 <= i < colors@.len() ==> (#[trigger] final(col)@[i]) == (TileState::Falling {
                color: colors@[i],
                d: spec_fill_distance(old(col)@, tile_h as int) as i64,
                v: 0,
            }),
        forall|p: int|
            0 <= p < old(col)@.len() && !(#[trigger] old(col)@[p]).is_matched() ==> final(col)@[p
                + shift_of(old(col)@, p)] == spec_adjusted(
                old(col)@[p],
                shift_of(old(col)@, p),
                tile_h as int,
            ),
        col_stacked(old(col)@) ==> col_stacked(final(col)@),
{
    let ghost pre = col@;
    let len = col.len();
    let m = count_matched_tiles(col);
    proof {
        lemma_count_bounds(pre, 0, len as int);
    }
    // Compact: compute the post-drop state of every surviving tile, in order
    // from the top of the column down.
    let mut svs: Vec<TileState> = Vec::new();
    let ghost mut pos: Seq<int> = Seq::empty();
    let mut cnt: usize = 0;
    let mut p: usize = 0;
    while p < len
        invariant
            col@ == pre,
            pre.len() == len <= 256,
            0 < tile_h <= 1_000_000,
            col_wf(pre),
            no_swapping(pre),
            m == count_matched(pre, 0, len as int),
            p <= len,
            cnt <= p,
            cnt == count_matched(pre, 0, p as int),
            svs@.len() == p - cnt,
            pos.len() == p - cnt,
            forall|k: int|
                0 <= k < pos.len() ==> 0 <= #[trigger] pos[k] < p && !pre[pos[k]].is_matched(),
            forall|a: int, b: int| 0 <= a < b < pos.len() ==> #[trigger] pos[a] < #[trigger] pos[b],
            forall|k: int|
                0 <= k < pos.len() ==> k == #[trigger] pos[k] - count_matched(pre, 0, pos[k]),
            forall|k: int|
                0 <= k < pos.len() ==> #[trigger] svs@[k] == spec_adjusted(
                    pre[pos[k]],
                    shift_of(pre, pos[k]),
                    tile_h as int,
                ),
            forall|k: int|
                0 <= k < svs@.len() ==> ((#[trigger] svs@[k]) is Settled || svs@[k] is Falling)
                    && svs@[k].wf(),
            forall|q: int|
                0 <= q < p && !(#[trigger] pre[q]).is_matched() ==> {
                    let k = q - count_matched(pre, 0, q);
                    0 <= k < pos.len() && pos[k] == q
                },
        decreases len - p,
    {
        let cur = col[p];
        if cur.is_just_matched() {
            cnt = cnt + 1;
        } else {
            proof {
                lemma_count_split(pre, 0, p as int, p as int + 1);
                lemma_count_split(pre, 0, p as int + 1, len as int);
                lemma_count_bounds(pre, p as int + 1, len as int);
            }
            let shift = m - cnt;
            proof {
                assert(shift_of(pre, p as int) == m - cnt);
                assert((shift as int) * (tile_h as int) <= 256 * 1_000_000) by (nonlinear_arith)
                    requires
                        0 <= shift <= 256,
                        0 < tile_h <= 1_000_000,
                ;
            }
            let ns = if shift == 0 {
                cur
            } else {
                match cur {
                    TileState::Settled(c) => TileState::Falling {
                        color: c,
                        d: (shift as i64) * tile_h,
                        v: 0,
                    },
                    TileState::Falling { color, d, v } => {
                        let add = (shift as i64) * tile_h;
                        let nd = if d > MAX_DISTANCE - add {
                            MAX_DISTANCE
                        } else {
                            d + add
                        };
                        TileState::Falling { color, d: nd, v }
                    },
                    _ => cur,  // ruled out by the preconditions
                }
            };
            svs.push(ns);
            proof {
                pos = pos.push(p as int);
                assert(ns == spec_adjusted(pre[p as int], shift_of(pre, p as int), tile_h as int));
            }
        }
        p = p + 1;
    }
    proof {
        assert(svs@.len() == len - m);
    }
    // The shared starting distance of the refilled span.
    proof {
        assert((m as int) * (tile_h as int) <= 256 * 1_000_000) by (nonlinear_arith)
            requires
                0 <= m <= 256,
                0 < tile_h <= 1_000_000,
        ;
        assert((m as int) * (tile_h as int) >= 0) by (nonlinear_arith)
            requires
                0 <= m,
                0 < tile_h,
        ;
    }
    let base: i64 = (m as i64) * tile_h;
    let fd: i64 = if svs.len() == 0 {
        base
    } else {
        match svs[0] {
            TileState::Falling { d, .. } => if base >= d {
                base
            } else {
                d
            },
            _ => base,
        }
    };
    proof {
        let p0 = first_unmatched(pre, 0);
        lemma_first_unmatched(pre, 0);
        lemma_count_full(pre, 0, p0);
        if svs@.len() == 0 {
            lemma_count_full(pre, 0, len as int);
            assert(p0 == len);
        } else {
            lemma_count_full(pre, 0, len as int);
            assert(p0 < len);
            assert(count_matched(pre, 0, p0) == p0);
            assert(pos[0] == p0);
            assert(svs@[0] == spec_adjusted(pre[p0], shift_of(pre, p0), tile_h as int));
        }
        assert(fd == spec_fill_distance(pre, tile_h as int));
    }
    // Rebuild the column: the refilled span, then the compacted survivors.
    let mut out: Vec<TileState> = Vec::new();
    let mut i: usize = 0;
    while i < m
        invariant
            i <= m,
            m == colors@.len(),
            out@.len() == i,
            forall|j: int|
                0 <= j < i ==> (#[trigger] out@[j]) == (TileState::Falling {
                    color: colors@[j],
                    d: fd,
                    v: 0,
                }),
        decreases m - i,
    {
        out.push(TileState::Falling { color: colors[i], d: fd, v: 0 });
        i = i + 1;
    }
    let mut k: usize = 0;
    while k < svs.len()
        invariant
            k <= svs@.len(),
            m == colors@.len(),
            out@.len() == m + k,
            forall|j: int|
                0 <= j < m ==> (#[trigger] out@[j]) == (TileState::Falling {
                    color: colors@[j],
                    d: fd,
                    v: 0,
                }),
            forall|j: int| 0 <= j < k ==> (#[trigger] out@[m + j]) == svs@[j],
        decreases svs@.len() - k,
    {
        out.push(svs[k]);
        k = k + 1;
    }
    *col = out;
    proof {
        drop_final_proof(pre, colors@, tile_h as int, svs@, pos, col@, fd as int, m as int);
    }
}

/// Ties the rebuilt column to the drop characterization and carries the
/// stacking invariant across a drop pass.
#[verifier::rlimit(100)]
proof fn drop_final_proof(
    pre: Seq<TileState>,
    colors: Seq<TileColor>,
    tile_h: int,
    svs: Seq<TileState>,
    pos: Seq<int>,
    out: Seq<TileState>,
    fd: int,
    m: int,
)
    requires
        pre.len() <= 256,
        0 < tile_h <= 1_000_000,
        col_wf(pre),
        no_swapping(pre),
        m == count_matched(pre, 0, pre.len() as int),
        colors.len() == m,
        svs.len() == pre.len() - m,
        pos.len() == svs.len(),
        forall|k: int|
            0 <= k < pos.len() ==> 0 <= #[trigger] pos[k] < pre.len() && !pre[pos[k]].is_matched(),
        forall|a: int, b: int| 0 <= a < b < pos.len() ==> #[trigger] pos[a] < #[trigger] pos[b],
        forall|k: int| 0 <= k < pos.len() ==> k == #[trigger] pos[k] - count_matched(pre, 0, pos[k]),
        forall|k: int|
            0 <= k < pos.len() ==> #[trigger] svs[k] == spec_adjusted(
                pre[pos[k]],
                shift_of(pre, pos[k]),
                tile_h,
            ),
        forall|k: int|
            0 <= k < svs.len() ==> ((#[trigger] svs[k]) is Settled || svs[k] is Falling)
                && svs[k].wf(),
        forall|q: int|
            0 <= q < pre.len() && !(#[trigger] pre[q]).is_matched() ==> {
                let k = q - count_matched(pre, 0, q);
                0 <= k < pos.len() && pos[k] == q
            },
        fd == spec_fill_distance(pre, tile_h),
        0 <= fd <= MAX_DISTANCE,
        out.len() == pre.len(),
        forall|j: int|
            0 <= j < m ==> (#[trigger] out[j]) == (TileState::Falling {
                color: colors[j],
                d: fd as i64,
                v: 0,
            }),
        forall|j: int| 0 <= j < svs.len() ==> (#[trigger] out[m + j]) == svs[j],
    ensures
        no_matched(out),
        no_swapping(out),
        col_wf(out),
        forall|i: int| 0 <= i < out.len() ==> ((#[trigger] out[i]) is Settled || out[i] is Falling),
        forall|p: int|
            0 <= p < pre.len() && !(#[trigger] pre[p]).is_matched() ==> out[p + shift_of(pre, p)]
                == spec_adjusted(pre[p], shift_of(pre, p), tile_h),
        col_stacked(pre) ==> col_stacked(out),
{
    let len = pre.len() as int;
    // Every cell of the rebuilt column is a settled or falling tile.
    assert forall|i: int| 0 <= i < out.len() implies ((#[trigger] out[i]) is Settled
        || out[i] is Falling) && out[i].wf() && !out[i].is_matched() && !(out[i] is Swapping) by {
        if i < m {
        } else {
            assert(out[m + (i - m)] == svs[i - m]);
        }
    }
    // Each survivor lands at its original position plus its shift.
    assert forall|p: int|
        0 <= p < len && !(#[trigger] pre[p]).is_matched() implies out[p + shift_of(pre, p)]
        == spec_adjusted(pre[p], shift_of(pre, p), tile_h) by {
        let k = p - count_matched(pre, 0, p);
        assert(0 <= k < pos.len() && pos[k] == p);
        lemma_count_split(pre, 0, p, p + 1);
        lemma_count_split(pre, 0, p + 1, len);
        assert(shift_of(pre, p) == m - count_matched(pre, 0, p));
        assert(m + k == p + shift_of(pre, p));
        assert(out[m + k] == svs[k]);
    }
    // Stacking is preserved.
    if col_stacked(pre) {
        drop_stacking_proof(pre, colors, tile_h, svs, pos, out, fd, m);
    }
}

/// The stacking invariant carries across a drop pass: adjacent cells of the
/// rebuilt column never increase in effective distance downward.
#[verifier::rlimit(100)]
proof fn drop_stacking_proof(
    pre: Seq<TileState>,
    colors: Seq<TileColor>,
    tile_h: int,
    svs: Seq<TileState>,
    pos: Seq<int>,
    out: Seq<TileState>,
    fd: int,
    m: int,
)
    requires
        pre.len() <= 256,
        0 < tile_h <= 1_000_000,
        col_wf(pre),
        no_swapping(pre),
        col_stacked(pre),
        m == count_matched(pre, 0, pre.len() as int),
        colors.len() == m,
        svs.len() == pre.len() - m,
        pos.len() == svs.len(),
        forall|k: int|
            0 <= k < pos.len() ==> 0 <= #[trigger] pos[k] < pre.len() && !pre[pos[k]].is_matched(),
        forall|a: int, b: int| 0 <= a < b < pos.len() ==> #[trigger] pos[a] < #[trigger] pos[b],
        forall|k: int| 0 <= k < pos.len() ==> k == #[trigger] pos[k] - count_matched(pre, 0, pos[k]),
        forall|k: int|
            0 <= k < pos.len() ==> #[trigger] svs[k] == spec_adjusted(
                pre[pos[k]],
                shift_of(pre, pos[k]),
                tile_h,
            ),
        forall|k: int|
            0 <= k < svs.len() ==> ((#[trigger] svs[k]) is Settled || svs[k] is Falling)
                && svs[k].wf(),
        forall|q: int|
            0 <= q < pre.len() && !(#[trigger] pre[q]).is_matched() ==> {
                let k = q - count_matched(pre, 0, q);
                0 <= k < pos.len() && pos[k] == q
            },
        fd == spec_fill_distance(pre, tile_h),
        0 <= fd <= MAX_DISTANCE,
        out.len() == pre.len(),
        forall|j: int|
            0 <= j < m ==> (#[trigger] out[j]) == (TileState::Falling {
                color: colors[j],
                d: fd as i64,
                v: 0,
            }),
        forall|j: int| 0 <= j < svs.len() ==> (#[trigger] out[m + j]) == svs[j],
    ensures
        col_stacked(out),
{
    let len = pre.len() as int;
    {
        assert forall|q: int|
            0 <= q < out.len() - 1 implies effective_distance(#[trigger] out[q])
            >= effective_distance(out[q + 1]) by {
            if q + 1 < m {
                // two freshly spawned tiles share the same distance
            } else if q + 1 == m {
                // the last spawned tile sits on the topmost survivor
                assert(out[m + 0] == svs[0]);
                let p0 = first_unmatched(pre, 0);
                lemma_first_unmatched(pre, 0);
                lemma_count_full(pre, 0, p0);
                lemma_count_full(pre, 0, len);
                assert(p0 < len);
                assert(pos[0] == p0);
                assert(svs[0] == spec_adjusted(pre[p0], shift_of(pre, p0), tile_h));
            } else {
                // two adjacent survivors
                let k = q - m;
                let pk = pos[k];
                let pk1 = pos[k + 1];
                assert(out[m + k] == svs[k]);
                assert(out[m + (k + 1)] == svs[k + 1]);
                assert(out[q] == svs[k]);
                assert(out[q + 1] == svs[k + 1]);
                assert(pk < pk1);
                lemma_count_split(pre, 0, pk, pk + 1);
                lemma_count_split(pre, 0, pk + 1, pk1);
                lemma_count_split(pre, 0, pk1, pk1 + 1);
                lemma_count_split(pre, pk + 1, pk1 + 1, len);
                lemma_count_split(pre, pk + 1, pk1, pk1 + 1);
                lemma_count_bounds(pre, pk + 1, pk1);
                assert(shift_of(pre, pk) >= shift_of(pre, pk1) >= 0) by {
                    lemma_count_bounds(pre, pk1 + 1, len);
                }
                lemma_adjusted_mono(
                    pre[pk],
                    pre[pk1],
                    shift_of(pre, pk),
                    shift_of(pre, pk1),
                    tile_h,
                );
            }
        }
        assert forall|i: int, j: int|
            0 <= i < j < out.len() && !(#[trigger] out[i]).is_matched() && !(
            #[trigger] out[j]).is_matched() implies effective_distance(out[i])
            >= effective_distance(out[j]) by {
            lemma_chain_stacked(out, i, j);
        }
    }
}

/// What one drop pass guarantees of a column, up to the random choice of
/// the refilled colors: `post` keeps `pre`'s length with no marked and no
/// mid-swap cell left; its top span holds fresh falling tiles sharing
/// `spec_fill_distance` at rest speed, colored from the first `color_range`
/// palette colors; every survivor of `pre` lands at its position plus its
/// shift, adjusted by `spec_adjusted`; and a stacked column stays stacked.
pub open spec fn drop_post(
    pre: Seq<TileState>,
    post: Seq<TileState>,
    tile_h: int,
    color_range: u32,
) -> bool {
    let m = count_matched(pre, 0, pre.len() as int);
    &&& post.len() == pre.len()
    &&& no_matched(post)
    &&& no_swapping(post)
    &&& col_wf(post)
    &&& forall|i: int| 0 <= i < post.len() ==> ((#[trigger] post[i]) is Settled || post[i] is Falling)
    &&& forall|i: int|
        0 <= i < m ==> {
            &&& (#[trigger] post[i]) is Falling
            &&& post[i]->d == spec_fill_distance(pre, tile_h)
            &&& post[i]->v == 0
            &&& crate::tile::spec_color_index(post[i]->color) < color_range
        }
    &&& forall|p: int|
        0 <= p < pre.len() && !(#[trigger] pre[p]).is_matched() ==> post[p + shift_of(pre, p)]
            == spec_adjusted(pre[p], shift_of(pre, p), tile_h)
    &&& (col_stacked(pre) ==> col_stacked(post))
}

/// One drop pass over a single column, with the colors of the freshly
/// spawned tiles drawn from the randomized color source: the indices of the
/// drawn colors stay below `color_range`.
///
/// Apart from the choice of colors this behaves exactly as
/// `drop_column_with`: a no-op on a column without marked cells, and on any
/// other column it compacts the survivors and refills the top.
pub fn drop_column(col: &mut Vec<TileState>, tile_h: i64, color_range: u32)
    requires
        old(col)@.len() <= 256,
        0 < tile_h <= 1_000_000,
        0 < color_range <= crate::tile::PALETTE_SIZE,
        col_wf(old(col)@),
        no_swapping(old(col)@),
    ensures
        drop_post(old(col)@, final(col)@, tile_h as int, color_range),
{
    let ghost pre = col@;
    let m = count_matched_tiles(col);
    let mut colors: Vec<TileColor> = Vec::new();
    while colors.len() < m
        invariant
            colors@.len() <= m,
            0 < color_range <= crate::tile::PALETTE_SIZE,
            forall|k: int|
                0 <= k < colors@.len() ==> crate::tile::spec_color_index(#[trigger] colors@[k])
                    < color_range,
        decreases m - colors@.len(),
    {
        colors.push(crate::rng::random_color(color_range));
    }
    drop_column_with(col, &colors, tile_h);
    proof {
        assert forall|i: int| 0 <= i < count_matched(pre, 0, pre.len() as int) implies {
            &&& (#[trigger] col@[i]) is Falling
            &&& col@[i]->d == spec_fill_distance(pre, tile_h as int)
            &&& col@[i]->v == 0
            &&& crate::tile::spec_color_index(col@[i]->color) < color_range
        } by {
            assert(col@[i] == (TileState::Falling {
                color: colors@[i],
                d: spec_fill_distance(pre, tile_h as int) as i64,
                v: 0,
            }));
        }
    }
}

/// The effective distance of the topmost cell at or below `i` that is not
/// marked for clearing; zero when every such cell is marked.
pub open spec fn top_eff(col: Seq<TileState>, i: int) -> int
    decreases col.len() - i,
{
    if i < 0 || i >= col.len() {
        0
    } else if !col[i].is_matched() {
        effective_distance(col[i])
    } else {
        top_eff(col, i + 1)
    }
}

proof fn lemma_top_eff(col: Seq<TileState>, i: int)
    requires
        0 <= i <= col.len(),
    ensures
        top_eff(col, i) == if first_unmatched(col, i) < col.len() {
            effective_distance(col[first_unmatched(col, i)])
        } else {
            0
        },
    decreases col.len() - i,
{
    if i < col.len() && col[i].is_matched() {
        lemma_top_eff(col, i + 1);
    }
}

/// The consistency check for one column: walking it from the bottom row
/// upward and skipping cells marked for clearing, the effective distances
/// must start at or above zero and never decrease. This is exactly the
/// stacking invariant plus non-negative travel; the drop functions promise
/// in their contracts that it survives every drop pass, so this check is a
/// runtime diagnostic for tests and debugging.
pub fn validate(col: &Vec<TileState>) -> (ok: bool)
    requires
        no_swapping(col@),
    ensures
        ok == (col_stacked(col@) && forall|q: int|
            0 <= q < col@.len() ==> effective_distance(#[trigger] col@[q]) >= 0),
{
    let mut prev: i64 = 0;
    let mut i = col.len();
    while i > 0
        invariant
            i <= col@.len(),
            no_swapping(col@),
            prev == top_eff(col@, i as int),
            prev >= 0,
            forall|q: int|
                i <= q < col@.len() ==> effective_distance(#[trigger] col@[q]) >= 0,
            forall|q: int| i <= q < col@.len() ==> effective_distance(#[trigger] col@[q]) <= prev,
            forall|a: int, b: int|
                i <= a < b < col@.len() && !(#[trigger] col@[a]).is_matched() && !(
                #[trigger] col@[b]).is_matched() ==> effective_distance(col@[a])
                    >= effective_distance(col@[b]),
        decreases i,
    {
        i = i - 1;
        let cur = col[i];
        if !cur.is_just_matched() {
            let nd: i64 = match cur {
                TileState::Settled(_) => 0,
                TileState::Falling { d, .. } => d,
                _ => 0,  // ruled out by the precondition
            };
            if nd < prev {
                proof {
                    if nd >= 0 {
                        lemma_top_eff(col@, i as int + 1);
                        lemma_first_unmatched(col@, i as int + 1);
                        let i0 = first_unmatched(col@, i as int + 1);
                        assert(i0 < col@.len());
                        assert(!col@[i0].is_matched());
                        assert(effective_distance(col@[i0]) == prev);
                        assert(effective_distance(col@[i as int]) < prev);
                        assert(!col_stacked(col@));
                    } else {
                        assert(effective_distance(col@[i as int]) < 0);
                    }
                }
                return false;
            }
            prev = nd;
        }
    }
    true
}

} // verus!


