//! The match resolver: scans every row and every column for maximal runs of
//! three or more equal matchable colors and marks every tile of such a run
//! for clearing.

use vstd::prelude::*;

use crate::board::Board;
use crate::tile::{Params, TileColor, TileState};

verus! {

/// Positions `i ..= j` of the line form a run of at least three cells that
/// all carry the same matchable color and that contains position `x`.
pub open spec fn covering_run(line: Seq<Option<TileColor>>, x: int, i: int, j: int) -> bool {
    &&& 0 <= i <= x <= j < line.len()
    &&& j - i >= 2
    &&& line[i] is Some
    &&& forall|k: int| i <= k <= j ==> line[k] == line[i]
}

/// Position `x` of the line lies inside some run of three or more equal
/// matchable colors. Runs never wrap around the end of the line.
pub open spec fn run_covering(line: Seq<Option<TileColor>>, x: int) -> bool {
    exists|i: int, j: int| covering_run(line, x, i, j)
}

/// A run of three or more equal matchable colors covers each of its cells.
pub proof fn lemma_long_run_covered(line: Seq<Option<TileColor>>, x: int, i: int, j: int)
    requires
        covering_run(line, x, i, j),
    ensures
        run_covering(line, x),
{
}

/// A maximal run of at most two equal matchable colors covers none of its
/// cells: any covering run would have to stay inside the maximal run and so
/// could not reach length three.
pub proof fn lemma_short_run_not_covered(line: Seq<Option<TileColor>>, x: int, i: int, j: int)
    requires
        0 <= i <= x <= j < line.len(),
        j - i < 2,
        forall|k: int| i <= k <= j ==> line[k] == line[i],
        i == 0 || line[i - 1] != line[i],
        j == line.len() - 1 || line[j + 1] != line[i],
    ensures
        !run_covering(line, x),
{
    if run_covering(line, x) {
        let (a, b) = choose|a: int, b: int| covering_run(line, x, a, b);
        assert(line[x] == line[a]);
        assert(line[x] == line[i]);
        if a < i {
            assert(i - 1 >= a && i - 1 <= b);
            assert(line[i - 1] == line[a]);
            assert(false);
        }
        if b > j {
            assert(j + 1 >= a && j + 1 <= b);
            assert(line[j + 1] == line[a]);
            assert(false);
        }
        assert(false);
    }
}

/// Marks, for one row or column of matchable colors, exactly the positions
/// that lie inside a run of three or more equal colors.
#[verifier::rlimit(100)]
pub fn line_mask(line: &Vec<Option<TileColor>>) -> (mask: Vec<bool>)
    ensures
        mask@.len() == line@.len(),
        forall|x: int| 0 <= x < line@.len() ==> #[trigger] mask@[x] == run_covering(line@, x),
{
    let n = line.len();
    let mut mask: Vec<bool> = Vec::new();
    let mut z: usize = 0;
    while z < n
        invariant
            mask@.len() == z <= n,
            forall|q: int| 0 <= q < z ==> !(#[trigger] mask@[q]),
        decreases n - z,
    {
        mask.push(false);
        z = z + 1;
    }
    let mut color: Option<TileColor> = None;
    let mut run: usize = 0;
    let mut x: usize = 0;
    while x < n
        invariant
            n == line@.len(),
            mask@.len() == n,
            x <= n,
            run <= x,
            run > 0 <==> color is Some,
            run > 0 ==> color == line@[x - 1],
            forall|k: int| x - run <= k < x ==> #[trigger] line@[k] == color,
            run > 0 ==> (x - run == 0 || line@[x - run - 1] != color),
            run == 0 ==> (x == 0 || line@[x - 1] is None),
            forall|q: int| 0 <= q < x - run ==> #[trigger] mask@[q] == run_covering(line@, q),
            forall|q: int| x - run <= q < n ==> !(#[trigger] mask@[q]),
        decreases n - x,
    {
        let cur = line[x];
        let same = match (cur, color) {
            (Some(c1), Some(c2)) => c1 == c2,
            _ => false,
        };
        if same {
            run = run + 1;
        } else {
            if run > 2 {
                proof {
                    assert forall|q: int| x - run <= q < x implies run_covering(line@, q) by {
                        lemma_long_run_covered(line@, q, x - run, x - 1);
                    }
                }
                let mut q = x - run;
                while q < x
                    invariant
                        x - run <= q <= x <= n,
                        mask@.len() == n,
                        run <= x,
                        forall|w: int| 0 <= w < x - run ==> #[trigger] mask@[w] == run_covering(line@, w),
                        forall|w: int| x - run <= w < q ==> #[trigger] mask@[w],
                        forall|w: int| q <= w < n ==> !(#[trigger] mask@[w]),
                    decreases x - q,
                {
                    mask.set(q, true);
                    q = q + 1;
                }
            } else {
                proof {
                    if run > 0 {
                        assert forall|q: int| x - run <= q < x implies !run_covering(line@, q) by {
                            lemma_short_run_not_covered(line@, q, x - run, x - 1);
                        }
                    }
                }
            }
            color = cur;
            run = if cur.is_some() {
                1
            } else {
                0
            };
        }
        x = x + 1;
    }
    if run > 2 {
        proof {
            assert forall|q: int| n - run <= q < n implies run_covering(line@, q) by {
                lemma_long_run_covered(line@, q, n - run, n - 1);
            }
        }
        let mut q = n - run;
        while q < n
            invariant
                n - run <= q <= n,
                n == line@.len(),
                mask@.len() == n,
                run <= n,
                forall|w: int| 0 <= w < n - run ==> #[trigger] mask@[w] == run_covering(line@, w),
                forall|w: int| n - run <= w < q ==> #[trigger] mask@[w],
                forall|w: int| q <= w < n ==> !(#[trigger] mask@[w]),
            decreases n - q,
        {
            mask.set(q, true);
            q = q + 1;
        }
    } else {
        proof {
            if run > 0 {
                assert forall|q: int| n - run <= q < n implies !run_covering(line@, q) by {
                    lemma_short_run_not_covered(line@, q, n - run, n - 1);
                }
            }
        }
    }
    mask
}

/// The matchable colors of row `y`, left to right.
pub open spec fn row_line(g: Seq<Seq<TileState>>, y: int) -> Seq<Option<TileColor>> {
    Seq::new(g.len(), |x: int| g[x][y].spec_matchable_color())
}

/// The matchable colors of column `x`, top to bottom.
pub open spec fn col_line(g: Seq<Seq<TileState>>, x: int) -> Seq<Option<TileColor>> {
    Seq::new(g[x].len(), |y: int| g[x][y].spec_matchable_color())
}

/// The cell lies inside a horizontal run of three or more equal matchable
/// colors.
pub open spec fn h_covered(g: Seq<Seq<TileState>>, x: int, y: int) -> bool {
    run_covering(row_line(g, y), x)
}

/// The cell lies inside a vertical run of three or more equal matchable
/// colors.
pub open spec fn v_covered(g: Seq<Seq<TileState>>, x: int, y: int) -> bool {
    run_covering(col_line(g, x), y)
}

/// The cell lies inside a run of three or more equal matchable colors, in
/// either direction. Both directions look at the same pre-scan board.
pub open spec fn cell_covered(g: Seq<Seq<TileState>>, x: int, y: int) -> bool {
    h_covered(g, x, y) || v_covered(g, x, y)
}

/// The board after one resolution pass: every covered cell is marked for
/// clearing with its own color, every other cell is untouched.
pub open spec fn resolve_spec(g: Seq<Seq<TileState>>) -> Seq<Seq<TileState>> {
    Seq::new(
        g.len(),
        |x: int|
            Seq::new(
                g[x].len(),
                |y: int|
                    if cell_covered(g, x, y) {
                        TileState::JustMatched(g[x][y].spec_color())
                    } else {
                        g[x][y]
                    },
            ),
    )
}

/// Some cell of the board lies inside a run of three or more.
pub open spec fn any_covered(g: Seq<Seq<TileState>>) -> bool {
    exists|x: int, y: int| 0 <= x < g.len() && 0 <= y < g[x].len() && cell_covered(g, x, y)
}

/// A cell covered by a horizontal run carries a matchable color.
proof fn lemma_h_covered_some(g: Seq<Seq<TileState>>, x: int, y: int)
    requires
        h_covered(g, x, y),
    ensures
        g[x][y].spec_matchable_color() == Some(g[x][y].spec_color()),
{
    let (a, b) = choose|a: int, b: int| covering_run(row_line(g, y), x, a, b);
    assert(row_line(g, y)[x] == row_line(g, y)[a]);
}

/// A cell covered by a vertical run carries a matchable color.
proof fn lemma_v_covered_some(g: Seq<Seq<TileState>>, x: int, y: int)
    requires
        v_covered(g, x, y),
    ensures
        g[x][y].spec_matchable_color() == Some(g[x][y].spec_color()),
{
    let (a, b) = choose|a: int, b: int| covering_run(col_line(g, x), y, a, b);
    assert(col_line(g, x)[y] == col_line(g, x)[a]);
}

/// A covered cell carries a matchable color: it is settled or already
/// marked, never mid-swap or falling.
pub proof fn lemma_covered_matchable(g: Seq<Seq<TileState>>, x: int, y: int)
    requires
        cell_covered(g, x, y),
    ensures
        g[x][y].spec_matchable_color() == Some(g[x][y].spec_color()),
        g[x][y] is Settled || g[x][y] is JustMatched,
{
    if h_covered(g, x, y) {
        lemma_h_covered_some(g, x, y);
    } else {
        lemma_v_covered_some(g, x, y);
    }
}

/// Marking runs preserves each column's stacking invariant: a marked cell
/// leaves the stacking chain, and every cell left in the chain is untouched.
pub proof fn lemma_resolve_preserves_stacking(g: Seq<Seq<TileState>>, x: int)
    requires
        0 <= x < g.len(),
        crate::dropper::col_stacked(g[x]),
    ensures
        crate::dropper::col_stacked(resolve_spec(g)[x]),
{
    let r = resolve_spec(g)[x];
    assert forall|i: int, j: int|
        0 <= i < j < r.len() && !(#[trigger] r[i]).is_matched() && !(#[trigger] r[j]).is_matched()
        implies crate::dropper::effective_distance(r[i]) >= crate::dropper::effective_distance(
        r[j],
    ) by {
        assert(r[i] == g[x][i]);
        assert(r[j] == g[x][j]);
    }
}

/// One resolution pass over the whole board: every maximal run of three or
/// more equal matchable colors, in any row or any column, has all of its
/// cells marked for clearing; every other cell is untouched. Returns whether
/// anything was marked. Both scan directions judge runs against the same
/// pre-scan board, so a cell can be marked by both without being counted
/// twice.
#[verifier::rlimit(100)]
pub fn resolve_matches(board: &mut Board, params: &Params) -> (found: bool)
    requires
        params.wf(),
        old(board).wf_dims(params.grid_w as int, params.grid_h as int),
    ensures
        final(board).wf_dims(params.grid_w as int, params.grid_h as int),
        final(board).grid() == resolve_spec(old(board).grid()),
        found == any_covered(old(board).grid()),
{
    let ghost g0 = board.grid();
    let w = params.grid_w;
    let h = params.grid_h;
    let mut found = false;
    // Row pass.
    let mut y: usize = 0;
    while y < h
        invariant
            w == g0.len(),
            forall|x: int| 0 <= x < w ==> (#[trigger] g0[x]).len() == h,
            y <= h,
            board.wf_dims(w as int, h as int),
            forall|x: int, yy: int|
                0 <= x < w && 0 <= yy < h ==> #[trigger] board.grid()[x][yy] == if yy < y
                    && h_covered(g0, x, yy) {
                    TileState::JustMatched(g0[x][yy].spec_color())
                } else {
                    g0[x][yy]
                },
            found == exists|x: int, yy: int|
                0 <= x < w && 0 <= yy < y && #[trigger] h_covered(g0, x, yy),
        decreases h - y,
    {
        let mut rline: Vec<Option<TileColor>> = Vec::new();
        let mut x: usize = 0;
        while x < w
            invariant
                w == g0.len(),
                forall|xx: int| 0 <= xx < w ==> (#[trigger] g0[xx]).len() == h,
                y < h,
                x <= w,
                board.wf_dims(w as int, h as int),
                forall|xx: int, yy: int|
                    0 <= xx < w && 0 <= yy < h ==> #[trigger] board.grid()[xx][yy] == if yy < y
                        && h_covered(g0, xx, yy) {
                        TileState::JustMatched(g0[xx][yy].spec_color())
                    } else {
                        g0[xx][yy]
                    },
                rline@.len() == x,
                forall|k: int| 0 <= k < x ==> #[trigger] rline@[k] == g0[k][y as int].spec_matchable_color(),
            decreases w - x,
        {
            proof {
                assert(board.grid()[x as int][y as int] == g0[x as int][y as int]);
                assert(board.cols@[x as int]@[y as int] == board.grid()[x as int][y as int]);
            }
            rline.push(board.cols[x][y].matchable_color());
            x = x + 1;
        }
        proof {
            assert(rline@ =~= row_line(g0, y as int));
        }
        let mask = line_mask(&rline);
        let mut x: usize = 0;
        while x < w
            invariant
                w == g0.len(),
                forall|xx: int| 0 <= xx < w ==> (#[trigger] g0[xx]).len() == h,
                y < h,
                x <= w,
                mask@.len() == w,
                forall|k: int| 0 <= k < w ==> #[trigger] mask@[k] == h_covered(g0, k, y as int),
                board.wf_dims(w as int, h as int),
                forall|xx: int, yy: int|
                    0 <= xx < w && 0 <= yy < h ==> #[trigger] board.grid()[xx][yy] == if (yy < y
                        || (yy == y && xx < x)) && h_covered(g0, xx, yy) {
                        TileState::JustMatched(g0[xx][yy].spec_color())
                    } else {
                        g0[xx][yy]
                    },
                found == exists|xx: int, yy: int|
                    0 <= xx < w && (0 <= yy < y || (yy == y && 0 <= xx < x)) && #[trigger] h_covered(
                        g0,
                        xx,
                        yy,
                    ),
        decreases w - x,
        {
            if mask[x] {
                proof {
                    lemma_h_covered_some(g0, x as int, y as int);
                }
                let c = board.cols[x][y].color();
                let res = board.set(x, y, TileState::JustMatched(c));
                proof {
                    assert(res is Ok);
                    assert(h_covered(g0, x as int, y as int));
                }
                found = true;
            }
            x = x + 1;
        }
        y = y + 1;
    }
    let ghost g1 = board.grid();
    let ghost found_h = found;
    // Column pass, over the same matchable colors: marking a cell keeps its
    // matchable color, so the column lines read back equal to the pre-scan
    // board's.
    let mut x: usize = 0;
    while x < w
        invariant
            w == g0.len(),
            forall|xx: int| 0 <= xx < w ==> (#[trigger] g0[xx]).len() == h,
            x <= w,
            board.wf_dims(w as int, h as int),
            forall|xx: int, yy: int|
                0 <= xx < w && 0 <= yy < h ==> #[trigger] board.grid()[xx][yy] == if (xx < x
                    && v_covered(g0, xx, yy)) || h_covered(g0, xx, yy) {
                    TileState::JustMatched(g0[xx][yy].spec_color())
                } else {
                    g0[xx][yy]
                },
            found == (found_h || exists|xx: int, yy: int|
                0 <= xx < x && 0 <= yy < h && #[trigger] v_covered(g0, xx, yy)),
            found_h == exists|xx: int, yy: int|
                0 <= xx < w && 0 <= yy < h && #[trigger] h_covered(g0, xx, yy),
        decreases w - x,
    {
        let mut cline: Vec<Option<TileColor>> = Vec::new();
        let mut yy: usize = 0;
        while yy < h
            invariant
                w == g0.len(),
                forall|xx: int| 0 <= xx < w ==> (#[trigger] g0[xx]).len() == h,
                x < w,
                yy <= h,
                board.wf_dims(w as int, h as int),
                forall|xx: int, yq: int|
                    0 <= xx < w && 0 <= yq < h ==> #[trigger] board.grid()[xx][yq] == if (xx < x
                        && v_covered(g0, xx, yq)) || h_covered(g0, xx, yq) {
                        TileState::JustMatched(g0[xx][yq].spec_color())
                    } else {
                        g0[xx][yq]
                    },
                cline@.len() == yy,
                forall|k: int| 0 <= k < yy ==> #[trigger] cline@[k] == g0[x as int][k].spec_matchable_color(),
            decreases h - yy,
        {
            proof {
                assert(board.cols@[x as int]@[yy as int] == board.grid()[x as int][yy as int]);
            }
            let mc = board.cols[x][yy].matchable_color();
            proof {
                if h_covered(g0, x as int, yy as int) {
                    lemma_h_covered_some(g0, x as int, yy as int);
                }
            }
            cline.push(mc);
            yy = yy + 1;
        }
        proof {
            assert(cline@ =~= col_line(g0, x as int));
        }
        let mask = line_mask(&cline);
        let mut yy: usize = 0;
        while yy < h
            invariant
                w == g0.len(),
                forall|xx: int| 0 <= xx < w ==> (#[trigger] g0[xx]).len() == h,
                x < w,
                yy <= h,
                mask@.len() == h,
                forall|k: int| 0 <= k < h ==> #[trigger] mask@[k] == v_covered(g0, x as int, k),
                board.wf_dims(w as int, h as int),
                forall|xx: int, yq: int|
                    0 <= xx < w && 0 <= yq < h ==> #[trigger] board.grid()[xx][yq] == if (xx < x
                        && v_covered(g0, xx, yq)) || (xx == x && yq < yy && v_covered(g0, xx, yq))
                        || h_covered(g0, xx, yq) {
                        TileState::JustMatched(g0[xx][yq].spec_color())
                    } else {
                        g0[xx][yq]
                    },
                found == (found_h || exists|xx: int, yq: int|
                    (0 <= xx < x && 0 <= yq < h && #[trigger] v_covered(g0, xx, yq)) || (xx == x && 0
                        <= yq < yy && v_covered(g0, xx, yq))),
            decreases h - yy,
        {
            if mask[yy] {
                proof {
                    lemma_v_covered_some(g0, x as int, yy as int);
                }
                let c = board.cols[x][yy].color();
                let res = board.set(x, yy, TileState::JustMatched(c));
                proof {
                    assert(res is Ok);
                    assert(v_covered(g0, x as int, yy as int));
                }
                found = true;
            }
            yy = yy + 1;
        }
        x = x + 1;
    }
    proof {
        assert(board.grid() =~~= resolve_spec(g0));
        if found {
            assert(any_covered(g0)) by {
                if found_h {
                    let (xx, yy) = choose|xx: int, yy: int|
                        0 <= xx < w && 0 <= yy < h && #[trigger] h_covered(g0, xx, yy);
                    assert(cell_covered(g0, xx, yy));
                } else {
                    let (xx, yy) = choose|xx: int, yy: int|
                        0 <= xx < w && 0 <= yy < h && #[trigger] v_covered(g0, xx, yy);
                    assert(cell_covered(g0, xx, yy));
                }
            }
        }
        if any_covered(g0) {
            let (xx, yy) = choose|xx: int, yy: int|
                0 <= xx < g0.len() && 0 <= yy < g0[xx].len() && cell_covered(g0, xx, yy);
            assert(found);
        }
    }
    found
}

/// Resolution is idempotent: marking keeps every cell's matchable color, so
/// a second pass over an already-resolved board finds exactly the same runs
/// and rewrites every marked cell to the value it already has.
pub proof fn lemma_resolve_idempotent(g: Seq<Seq<TileState>>, h: int)
    requires
        forall|x: int| 0 <= x < g.len() ==> (#[trigger] g[x]).len() == h,
    ensures
        resolve_spec(resolve_spec(g)) == resolve_spec(g),
{
    let r = resolve_spec(g);
    assert forall|x: int, y: int|
        0 <= x < g.len() && 0 <= y < h implies (#[trigger] r[x][y]).spec_matchable_color()
        == g[x][y].spec_matchable_color() by {
        if cell_covered(g, x, y) {
            if h_covered(g, x, y) {
                lemma_h_covered_some(g, x, y);
            } else {
                lemma_v_covered_some(g, x, y);
            }
        }
    }
    assert forall|y: int| 0 <= y < h implies row_line(r, y) == row_line(g, y) by {
        assert(row_line(r, y) =~= row_line(g, y));
    }
    assert forall|x: int| 0 <= x < g.len() implies col_line(r, x) == col_line(g, x) by {
        assert(col_line(r, x) =~= col_line(g, x));
    }
    assert forall|x: int, y: int|
        0 <= x < g.len() && 0 <= y < h implies #[trigger] cell_covered(r, x, y) == cell_covered(
        g,
        x,
        y,
    ) by {
        assert(h_covered(r, x, y) == h_covered(g, x, y));
        assert(v_covered(r, x, y) == v_covered(g, x, y));
    }
    assert(resolve_spec(r) =~~= r);
}

} // verus!
