//! The fall integrator: advances position and velocity of every falling
//! tile once per tick, clamps a tile against the already-updated tile
//! directly below it so nothing falls through, and settles tiles that reach
//! their target.

use vstd::prelude::*;

use crate::dropper::{col_stacked, col_wf, effective_distance, no_matched};
use crate::tile::{TileState, MAX_DISTANCE, MAX_VELOCITY, MAX_TICK_MS};

verus! {

/// Velocities are saturated at the overflow bound; far beyond any reachable
/// play state, but it closes the arithmetic.
pub open spec fn cap_velocity(x: int) -> int {
    if x > MAX_VELOCITY {
        MAX_VELOCITY as int
    } else {
        x
    }
}

/// One physics step of a single cell, given the already-updated state of the
/// cell directly below it. Distances are in milli-pixels, velocities in
/// milli-pixels per second, gravity in milli-pixels per second per second,
/// and the time step in milliseconds; the divisions convert between those
/// units. A falling tile whose remaining distance reaches zero settles.
pub open spec fn spec_fall_cell(s: TileState, below: Option<TileState>, dt: int, g: int) -> TileState {
    match s {
        TileState::Falling { color, d, v } => {
            let d1 = d - (v * dt) / 1000 - (g * dt * dt) / 2_000_000;
            let v1 = cap_velocity(v + (g * dt) / 1000);
            let d2 = match below {
                Some(TileState::Falling { d: od, .. }) => if d1 >= od {
                    d1
                } else {
                    od as int
                },
                _ => d1,
            };
            let v2 = match below {
                Some(TileState::Falling { v: ov, .. }) => if v1 <= ov {
                    v1
                } else {
                    ov as int
                },
                _ => v1,
            };
            if d2 <= 0 {
                TileState::Settled(color)
            } else {
                TileState::Falling { color, d: d2 as i64, v: v2 as i64 }
            }
        },
        _ => s,
    }
}

/// One physics step of a whole column, processed from the bottom row
/// upward: each cell is clamped against the already-updated cell below it.
pub open spec fn spec_fall_column(col: Seq<TileState>, dt: int, g: int) -> Seq<TileState>
    decreases col.len(),
{
    if col.len() == 0 {
        Seq::empty()
    } else {
        let rest = spec_fall_column(col.drop_first(), dt, g);
        let below = if rest.len() > 0 {
            Some(rest[0])
        } else {
            None
        };
        seq![spec_fall_cell(col.first(), below, dt, g)] + rest
    }
}

/// A physics step keeps the column length.
pub proof fn lemma_fall_column_len(col: Seq<TileState>, dt: int, g: int)
    ensures
        spec_fall_column(col, dt, g).len() == col.len(),
    decreases col.len(),
{
    if col.len() > 0 {
        lemma_fall_column_len(col.drop_first(), dt, g);
    }
}

/// One physics step keeps a cell's physics fields in bounds, and a tile
/// that stays falling keeps a strictly positive remaining distance.
proof fn lemma_fall_cell_wf(s: TileState, below: Option<TileState>, dt: int, g: int)
    requires
        s.wf(),
        below matches Some(b) ==> b.wf(),
        0 <= dt <= MAX_TICK_MS,
        0 <= g <= 1_000_000,
    ensures
        spec_fall_cell(s, below, dt, g).wf(),
        spec_fall_cell(s, below, dt, g) is Falling ==> spec_fall_cell(s, below, dt, g)->d > 0,
{
    if s is Falling {
        let d = s->d;
        let v = s->v;
        assert(v * dt >= 0 && g * dt >= 0 && g * dt * dt >= 0) by (nonlinear_arith)
            requires
                v >= 0,
                dt >= 0,
                g >= 0,
        ;
    }
}

/// A physics step keeps every cell of the column in bounds.
pub proof fn lemma_fall_column_wf(col: Seq<TileState>, dt: int, g: int)
    requires
        col_wf(col),
        0 <= dt <= MAX_TICK_MS,
        0 <= g <= 1_000_000,
    ensures
        col_wf(spec_fall_column(col, dt, g)),
        forall|i: int|
            0 <= i < col.len() && (#[trigger] spec_fall_column(col, dt, g)[i]) is Falling
                ==> spec_fall_column(col, dt, g)[i]->d > 0,
    decreases col.len(),
{
    if col.len() > 0 {
        let rest = spec_fall_column(col.drop_first(), dt, g);
        assert(col_wf(col.drop_first())) by {
            assert(forall|i: int|
                0 <= i < col.drop_first().len() ==> #[trigger] col.drop_first()[i] == col[i + 1]);
        }
        lemma_fall_column_wf(col.drop_first(), dt, g);
        lemma_fall_column_len(col.drop_first(), dt, g);
        let below = if rest.len() > 0 {
            Some(rest[0])
        } else {
            None
        };
        lemma_fall_cell_wf(col.first(), below, dt, g);
        let out = spec_fall_column(col, dt, g);
        assert forall|i: int| 0 <= i < out.len() implies (#[trigger] out[i]).wf() && (out[i] is Falling
            ==> out[i]->d > 0) by {
            if i > 0 {
                assert(out[i] == rest[i - 1]);
            } else {
                if col[0] is Falling {
                } else {
                    assert(out[0] == col[0]);
                }
            }
        }
    }
}

/// After a physics step, no falling tile rests below a falling tile with
/// less remaining travel: the clamp against the updated cell below enforces
/// the no-passing rule for every adjacent falling pair.
pub proof fn lemma_fall_no_passing(col: Seq<TileState>, dt: int, g: int)
    requires
        col_wf(col),
        0 <= dt <= MAX_TICK_MS,
        0 <= g <= 1_000_000,
    ensures
        forall|i: int|
            0 <= i < col.len() - 1 && (#[trigger] spec_fall_column(col, dt, g)[i]) is Falling
                && spec_fall_column(col, dt, g)[i + 1] is Falling ==> spec_fall_column(col, dt, g)[i]->d
                >= spec_fall_column(col, dt, g)[i + 1]->d,
    decreases col.len(),
{
    if col.len() > 0 {
        assert(col_wf(col.drop_first())) by {
            assert(forall|i: int|
                0 <= i < col.drop_first().len() ==> #[trigger] col.drop_first()[i] == col[i + 1]);
        }
        lemma_fall_no_passing(col.drop_first(), dt, g);
        let out = spec_fall_column(col, dt, g);
        let rest = spec_fall_column(col.drop_first(), dt, g);
        lemma_fall_column_len(col.drop_first(), dt, g);
        lemma_fall_column_wf(col.drop_first(), dt, g);
        assert forall|i: int|
            0 <= i < col.len() - 1 && (#[trigger] out[i]) is Falling && out[i + 1] is Falling
            implies out[i]->d >= out[i + 1]->d by {
            if i > 0 {
                assert(out[i] == rest[i - 1]);
                assert(out[i + 1] == rest[i]);
            } else {
                assert(out[0] == spec_fall_cell(col.first(), Some(rest[0]), dt, g));
                assert(out[1] == rest[0]);
                lemma_fall_cell_wf(col.first(), Some(rest[0]), dt, g);
            }
        }
    }
}

/// A physics step only moves falling tiles: a falling tile either keeps
/// falling or settles, keeping its color, and every other cell is untouched.
pub proof fn lemma_fall_kinds(col: Seq<TileState>, dt: int, g: int)
    ensures
        forall|i: int|
            0 <= i < col.len() && !((#[trigger] col[i]) is Falling) ==> spec_fall_column(
                col,
                dt,
                g,
            )[i] == col[i],
        forall|i: int|
            0 <= i < col.len() && (#[trigger] col[i]) is Falling ==> {
                let out = spec_fall_column(col, dt, g)[i];
                (out is Falling || out is Settled) && out.spec_color() == col[i].spec_color()
            },
    decreases col.len(),
{
    if col.len() > 0 {
        lemma_fall_kinds(col.drop_first(), dt, g);
        lemma_fall_column_len(col.drop_first(), dt, g);
        let out = spec_fall_column(col, dt, g);
        let rest = spec_fall_column(col.drop_first(), dt, g);
        assert(forall|i: int| 1 <= i < col.len() ==> #[trigger] out[i] == rest[i - 1]);
        assert(forall|i: int|
            1 <= i < col.len() ==> #[trigger] col[i] == col.drop_first()[i - 1]);
    }
}

/// In a column whose tiles all effectively rest on their targets, a physics
/// step leaves no tile falling: with nothing below to clamp against, a tile
/// out of travel settles.
proof fn lemma_fall_grounded(col: Seq<TileState>, dt: int, g: int)
    requires
        col_wf(col),
        0 <= dt <= MAX_TICK_MS,
        0 <= g <= 1_000_000,
        forall|i: int| 0 <= i < col.len() ==> effective_distance(#[trigger] col[i]) <= 0,
    ensures
        forall|i: int|
            0 <= i < col.len() ==> !((#[trigger] spec_fall_column(col, dt, g)[i]) is Falling),
    decreases col.len(),
{
    if col.len() > 0 {
        let rest_pre = col.drop_first();
        assert(forall|i: int| 0 <= i < rest_pre.len() ==> #[trigger] rest_pre[i] == col[i + 1]);
        lemma_fall_grounded(rest_pre, dt, g);
        lemma_fall_column_len(rest_pre, dt, g);
        let rest = spec_fall_column(rest_pre, dt, g);
        let out = spec_fall_column(col, dt, g);
        assert forall|i: int| 0 <= i < col.len() implies !((#[trigger] out[i]) is Falling) by {
            if i > 0 {
                assert(out[i] == rest[i - 1]);
            } else {
                if col[0] is Falling {
                    let d = col[0]->d;
                    let v = col[0]->v;
                    assert(d == 0);
                    assert(v * dt >= 0 && g * dt * dt >= 0) by (nonlinear_arith)
                        requires
                            v >= 0,
                            dt >= 0,
                            g >= 0,
                    ;
                } else {
                    assert(out[0] == col[0]);
                }
            }
        }
    }
}

/// In a column with no marked cells, a physics step preserves the stacking
/// invariant: among settled and falling tiles, effective distances never
/// increase downward before the step, and they do not afterward either.
#[verifier::rlimit(100)]
pub proof fn lemma_fall_preserves_stacking(col: Seq<TileState>, dt: int, g: int)
    requires
        col_wf(col),
        no_matched(col),
        col_stacked(col),
        0 <= dt <= MAX_TICK_MS,
        0 <= g <= 1_000_000,
    ensures
        col_stacked(spec_fall_column(col, dt, g)),
    decreases col.len(),
{
    if col.len() > 0 {
        let rest_pre = col.drop_first();
        assert(forall|i: int| 0 <= i < rest_pre.len() ==> #[trigger] rest_pre[i] == col[i + 1]);
        assert(col_stacked(rest_pre)) by {
            assert forall|i: int, j: int|
                0 <= i < j < rest_pre.len() && !(#[trigger] rest_pre[i]).is_matched() && !(
                #[trigger] rest_pre[j]).is_matched() implies effective_distance(rest_pre[i])
                >= effective_distance(rest_pre[j]) by {
                assert(rest_pre[i] == col[i + 1] && rest_pre[j] == col[j + 1]);
            }
        }
        lemma_fall_preserves_stacking(rest_pre, dt, g);
        lemma_fall_column_len(rest_pre, dt, g);
        lemma_fall_column_wf(rest_pre, dt, g);
        lemma_fall_kinds(rest_pre, dt, g);
        let rest = spec_fall_column(rest_pre, dt, g);
        let out = spec_fall_column(col, dt, g);
        let below = if rest.len() > 0 {
            Some(rest[0])
        } else {
            None
        };
        lemma_fall_cell_wf(col.first(), below, dt, g);
        assert forall|q: int| 0 <= q < rest.len() implies !(#[trigger] rest[q]).is_matched() by {
            if rest_pre[q] is Falling {
                assert(rest[q] is Falling || rest[q] is Settled);
            } else {
                assert(rest[q] == rest_pre[q]);
            }
        }
        assert(no_matched(rest));
        assert forall|i: int, j: int|
            0 <= i < j < out.len() && !(#[trigger] out[i]).is_matched() && !(
            #[trigger] out[j]).is_matched() implies effective_distance(out[i])
            >= effective_distance(out[j]) by {
            if i >= 1 {
                assert(out[i] == rest[i - 1] && out[j] == rest[j - 1]);
            } else {
                assert(out[0] == spec_fall_cell(col[0], below, dt, g));
                assert(out[j] == rest[j - 1]);
                if col[0] is Falling {
                    if rest[0] is Falling {
                        // clamped against the updated tile below, which by
                        // induction sits at least as far along as everything
                        // under it
                        assert(effective_distance(out[0]) >= effective_distance(rest[0]));
                        if j - 1 > 0 {
                            assert(effective_distance(rest[0]) >= effective_distance(rest[j - 1]));
                        }
                    } else {
                        // nothing below still falls, so everything below
                        // effectively rests at zero
                        assert(effective_distance(rest[0]) == 0);
                        if j - 1 > 0 {
                            assert(effective_distance(rest[0]) >= effective_distance(rest[j - 1]));
                        }
                        assert(effective_distance(rest[j - 1]) <= 0);
                        assert(effective_distance(out[j]) >= 0);
                        assert(effective_distance(out[0]) >= 0);
                    }
                } else {
                    // the top tile rests, so by the input invariant so does
                    // everything below it, and a grounded column stays put
                    assert(out[0] == col[0]);
                    assert(effective_distance(col[0]) == 0);
                    assert forall|q: int| 0 <= q < rest_pre.len() implies effective_distance(
                        #[trigger] rest_pre[q]) <= 0 by {
                        assert(rest_pre[q] == col[q + 1]);
                        assert(effective_distance(col[0]) >= effective_distance(col[q + 1]));
                    }
                    lemma_fall_grounded(rest_pre, dt, g);
                    assert(!(rest[j - 1] is Falling));
                }
            }
        }
    }
}

/// One physics step over a single column, bottom row first. Returns whether
/// any tile settled this tick, which is what schedules a match recheck.
#[verifier::rlimit(100)]
pub fn integrate_column(col: &mut Vec<TileState>, dt_ms: u32, gravity: i64) -> (settled: bool)
    requires
        col_wf(old(col)@),
        dt_ms <= MAX_TICK_MS,
        0 <= gravity <= 1_000_000,
    ensures
        final(col)@ == spec_fall_column(old(col)@, dt_ms as int, gravity as int),
        final(col)@.len() == old(col)@.len(),
        col_wf(final(col)@),
        settled == exists|q: int|
            0 <= q < old(col)@.len() && (#[trigger] old(col)@[q]) is Falling
                && final(col)@[q] is Settled,
{
    let ghost pre = col@;
    let ghost dt = dt_ms as int;
    let ghost g = gravity as int;
    let len = col.len();
    let mut settled = false;
    let mut i = len;
    while i > 0
        invariant
            col@.len() == len == pre.len(),
            i <= len,
            col_wf(pre),
            dt_ms <= MAX_TICK_MS,
            0 <= gravity <= 1_000_000,
            dt == dt_ms as int,
            g == gravity as int,
            forall|q: int| 0 <= q < i ==> #[trigger] col@[q] == pre[q],
            col@.subrange(i as int, len as int) == spec_fall_column(
                pre.subrange(i as int, len as int),
                dt,
                g,
            ),
            forall|q: int| i <= q < len ==> (#[trigger] col@[q]).wf(),
            settled == exists|q: int|
                i <= q < len && (#[trigger] pre[q]) is Falling && col@[q] is Settled,
        decreases i,
    {
        i = i - 1;
        let ghost col_before = col@;
        let cur = col[i];
        match cur {
            TileState::Falling { color, d, v } => {
                proof {
                    assert(pre[i as int].wf());
                }
                let vu: u64 = v as u64;
                let gu: u64 = gravity as u64;
                let du: u64 = dt_ms as u64;
                proof {
                    assert(vu * du <= 0x100_0000_0000u64 * 0xffffu64) by (nonlinear_arith)
                        requires
                            vu <= 0x100_0000_0000u64,
                            du <= 0xffffu64,
                    ;
                    assert(gu * du <= 1_000_000u64 * 0xffffu64 && gu * du * du <= 1_000_000u64
                        * 0xffffu64 * 0xffffu64) by (nonlinear_arith)
                        requires
                            gu <= 1_000_000u64,
                            du <= 0xffffu64,
                    ;
                }
                let fall: u64 = vu * du / 1000;
                let grav: u64 = gu * du * du / 2_000_000;
                let gv: u64 = gu * du / 1000;
                let mut nd: i64 = d - (fall as i64) - (grav as i64);
                let mut nv: i64 = if v + (gv as i64) > MAX_VELOCITY {
                    MAX_VELOCITY
                } else {
                    v + (gv as i64)
                };
                if i + 1 < len {
                    match col[i + 1] {
                        TileState::Falling { d: od, v: ov, .. } => {
                            if nd < od {
                                nd = od;
                            }
                            if nv > ov {
                                nv = ov;
                            }
                        },
                        _ => {},
                    }
                }
                if nd <= 0 {
                    col.set(i, TileState::Settled(color));
                    settled = true;
                } else {
                    col.set(i, TileState::Falling { color, d: nd, v: nv });
                }
            },
            _ => {},
        }
        proof {
            let tail = pre.subrange(i as int + 1, len as int);
            let full = pre.subrange(i as int, len as int);
            assert(full.drop_first() =~= tail);
            lemma_fall_column_len(tail, dt, g);
            let below = if i as int + 1 < len as int {
                Some(col_before[i as int + 1])
            } else {
                None
            };
            assert(col@[i as int] == spec_fall_cell(pre[i as int], below, dt, g));
            assert(col@.subrange(i as int, len as int) =~= seq![
                spec_fall_cell(full.first(), below, dt, g),
            ] + spec_fall_column(tail, dt, g));
        }
    }
    proof {
        assert(col@ =~= col@.subrange(0, len as int));
        assert(pre =~= pre.subrange(0, len as int));
    }
    settled
}

} // verus!
