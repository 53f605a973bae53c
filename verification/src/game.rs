//! The game loop state: the board, the one in-flight swap, and the
//! level-triggered recheck flag, advanced one tick at a time.

use vstd::prelude::*;

use crate::board::{Board, GameError};
use crate::tile::{Params, TileColor, TileState, MAX_TICK_MS};

verus! {

/// An in-progress swap animation: the two cells involved and the elapsed
/// animation time in milliseconds.
#[derive(Copy, Clone, Debug, PartialEq, Eq, Structural)]
pub struct SwapAnim {
    pub x1: usize,
    pub y1: usize,
    pub x2: usize,
    pub y2: usize,
    pub t_ms: u32,
}

/// The two cells are grid-adjacent: their Manhattan distance is exactly one.
pub open spec fn spec_adjacent(x1: int, y1: int, x2: int, y2: int) -> bool {
    ||| (x1 == x2 && (y1 == y2 + 1 || y2 == y1 + 1))
    ||| (y1 == y2 && (x1 == x2 + 1 || x2 == x1 + 1))
}

/// The grid and swap after reacting to one tick's gesture: a gesture on a
/// free board over two in-bounds, adjacent, settled cells puts both cells
/// mid-swap, each showing the other's color, and starts the animation
/// clock; any other gesture changes nothing.
pub open spec fn spec_gesture_step(
    g: Seq<Seq<TileState>>,
    swap: Option<SwapAnim>,
    params: Params,
    gesture: Option<(usize, usize, usize, usize)>,
) -> (Seq<Seq<TileState>>, Option<SwapAnim>) {
    match gesture {
        None => (g, swap),
        Some((x1, y1, x2, y2)) => {
            if swap is None && x1 < params.grid_w && y1 < params.grid_h && x2 < params.grid_w && y2
                < params.grid_h && spec_adjacent(x1 as int, y1 as int, x2 as int, y2 as int)
                && g[x1 as int][y1 as int] is Settled && g[x2 as int][y2 as int] is Settled {
                let c1 = g[x1 as int][y1 as int].spec_color();
                let c2 = g[x2 as int][y2 as int].spec_color();
                let ga = g.update(
                    x1 as int,
                    g[x1 as int].update(y1 as int, TileState::Swapping(c2)),
                );
                let gb = ga.update(
                    x2 as int,
                    ga[x2 as int].update(y2 as int, TileState::Swapping(c1)),
                );
                (gb, Some(SwapAnim { x1, y1, x2, y2, t_ms: 0 }))
            } else {
                (g, swap)
            }
        },
    }
}

/// The grid, swap and recheck flag after the swap animation advances by
/// `dt` milliseconds: past the swap duration both cells settle holding the
/// colors they were animating toward and a recheck is scheduled; otherwise
/// only the clock moves.
pub open spec fn spec_swap_step(
    g: Seq<Seq<TileState>>,
    swap: Option<SwapAnim>,
    recheck: bool,
    params: Params,
    dt: u32,
) -> (Seq<Seq<TileState>>, Option<SwapAnim>, bool) {
    match swap {
        None => (g, swap, recheck),
        Some(sw) => if sw.t_ms + dt > params.swap_time_ms {
            let c1 = g[sw.x1 as int][sw.y1 as int].spec_color();
            let c2 = g[sw.x2 as int][sw.y2 as int].spec_color();
            let ga = g.update(
                sw.x1 as int,
                g[sw.x1 as int].update(sw.y1 as int, TileState::Settled(c1)),
            );
            let gb = ga.update(
                sw.x2 as int,
                ga[sw.x2 as int].update(sw.y2 as int, TileState::Settled(c2)),
            );
            (gb, Option::<SwapAnim>::None, true)
        } else {
            (
                g,
                Some(SwapAnim { x1: sw.x1, y1: sw.y1, x2: sw.x2, y2: sw.y2, t_ms: (sw.t_ms + dt) as u32 }),
                recheck,
            )
        },
    }
}

/// Every column after one physics step of `dt` milliseconds.
pub open spec fn spec_fall_grid(g: Seq<Seq<TileState>>, params: Params, dt: u32) -> Seq<
    Seq<TileState>,
> {
    Seq::new(g.len(), |x: int| crate::physics::spec_fall_column(g[x], dt as int, params.gravity as int))
}

/// Whether some falling tile settles during one physics step of `dt`
/// milliseconds.
pub open spec fn spec_any_settles(g: Seq<Seq<TileState>>, params: Params, dt: u32) -> bool {
    exists|x: int, q: int|
        0 <= x < params.grid_w && 0 <= q < params.grid_h && (#[trigger] g[x][q]) is Falling
            && crate::physics::spec_fall_column(g[x], dt as int, params.gravity as int)[q] is Settled
}

/// A grid that pointwise equals `g` except for new values at two distinct
/// cells is exactly the two nested updates of `g`.
proof fn lemma_two_cell_update(
    g: Seq<Seq<TileState>>,
    gpost: Seq<Seq<TileState>>,
    w: int,
    h: int,
    x1: int,
    y1: int,
    x2: int,
    y2: int,
    v1: TileState,
    v2: TileState,
)
    requires
        g.len() == w,
        gpost.len() == w,
        forall|x: int| 0 <= x < w ==> (#[trigger] g[x]).len() == h,
        forall|x: int| 0 <= x < w ==> (#[trigger] gpost[x]).len() == h,
        0 <= x1 < w,
        0 <= y1 < h,
        0 <= x2 < w,
        0 <= y2 < h,
        !(x1 == x2 && y1 == y2),
        forall|x: int, y: int|
            0 <= x < w && 0 <= y < h ==> #[trigger] gpost[x][y] == (if x == x1 && y == y1 {
                v1
            } else if x == x2 && y == y2 {
                v2
            } else {
                g[x][y]
            }),
    ensures
        gpost == g.update(x1, g[x1].update(y1, v1)).update(
            x2,
            g.update(x1, g[x1].update(y1, v1))[x2].update(y2, v2),
        ),
{
    let ga = g.update(x1, g[x1].update(y1, v1));
    let gb = ga.update(x2, ga[x2].update(y2, v2));
    assert forall|x: int, y: int|
        0 <= x < w && 0 <= y < h implies #[trigger] gpost[x][y] == gb[x][y] by {}
    assert(gpost =~~= gb);
}


/// Chains the gesture, swap-animation and physics phases of one tick: from
/// the raw cell-level effects each phase guarantees, the final grid, swap
/// and recheck flag are exactly what the phase functions compute.
#[verifier::rlimit(100)]
proof fn tick_composition(
    params: Params,
    gesture: Option<(usize, usize, usize, usize)>,
    dt_ms: u32,
    g1: Seq<Seq<TileState>>,
    sw1: Option<SwapAnim>,
    g2: Seq<Seq<TileState>>,
    sw2: Option<SwapAnim>,
    g3: Seq<Seq<TileState>>,
    sw3: Option<SwapAnim>,
    rc3: bool,
    g4: Seq<Seq<TileState>>,
    sw4: Option<SwapAnim>,
    rc4: bool,
    settled: bool,
)
    requires
        g1.len() == params.grid_w,
        g2.len() == params.grid_w,
        g3.len() == params.grid_w,
        forall|x: int| 0 <= x < params.grid_w ==> (#[trigger] g1[x]).len() == params.grid_h,
        forall|x: int| 0 <= x < params.grid_w ==> (#[trigger] g2[x]).len() == params.grid_h,
        forall|x: int| 0 <= x < params.grid_w ==> (#[trigger] g3[x]).len() == params.grid_h,
        // what reacting to the gesture did
        match gesture {
            None => g2 == g1 && sw2 == sw1,
            Some((x1, y1, x2, y2)) => {
                if sw1 is None && x1 < params.grid_w && y1 < params.grid_h && x2 < params.grid_w
                    && y2 < params.grid_h && spec_adjacent(
                    x1 as int,
                    y1 as int,
                    x2 as int,
                    y2 as int,
                ) && g1[x1 as int][y1 as int] is Settled && g1[x2 as int][y2 as int] is Settled {
                    &&& sw2 == Some(SwapAnim { x1, y1, x2, y2, t_ms: 0 })
                    &&& forall|x: int, y: int|
                        0 <= x < params.grid_w && 0 <= y < params.grid_h ==> #[trigger] g2[x][y]
                            == (if x == x1 && y == y1 {
                            TileState::Swapping(g1[x2 as int][y2 as int].spec_color())
                        } else if x == x2 && y == y2 {
                            TileState::Swapping(g1[x1 as int][y1 as int].spec_color())
                        } else {
                            g1[x][y]
                        })
                } else {
                    g2 == g1 && sw2 == sw1
                }
            },
        },
        // what advancing the swap animation did
        match sw2 {
            None => g3 == g2 && sw3 == sw2 && rc3 == false,
            Some(sw) => {
                &&& sw.x1 < params.grid_w && sw.y1 < params.grid_h && sw.x2 < params.grid_w
                    && sw.y2 < params.grid_h
                &&& spec_adjacent(sw.x1 as int, sw.y1 as int, sw.x2 as int, sw.y2 as int)
                &&& if sw.t_ms + dt_ms > params.swap_time_ms {
                    &&& sw3 is None
                    &&& rc3
                    &&& forall|x: int, y: int|
                        0 <= x < params.grid_w && 0 <= y < params.grid_h ==> #[trigger] g3[x][y]
                            == (if x == sw.x1 && y == sw.y1 {
                            TileState::Settled(g2[sw.x1 as int][sw.y1 as int].spec_color())
                        } else if x == sw.x2 && y == sw.y2 {
                            TileState::Settled(g2[sw.x2 as int][sw.y2 as int].spec_color())
                        } else {
                            g2[x][y]
                        })
                } else {
                    &&& g3 == g2
                    &&& sw3 == Some(
                        SwapAnim {
                            x1: sw.x1,
                            y1: sw.y1,
                            x2: sw.x2,
                            y2: sw.y2,
                            t_ms: (sw.t_ms + dt_ms) as u32,
                        },
                    )
                    &&& rc3 == false
                }
            },
        },
        // what the physics step did
        g4.len() == params.grid_w,
        forall|x: int|
            0 <= x < params.grid_w ==> #[trigger] g4[x] == crate::physics::spec_fall_column(
                g3[x],
                dt_ms as int,
                params.gravity as int,
            ),
        settled == spec_any_settles(g3, params, dt_ms),
        sw4 == sw3,
        rc4 == (rc3 || settled),
    ensures
        ({
            let p2 = spec_gesture_step(g1, sw1, params, gesture);
            let p3 = spec_swap_step(p2.0, p2.1, false, params, dt_ms);
            &&& g4 == spec_fall_grid(p3.0, params, dt_ms)
            &&& sw4 == p3.1
            &&& rc4 == (p3.2 || spec_any_settles(p3.0, params, dt_ms))
        }),
{
    let w = params.grid_w as int;
    let h = params.grid_h as int;
    let p2 = spec_gesture_step(g1, sw1, params, gesture);
    assert(p2.0 == g2 && p2.1 == sw2) by {
        match gesture {
            None => {},
            Some((x1, y1, x2, y2)) => {
                if sw1 is None && x1 < params.grid_w && y1 < params.grid_h && x2 < params.grid_w
                    && y2 < params.grid_h && spec_adjacent(
                    x1 as int,
                    y1 as int,
                    x2 as int,
                    y2 as int,
                ) && g1[x1 as int][y1 as int] is Settled && g1[x2 as int][y2 as int] is Settled {
                    lemma_two_cell_update(
                        g1,
                        g2,
                        w,
                        h,
                        x1 as int,
                        y1 as int,
                        x2 as int,
                        y2 as int,
                        TileState::Swapping(g1[x2 as int][y2 as int].spec_color()),
                        TileState::Swapping(g1[x1 as int][y1 as int].spec_color()),
                    );
                }
            },
        }
    }
    let p3 = spec_swap_step(p2.0, p2.1, false, params, dt_ms);
    assert(p3.0 == g3 && p3.1 == sw3 && p3.2 == rc3) by {
        match sw2 {
            None => {},
            Some(sw) => {
                if sw.t_ms + dt_ms > params.swap_time_ms {
                    lemma_two_cell_update(
                        g2,
                        g3,
                        w,
                        h,
                        sw.x1 as int,
                        sw.y1 as int,
                        sw.x2 as int,
                        sw.y2 as int,
                        TileState::Settled(g2[sw.x1 as int][sw.y1 as int].spec_color()),
                        TileState::Settled(g2[sw.x2 as int][sw.y2 as int].spec_color()),
                    );
                }
            },
        }
    }
    assert(g4 == spec_fall_grid(p3.0, params, dt_ms)) by {
        assert(g4 =~~= spec_fall_grid(g3, params, dt_ms));
    }
}

/// The whole simulation state that the host loop drives.
pub struct Game {
    pub params: Params,
    pub board: Board,
    pub swap: Option<SwapAnim>,
    pub recheck: bool,
}

impl Game {
    /// The board's mathematical view.
    pub open spec fn grid(self) -> Seq<Seq<TileState>> {
        self.board.grid()
    }

    /// The in-flight swap is consistent with the board: its cells are in
    /// bounds, adjacent, mid-swap on the board, and no other cell is
    /// mid-swap; with no swap in flight, no cell is mid-swap at all.
    pub open spec fn swap_wf(self) -> bool {
        match self.swap {
            Some(sw) => {
                &&& sw.x1 < self.params.grid_w
                &&& sw.y1 < self.params.grid_h
                &&& sw.x2 < self.params.grid_w
                &&& sw.y2 < self.params.grid_h
                &&& spec_adjacent(sw.x1 as int, sw.y1 as int, sw.x2 as int, sw.y2 as int)
                &&& sw.t_ms <= self.params.swap_time_ms
                &&& self.grid()[sw.x1 as int][sw.y1 as int] is Swapping
                &&& self.grid()[sw.x2 as int][sw.y2 as int] is Swapping
                &&& forall|x: int, y: int|
                    0 <= x < self.params.grid_w && 0 <= y < self.params.grid_h && (
                    #[trigger] self.grid()[x][y]) is Swapping ==> ((x == sw.x1 && y == sw.y1) || (x
                        == sw.x2 && y == sw.y2))
            },
            None => forall|x: int, y: int|
                0 <= x < self.params.grid_w && 0 <= y < self.params.grid_h ==> !((
                #[trigger] self.grid()[x][y]) is Swapping),
        }
    }

    /// The invariant that every tick preserves: valid tunables, a full
    /// rectangular grid of in-bounds tiles, no cell left marked for
    /// clearing between ticks, and a consistent swap.
    pub open spec fn wf(self) -> bool {
        &&& self.params.wf()
        &&& self.board.wf_dims(self.params.grid_w as int, self.params.grid_h as int)
        &&& forall|x: int, y: int|
            0 <= x < self.params.grid_w && 0 <= y < self.params.grid_h ==> (
            #[trigger] self.grid()[x][y]).wf()
        &&& forall|x: int, y: int|
            0 <= x < self.params.grid_w && 0 <= y < self.params.grid_h ==> !(
            #[trigger] self.grid()[x][y]).is_matched()
        &&& self.swap_wf()
    }

    /// Every column of the board satisfies the stacking invariant: no tile
    /// effectively rests below a tile with less remaining travel.
    pub open spec fn stacked(self) -> bool {
        forall|x: int|
            0 <= x < self.params.grid_w ==> crate::dropper::col_stacked(#[trigger] self.grid()[x])
    }

    /// A fresh game: the patterned starting board, no swap in flight, no
    /// recheck pending.
    pub fn new(params: Params) -> (g: Game)
        requires
            params.wf(),
        ensures
            g.wf(),
            g.stacked(),
            g.params == params,
            g.swap is None,
            !g.recheck,
            forall|x: int, y: int|
                0 <= x < params.grid_w && 0 <= y < params.grid_h ==> #[trigger] g.grid()[x][y]
                    == TileState::Settled(
                    crate::tile::spec_color_from_index((((x * 3) + y) % 7) as u32),
                ),
    {
        let board = Board::new_patterned(&params);
        let g = Game { params, board, swap: None, recheck: false };
        proof {
            assert forall|x: int|
                0 <= x < params.grid_w implies crate::dropper::col_stacked(
                #[trigger] g.grid()[x]) by {
                assert forall|i: int, j: int|
                    0 <= i < j < g.grid()[x].len() && !(#[trigger] g.grid()[x][i]).is_matched()
                        && !(#[trigger] g.grid()[x][j]).is_matched() implies
                    crate::dropper::effective_distance(g.grid()[x][i])
                        >= crate::dropper::effective_distance(g.grid()[x][j]) by {
                    assert(g.grid()[x][i] is Settled);
                    assert(g.grid()[x][j] is Settled);
                }
            }
        }
        g
    }

    /// The renderer snapshot of one cell: its color and how many
    /// milli-pixels above its grid position it must be drawn, for the tiles
    /// the grid draws directly; mid-swap cells are drawn by the swap
    /// overlay instead and marked cells never survive to a draw.
    pub fn cell_sprite(&self, x: usize, y: usize) -> (r: Result<
        Option<(TileColor, i64)>,
        GameError,
    >)
        ensures
            (x < self.grid().len() && y < self.grid()[x as int].len()) ==> r == Ok::<
                Option<(TileColor, i64)>,
                GameError,
            >(
                match self.grid()[x as int][y as int] {
                    TileState::Settled(c) => Some((c, 0)),
                    TileState::Falling { color, d, .. } => Some((color, d)),
                    _ => None,
                },
            ),
            !(x < self.grid().len() && y < self.grid()[x as int].len()) ==> r == Err::<
                Option<(TileColor, i64)>,
                GameError,
            >(GameError::OutOfBounds),
    {
        match self.board.get(x, y) {
            Ok(TileState::Settled(c)) => Ok(Some((c, 0))),
            Ok(TileState::Falling { color, d, .. }) => Ok(Some((color, d))),
            Ok(_) => Ok(None),
            Err(e) => Err(e),
        }
    }

    /// The conditions under which a swap gesture is accepted: no swap in
    /// flight, both cells in bounds and adjacent, and both tiles at rest.
    pub open spec fn can_swap(self, x1: int, y1: int, x2: int, y2: int) -> bool {
        &&& self.swap is None
        &&& 0 <= x1 < self.params.grid_w
        &&& 0 <= y1 < self.params.grid_h
        &&& 0 <= x2 < self.params.grid_w
        &&& 0 <= y2 < self.params.grid_h
        &&& spec_adjacent(x1, y1, x2, y2)
        &&& self.grid()[x1][y1] is Settled
        &&& self.grid()[x2][y2] is Settled
    }

    /// Reacts to a swap gesture. A gesture is accepted only when no swap is
    /// already in flight, both cells are in bounds and adjacent, and both
    /// tiles are at rest; any other gesture is ignored without any state
    /// change. An accepted gesture puts both cells mid-swap, each showing
    /// the other's color, and starts the animation clock at zero.
    pub fn try_start_swap(&mut self, x1: usize, y1: usize, x2: usize, y2: usize) -> (started: bool)
        requires
            old(self).wf(),
        ensures
            final(self).wf(),
            started == old(self).can_swap(x1 as int, y1 as int, x2 as int, y2 as int),
            old(self).stacked() ==> final(self).stacked(),
            !started ==> *final(self) == *old(self),
            old(self).swap is Some ==> *final(self) == *old(self),
            started ==> {
                &&& final(self).params == old(self).params
                &&& final(self).recheck == old(self).recheck
                &&& final(self).swap == Some(
                    SwapAnim { x1, y1, x2, y2, t_ms: 0 },
                )
                &&& forall|x: int, y: int|
                    0 <= x < old(self).params.grid_w && 0 <= y < old(self).params.grid_h ==> (
                    #[trigger] final(self).grid()[x][y]) == if x == x1 && y == y1 {
                        TileState::Swapping(old(self).grid()[x2 as int][y2 as int].spec_color())
                    } else if x == x2 && y == y2 {
                        TileState::Swapping(old(self).grid()[x1 as int][y1 as int].spec_color())
                    } else {
                        old(self).grid()[x][y]
                    }
            },
    {
        if self.swap.is_some() {
            return false;
        }
        let w = self.params.grid_w;
        let h = self.params.grid_h;
        if !(x1 < w && y1 < h && x2 < w && y2 < h) {
            return false;
        }
        let adjacent = (x1 == x2 && (y1 + 1 == y2 || y2 + 1 == y1)) || (y1 == y2 && (x1 + 1 == x2
            || x2 + 1 == x1));
        if !adjacent {
            return false;
        }
        let s1 = self.board.cols[x1][y1];
        let s2 = self.board.cols[x2][y2];
        match (s1, s2) {
            (TileState::Settled(c1), TileState::Settled(c2)) => {
                let r1 = self.board.set(x1, y1, TileState::Swapping(c2));
                let r2 = self.board.set(x2, y2, TileState::Swapping(c1));
                proof {
                    assert(r1 is Ok && r2 is Ok);
                }
                self.swap = Some(SwapAnim { x1, y1, x2, y2, t_ms: 0 });
                proof {
                    if old(self).stacked() {
                        assert forall|x: int|
                            0 <= x < self.params.grid_w implies crate::dropper::col_stacked(
                            #[trigger] self.grid()[x]) by {
                            assert forall|y: int|
                                0 <= y < self.grid()[x].len() implies
                                crate::dropper::effective_distance(#[trigger] self.grid()[x][y])
                                    == crate::dropper::effective_distance(old(self).grid()[x][y])
                                    && self.grid()[x][y].is_matched() == old(
                                self,
                            ).grid()[x][y].is_matched() by {}
                            crate::dropper::lemma_stacked_eff_equal(
                                old(self).grid()[x],
                                self.grid()[x],
                            );
                        }
                    }
                }
                true
            },
            _ => false,
        }
    }

    /// Advances the swap animation clock by one tick. With no swap in
    /// flight this does nothing. When the elapsed time passes the swap
    /// duration, both cells settle holding the colors they were animating
    /// toward — the colors end up exchanged relative to the moment the
    /// gesture was accepted — the swap is destroyed, and a match recheck is
    /// scheduled.
    pub fn step_swap(&mut self, dt_ms: u32)
        requires
            old(self).wf(),
            dt_ms <= MAX_TICK_MS,
        ensures
            final(self).wf(),
            final(self).params == old(self).params,
            old(self).stacked() ==> final(self).stacked(),
            old(self).swap is None ==> *final(self) == *old(self),
            old(self).swap matches Some(sw) ==> sw.t_ms + dt_ms <= old(self).params.swap_time_ms
                ==> {
                &&& final(self).swap == Some(
                    SwapAnim {
                        x1: sw.x1,
                        y1: sw.y1,
                        x2: sw.x2,
                        y2: sw.y2,
                        t_ms: (sw.t_ms + dt_ms) as u32,
                    },
                )
                &&& final(self).grid() == old(self).grid()
                &&& final(self).recheck == old(self).recheck
            },
            old(self).swap matches Some(sw) ==> sw.t_ms + dt_ms > old(self).params.swap_time_ms
                ==> {
                &&& final(self).swap is None
                &&& final(self).recheck
                &&& forall|x: int, y: int|
                    0 <= x < old(self).params.grid_w && 0 <= y < old(self).params.grid_h ==> (
                    #[trigger] final(self).grid()[x][y]) == if x == sw.x1 && y == sw.y1 {
                        TileState::Settled(old(self).grid()[sw.x1 as int][sw.y1 as int].spec_color())
                    } else if x == sw.x2 && y == sw.y2 {
                        TileState::Settled(old(self).grid()[sw.x2 as int][sw.y2 as int].spec_color())
                    } else {
                        old(self).grid()[x][y]
                    }
            },
    {
        match self.swap {
            None => {},
            Some(sw) => {
                let t1 = sw.t_ms + dt_ms;
                if t1 > self.params.swap_time_ms {
                    let s1 = self.board.cols[sw.x1][sw.y1];
                    let s2 = self.board.cols[sw.x2][sw.y2];
                    match (s1, s2) {
                        (TileState::Swapping(c1), TileState::Swapping(c2)) => {
                            let r1 = self.board.set(sw.x1, sw.y1, TileState::Settled(c1));
                            let r2 = self.board.set(sw.x2, sw.y2, TileState::Settled(c2));
                            proof {
                                assert(r1 is Ok && r2 is Ok);
                            }
                            self.swap = None;
                            self.recheck = true;
                            proof {
                                if old(self).stacked() {
                                    assert forall|x: int|
                                        0 <= x < self.params.grid_w implies crate::dropper::col_stacked(
                                        #[trigger] self.grid()[x]) by {
                                        assert forall|y: int|
                                            0 <= y < self.grid()[x].len() implies
                                            crate::dropper::effective_distance(
                                                #[trigger] self.grid()[x][y],
                                            ) == crate::dropper::effective_distance(
                                                old(self).grid()[x][y],
                                            ) && self.grid()[x][y].is_matched() == old(
                                            self,
                                        ).grid()[x][y].is_matched() by {}
                                        crate::dropper::lemma_stacked_eff_equal(
                                            old(self).grid()[x],
                                            self.grid()[x],
                                        );
                                    }
                                }
                            }
                        },
                        _ => {
                            proof {
                                assert(false);
                            }
                        },
                    }
                } else {
                    self.swap = Some(
                        SwapAnim { x1: sw.x1, y1: sw.y1, x2: sw.x2, y2: sw.y2, t_ms: t1 },
                    );
                    proof {
                        assert(self.grid() =~= old(self).grid());
                    }
                }
            },
        }
    }

    /// One physics step over the whole board, column by column, each column
    /// processed from its bottom row upward. Returns whether any tile
    /// settled this tick.
    pub fn integrate_falls(&mut self, dt_ms: u32) -> (settled: bool)
        requires
            old(self).wf(),
            dt_ms <= MAX_TICK_MS,
        ensures
            final(self).wf(),
            final(self).params == old(self).params,
            final(self).swap == old(self).swap,
            final(self).recheck == old(self).recheck,
            forall|x: int|
                0 <= x < old(self).params.grid_w ==> #[trigger] final(self).grid()[x]
                    == crate::physics::spec_fall_column(
                    old(self).grid()[x],
                    dt_ms as int,
                    old(self).params.gravity as int,
                ),
            old(self).stacked() ==> final(self).stacked(),
            settled == exists|x: int, q: int|
                0 <= x < old(self).params.grid_w && 0 <= q < old(self).params.grid_h && (
                #[trigger] old(self).grid()[x][q]) is Falling && crate::physics::spec_fall_column(
                    old(self).grid()[x],
                    dt_ms as int,
                    old(self).params.gravity as int,
                )[q] is Settled,
    {
        let ghost g0 = self.board.grid();
        let ghost dt = dt_ms as int;
        let ghost grav = self.params.gravity as int;
        let w = self.params.grid_w;
        let h = self.params.grid_h;
        let mut settled = false;
        let mut x: usize = 0;
        while x < w
            invariant
                old(self).wf(),
                self.params == old(self).params,
                self.swap == old(self).swap,
                self.recheck == old(self).recheck,
                g0 == old(self).grid(),
                dt == dt_ms as int,
                dt_ms <= MAX_TICK_MS,
                grav == self.params.gravity as int,
                w == self.params.grid_w,
                h == self.params.grid_h,
                x <= w,
                self.board.wf_dims(w as int, h as int),
                forall|xx: int|
                    0 <= xx < x ==> #[trigger] self.grid()[xx] == crate::physics::spec_fall_column(
                        g0[xx],
                        dt,
                        grav,
                    ),
                forall|xx: int| x <= xx < w ==> #[trigger] self.grid()[xx] == g0[xx],
                settled == exists|xx: int, q: int|
                    0 <= xx < x && 0 <= q < h && (#[trigger] g0[xx][q]) is Falling
                        && crate::physics::spec_fall_column(g0[xx], dt, grav)[q] is Settled,
            decreases w - x,
        {
            let ghost cols_before = self.board.cols@;
            let ghost gprev = self.grid();
            proof {
                assert(gprev[x as int] == cols_before[x as int]@);
            }
            let mut c = self.board.cols.remove(x);
            proof {
                assert(c@ == g0[x as int]);
                assert(crate::dropper::col_wf(c@));
            }
            let s = crate::physics::integrate_column(&mut c, dt_ms, self.params.gravity);
            self.board.cols.insert(x, c);
            proof {
                assert(self.board.cols@ =~= cols_before.update(x as int, c));
                assert(self.grid()[x as int] == c@);
                assert forall|xx: int| 0 <= xx < w && xx != x as int implies #[trigger] self.grid()[xx]
                    == gprev[xx] by {
                    assert(self.board.cols@[xx] == cols_before[xx]);
                    assert(self.grid()[xx] == self.board.cols@[xx]@);
                    assert(gprev[xx] == cols_before[xx]@);
                }
            }
            let ghost xi = x as int;
            proof {
                assert(c@ == crate::physics::spec_fall_column(g0[xi], dt, grav));
            }
            if s {
                settled = true;
            }
            proof {
                if settled {
                    if s {
                        let q = choose|q: int|
                            0 <= q < g0[xi].len() && (#[trigger] g0[xi][q]) is Falling
                                && c@[q] is Settled;
                        assert(0 <= q < h && g0[xi][q] is Falling && crate::physics::spec_fall_column(
                            g0[xi],
                            dt,
                            grav,
                        )[q] is Settled);
                    } else {
                        let (xx, q) = choose|xx: int, q: int|
                            0 <= xx < xi && 0 <= q < h && (#[trigger] g0[xx][q]) is Falling
                                && crate::physics::spec_fall_column(g0[xx], dt, grav)[q] is Settled;
                        assert(0 <= xx < xi + 1 && 0 <= q < h && g0[xx][q] is Falling
                            && crate::physics::spec_fall_column(g0[xx], dt, grav)[q] is Settled);
                    }
                } else {
                    assert forall|xx: int, q: int|
                        0 <= xx < xi + 1 && 0 <= q < h implies !((#[trigger] g0[xx][q]) is Falling
                        && crate::physics::spec_fall_column(g0[xx], dt, grav)[q] is Settled) by {
                        if xx == xi {
                            assert(crate::physics::spec_fall_column(g0[xx], dt, grav) == c@);
                        }
                    }
                }
            }
            x = x + 1;
        }
        proof {
            let gend = self.grid();
            assert forall|xx: int, y: int|
                0 <= xx < w && 0 <= y < h implies (#[trigger] gend[xx][y]).wf() && !gend[xx][y].is_matched()
                && (gend[xx][y] is Swapping <==> g0[xx][y] is Swapping) && (gend[xx][y] is Swapping
                ==> gend[xx][y] == g0[xx][y]) by {
                crate::physics::lemma_fall_kinds(g0[xx], dt, grav);
                crate::physics::lemma_fall_column_wf(g0[xx], dt, grav);
                crate::physics::lemma_fall_column_len(g0[xx], dt, grav);
                assert(gend[xx] == crate::physics::spec_fall_column(g0[xx], dt, grav));
            }
            if old(self).stacked() {
                assert forall|xx: int|
                    0 <= xx < w implies crate::dropper::col_stacked(#[trigger] gend[xx]) by {
                    assert(crate::dropper::col_wf(g0[xx])) by {
                        assert(forall|y: int|
                            0 <= y < g0[xx].len() ==> (#[trigger] g0[xx][y]).wf());
                    }
                    assert(crate::dropper::no_matched(g0[xx])) by {
                        assert(forall|y: int|
                            0 <= y < g0[xx].len() ==> !(#[trigger] g0[xx][y]).is_matched());
                    }
                    crate::physics::lemma_fall_preserves_stacking(g0[xx], dt, grav);
                    assert(gend[xx] == crate::physics::spec_fall_column(g0[xx], dt, grav));
                }
            }
        }
        settled
    }

    /// Whether a resolution pass cancels the in-flight swap: after marking,
    /// one of the swap's two columns holds a cell about to be compacted, so
    /// the mid-swap tiles cannot stay where they are.
    pub open spec fn spec_swap_cancelled(self) -> bool {
        match self.swap {
            Some(sw) => {
                let gr = crate::matcher::resolve_spec(self.grid());
                crate::dropper::count_matched(gr[sw.x1 as int], 0, self.params.grid_h as int) > 0
                    || crate::dropper::count_matched(
                    gr[sw.x2 as int],
                    0,
                    self.params.grid_h as int,
                ) > 0
            },
            None => false,
        }
    }

    /// The board after a resolution pass has marked its runs and, when that
    /// cancels the in-flight swap, both swap cells have settled back to
    /// their pre-swap colors.
    pub open spec fn spec_marked_grid(self) -> Seq<Seq<TileState>> {
        let gr = crate::matcher::resolve_spec(self.grid());
        match self.swap {
            Some(sw) => if self.spec_swap_cancelled() {
                let c1 = gr[sw.x1 as int][sw.y1 as int].spec_color();
                let c2 = gr[sw.x2 as int][sw.y2 as int].spec_color();
                let ga = gr.update(
                    sw.x1 as int,
                    gr[sw.x1 as int].update(sw.y1 as int, TileState::Settled(c2)),
                );
                ga.update(
                    sw.x2 as int,
                    ga[sw.x2 as int].update(sw.y2 as int, TileState::Settled(c1)),
                )
            } else {
                gr
            },
            None => gr,
        }
    }

    /// One resolution pass: marks every run of three or more, then lets
    /// every column with marked cells compact and refill. A swap whose
    /// columns are about to be compacted is cancelled first — both cells
    /// settle back to their original colors — so no mid-swap tile is ever
    /// moved. Returns whether any run was found; when none is, the whole
    /// state is left exactly as it was.
    #[verifier::rlimit(100)]
    pub fn resolve_and_drop(&mut self) -> (found: bool)
        requires
            old(self).wf(),
        ensures
            final(self).wf(),
            final(self).params == old(self).params,
            final(self).recheck == old(self).recheck,
            found == crate::matcher::any_covered(old(self).grid()),
            old(self).stacked() ==> final(self).stacked(),
            !found ==> final(self).grid() == old(self).grid() && final(self).swap == old(
                self,
            ).swap,
            found ==> final(self).swap == (if old(self).spec_swap_cancelled() {
                Option::<SwapAnim>::None
            } else {
                old(self).swap
            }),
            found ==> forall|xx: int|
                0 <= xx < old(self).params.grid_w ==> {
                    let pre = old(self).spec_marked_grid()[xx];
                    if crate::dropper::count_matched(pre, 0, old(self).params.grid_h as int) == 0 {
                        (#[trigger] final(self).grid()[xx]) == pre
                    } else {
                        crate::dropper::drop_post(
                            pre,
                            final(self).grid()[xx],
                            old(self).params.tile_h as int,
                            old(self).params.color_range,
                        )
                    }
                },
    {
        let ghost g0 = self.board.grid();
        let w = self.params.grid_w;
        let h = self.params.grid_h;
        let found = crate::matcher::resolve_matches(&mut self.board, &self.params);
        proof {
            if !found {
                assert forall|x: int, y: int| 0 <= x < w && 0 <= y < h implies #[trigger] self.grid()[x][y]
                    == g0[x][y] by {
                    assert(!crate::matcher::cell_covered(g0, x, y));
                }
                assert(self.grid() =~~= g0);
            }
        }
        if !found {
            return false;
        }
        let ghost gr = self.board.grid();
        proof {
            // Marked cells are well formed and marking touches no mid-swap
            // cell.
            assert forall|x: int, y: int| 0 <= x < w && 0 <= y < h implies (#[trigger] self.grid()[x][y]).wf()
                && (self.grid()[x][y] is Swapping <==> g0[x][y] is Swapping) && (self.grid()[x][y] is Swapping
                ==> self.grid()[x][y] == g0[x][y]) by {
                if crate::matcher::cell_covered(g0, x, y) {
                    crate::matcher::lemma_covered_matchable(g0, x, y);
                }
            }
        }
        // Cancel the swap if either of its columns is about to be
        // compacted: a mid-swap tile can neither move nor carry new tiles.
        match self.swap {
            Some(sw) => {
                proof {
                    assert(self.board.cols@[sw.x1 as int]@ == self.grid()[sw.x1 as int]);
                    assert(self.board.cols@[sw.x2 as int]@ == self.grid()[sw.x2 as int]);
                }
                let m1 = crate::dropper::count_matched_tiles(&self.board.cols[sw.x1]);
                let m2 = crate::dropper::count_matched_tiles(&self.board.cols[sw.x2]);
                if m1 > 0 || m2 > 0 {
                    let s1 = self.board.cols[sw.x1][sw.y1];
                    let s2 = self.board.cols[sw.x2][sw.y2];
                    match (s1, s2) {
                        (TileState::Swapping(c1), TileState::Swapping(c2)) => {
                            let r1 = self.board.set(sw.x1, sw.y1, TileState::Settled(c2));
                            let r2 = self.board.set(sw.x2, sw.y2, TileState::Settled(c1));
                            proof {
                                assert(r1 is Ok && r2 is Ok);
                            }
                            self.swap = None;
                        },
                        _ => {
                            proof {
                                assert(false);
                            }
                        },
                    }
                }
            },
            None => {},
        }
        let ghost g1 = self.board.grid();
        let ghost swap1 = self.swap;
        proof {
            assert(g1 =~~= old(self).spec_marked_grid());
            assert forall|x: int, y: int| 0 <= x < w && 0 <= y < h implies (
            #[trigger] g1[x][y]).wf() by {}
            // cancelling only turns mid-swap cells into settled ones, so
            // every cell keeps its effective distance
            assert forall|xx: int|
                0 <= xx < w && crate::dropper::col_stacked(gr[xx]) implies crate::dropper::col_stacked(
                #[trigger] g1[xx]) by {
                assert forall|y: int|
                    0 <= y < g1[xx].len() implies crate::dropper::effective_distance(
                    #[trigger] g1[xx][y]) == crate::dropper::effective_distance(gr[xx][y])
                    && g1[xx][y].is_matched() == gr[xx][y].is_matched() by {}
                crate::dropper::lemma_stacked_eff_equal(gr[xx], g1[xx]);
            }
        }
        // Compact and refill every column that has marked cells.
        let mut x: usize = 0;
        while x < w
            invariant
                old(self).wf(),
                w == self.params.grid_w,
                h == self.params.grid_h,
                self.params == old(self).params,
                self.recheck == old(self).recheck,
                self.swap == swap1,
                swap1 == old(self).swap || swap1 is None,
                x <= w,
                self.board.wf_dims(w as int, h as int),
                g1.len() == w,
                forall|xx: int| 0 <= xx < w ==> (#[trigger] g1[xx]).len() == h,
                forall|xx: int, y: int| 0 <= xx < w && 0 <= y < h ==> (#[trigger] g1[xx][y]).wf(),
                swap1 matches Some(sw) ==> {
                    &&& sw.x1 < w && sw.y1 < h && sw.x2 < w && sw.y2 < h
                    &&& spec_adjacent(sw.x1 as int, sw.y1 as int, sw.x2 as int, sw.y2 as int)
                    &&& sw.t_ms <= self.params.swap_time_ms
                    &&& g1[sw.x1 as int][sw.y1 as int] is Swapping
                    &&& g1[sw.x2 as int][sw.y2 as int] is Swapping
                    &&& crate::dropper::count_matched(g1[sw.x1 as int], 0, h as int) == 0
                    &&& crate::dropper::count_matched(g1[sw.x2 as int], 0, h as int) == 0
                    &&& forall|xx: int, y: int|
                        0 <= xx < w && 0 <= y < h && (#[trigger] g1[xx][y]) is Swapping ==> ((xx
                            == sw.x1 && y == sw.y1) || (xx == sw.x2 && y == sw.y2))
                },
                swap1 is None ==> forall|xx: int, y: int|
                    0 <= xx < w && 0 <= y < h ==> !((#[trigger] g1[xx][y]) is Swapping),
                forall|xx: int| x <= xx < w ==> #[trigger] self.grid()[xx] == g1[xx],
                forall|xx: int|
                    0 <= xx < x && crate::dropper::count_matched(g1[xx], 0, h as int) == 0
                        ==> #[trigger] self.grid()[xx] == g1[xx],
                forall|xx: int|
                    0 <= xx < x && crate::dropper::count_matched(g1[xx], 0, h as int) > 0 ==> {
                        &&& crate::dropper::no_matched(#[trigger] self.grid()[xx])
                        &&& crate::dropper::no_swapping(self.grid()[xx])
                        &&& crate::dropper::col_wf(self.grid()[xx])
                        &&& self.grid()[xx].len() == h
                    },
                forall|xx: int|
                    0 <= xx < x && crate::dropper::count_matched(g1[xx], 0, h as int) > 0
                        ==> crate::dropper::drop_post(
                        g1[xx],
                        #[trigger] self.grid()[xx],
                        self.params.tile_h as int,
                        self.params.color_range,
                    ),
                forall|xx: int|
                    0 <= xx < x && crate::dropper::col_stacked(g1[xx])
                        ==> crate::dropper::col_stacked(#[trigger] self.grid()[xx]),
            decreases w - x,
        {
            proof {
                assert(self.board.cols@[x as int]@ == self.grid()[x as int]);
            }
            let m = crate::dropper::count_matched_tiles(&self.board.cols[x]);
            if m > 0 {
                proof {
                    // a column about to be compacted holds no mid-swap tile
                    assert(crate::dropper::no_swapping(g1[x as int])) by {
                        assert forall|y: int| 0 <= y < h implies !((#[trigger] g1[x as int][y]) is Swapping) by {
                            if g1[x as int][y] is Swapping {
                                assert(swap1 is Some);
                            }
                        }
                    }
                }
                let ghost cols_before = self.board.cols@;
                let ghost gprev = self.grid();
                let mut c = self.board.cols.remove(x);
                proof {
                    assert(c@ == g1[x as int]);
                    crate::dropper::lemma_count_bounds(c@, 0, c@.len() as int);
                }
                crate::dropper::drop_column(&mut c, self.params.tile_h, self.params.color_range);
                self.board.cols.insert(x, c);
                proof {
                    assert(self.board.cols@ =~= cols_before.update(x as int, c));
                    assert(self.grid()[x as int] == c@);
                    assert forall|xx: int| 0 <= xx < w && xx != x as int implies #[trigger] self.grid()[xx]
                        == gprev[xx] by {
                        assert(self.board.cols@[xx] == cols_before[xx]);
                        assert(self.grid()[xx] == self.board.cols@[xx]@);
                        assert(gprev[xx] == cols_before[xx]@);
                    }
                }
            }
            x = x + 1;
        }
        proof {
            assert forall|xx: int, y: int| 0 <= xx < w && 0 <= y < h implies (
            #[trigger] self.grid()[xx][y]).wf() && !self.grid()[xx][y].is_matched() by {
                let cm = crate::dropper::count_matched(g1[xx], 0, h as int);
                crate::dropper::lemma_count_bounds(g1[xx], 0, h as int);
                if cm == 0 {
                    crate::dropper::lemma_count_zero(g1[xx], 0, h as int);
                    assert(self.grid()[xx] == g1[xx]);
                } else {
                    assert(crate::dropper::no_matched(self.grid()[xx]));
                }
            }
            if old(self).stacked() {
                assert forall|x: int|
                    0 <= x < w implies crate::dropper::col_stacked(#[trigger] self.grid()[x]) by {
                    assert(crate::dropper::col_stacked(g0[x]));
                    crate::matcher::lemma_resolve_preserves_stacking(g0, x);
                    assert(crate::dropper::col_stacked(gr[x]));
                    assert(crate::dropper::col_stacked(g1[x]));
                }
            }
            match swap1 {
                Some(sw) => {
                    assert(self.grid()[sw.x1 as int] == g1[sw.x1 as int]);
                    assert(self.grid()[sw.x2 as int] == g1[sw.x2 as int]);
                    assert forall|xx: int, y: int|
                        0 <= xx < w && 0 <= y < h && (#[trigger] self.grid()[xx][y]) is Swapping
                        implies ((xx == sw.x1 as int && y == sw.y1 as int) || (xx == sw.x2 as int
                        && y == sw.y2 as int)) by {
                        let cm = crate::dropper::count_matched(g1[xx], 0, h as int);
                        crate::dropper::lemma_count_bounds(g1[xx], 0, h as int);
                        if cm == 0 {
                            assert(self.grid()[xx] == g1[xx]);
                        } else {
                            assert(crate::dropper::no_swapping(self.grid()[xx]));
                        }
                    }
                },
                None => {
                    assert forall|xx: int, y: int| 0 <= xx < w && 0 <= y < h implies !((
                    #[trigger] self.grid()[xx][y]) is Swapping) by {
                        let cm = crate::dropper::count_matched(g1[xx], 0, h as int);
                        crate::dropper::lemma_count_bounds(g1[xx], 0, h as int);
                        if cm == 0 {
                            assert(self.grid()[xx] == g1[xx]);
                        } else {
                            assert(crate::dropper::no_swapping(self.grid()[xx]));
                        }
                    }
                },
            }
            assert(g1 == old(self).spec_marked_grid());
            assert forall|xx: int| 0 <= xx < w implies ({
                if crate::dropper::count_matched(
                    old(self).spec_marked_grid()[xx],
                    0,
                    old(self).params.grid_h as int,
                ) == 0 {
                    (#[trigger] self.grid()[xx]) == old(self).spec_marked_grid()[xx]
                } else {
                    crate::dropper::drop_post(
                        old(self).spec_marked_grid()[xx],
                        self.grid()[xx],
                        old(self).params.tile_h as int,
                        old(self).params.color_range,
                    )
                }
            }) by {
                assert(old(self).spec_marked_grid()[xx] == g1[xx]);
                let cm = crate::dropper::count_matched(g1[xx], 0, h as int);
                crate::dropper::lemma_count_bounds(g1[xx], 0, h as int);
                if cm == 0 {
                    assert(self.grid()[xx] == g1[xx]);
                } else {
                    assert(crate::dropper::drop_post(
                        g1[xx],
                        self.grid()[xx],
                        self.params.tile_h as int,
                        self.params.color_range,
                    ));
                }
            }
        }
        true
    }

    /// Relates the pre-tick state to the grid and swap left by the tick's
    /// resolution phase: when a recheck is pending and runs exist, they are
    /// what one `resolve_and_drop` pass promises; otherwise nothing changes.
    pub open spec fn spec_resolve_phase(
        self,
        g1: Seq<Seq<TileState>>,
        sw1: Option<SwapAnim>,
    ) -> bool {
        if self.recheck && crate::matcher::any_covered(self.grid()) {
            &&& g1.len() == self.params.grid_w
            &&& sw1 == (if self.spec_swap_cancelled() {
                Option::<SwapAnim>::None
            } else {
                self.swap
            })
            &&& forall|xx: int|
                0 <= xx < self.params.grid_w ==> {
                    if crate::dropper::count_matched(
                        self.spec_marked_grid()[xx],
                        0,
                        self.params.grid_h as int,
                    ) == 0 {
                        (#[trigger] g1[xx]) == self.spec_marked_grid()[xx]
                    } else {
                        crate::dropper::drop_post(
                            self.spec_marked_grid()[xx],
                            g1[xx],
                            self.params.tile_h as int,
                            self.params.color_range,
                        )
                    }
                }
        } else {
            g1 == self.grid() && sw1 == self.swap
        }
    }

    /// One tick of the game loop, in the fixed order: run a resolution and
    /// drop pass when a recheck is pending, react to the swap gesture of
    /// this tick if any, advance the swap animation, then advance the
    /// physics of every falling tile. A tile settling or a swap completing
    /// schedules a recheck for the next tick, so cascades resolve over the
    /// following ticks.
    /// The animation and physics phases of one tick: react to the swap
    /// gesture, advance the swap clock, then advance every falling tile.
    #[verifier::rlimit(100)]
    fn advance_tick(&mut self, dt_ms: u32, gesture: Option<(usize, usize, usize, usize)>)
        requires
            old(self).wf(),
            !old(self).recheck,
            dt_ms <= MAX_TICK_MS,
        ensures
            final(self).wf(),
            final(self).params == old(self).params,
            old(self).stacked() ==> final(self).stacked(),
            ({
                let p2 = spec_gesture_step(
                    old(self).grid(),
                    old(self).swap,
                    old(self).params,
                    gesture,
                );
                let p3 = spec_swap_step(p2.0, p2.1, false, old(self).params, dt_ms);
                &&& final(self).grid() == spec_fall_grid(p3.0, old(self).params, dt_ms)
                &&& final(self).swap == p3.1
                &&& final(self).recheck == (p3.2 || spec_any_settles(
                    p3.0,
                    old(self).params,
                    dt_ms,
                ))
            }),
    {
        let ghost w = old(self).params.grid_w as int;
        let ghost h = old(self).params.grid_h as int;
        match gesture {
            Some((x1, y1, x2, y2)) => {
                let _started = self.try_start_swap(x1, y1, x2, y2);
            },
            None => {},
        }
        let ghost mid2 = *self;
        self.step_swap(dt_ms);
        let ghost mid3 = *self;
        let settled = self.integrate_falls(dt_ms);
        if settled {
            self.recheck = true;
        }
        proof {
            assert forall|x: int| 0 <= x < w implies (#[trigger] old(self).grid()[x]).len()
                == h by {}
            assert forall|x: int| 0 <= x < w implies (#[trigger] mid2.grid()[x]).len() == h by {}
            assert forall|x: int| 0 <= x < w implies (#[trigger] mid3.grid()[x]).len() == h by {}
            assert(!mid2.recheck);
            assert(settled == spec_any_settles(mid3.grid(), old(self).params, dt_ms));
            tick_composition(
                old(self).params,
                gesture,
                dt_ms,
                old(self).grid(),
                old(self).swap,
                mid2.grid(),
                mid2.swap,
                mid3.grid(),
                mid3.swap,
                mid3.recheck,
                self.grid(),
                self.swap,
                self.recheck,
                settled,
            );
        }
    }

    /// One tick of the game loop, in the fixed order: run a resolution and
    /// drop pass when a recheck is pending, react to the swap gesture of
    /// this tick if any, advance the swap animation, then advance the
    /// physics of every falling tile. A tile settling or a swap completing
    /// schedules a recheck for the next tick, so cascades resolve over the
    /// following ticks.
    #[verifier::rlimit(100)]
    pub fn tick(&mut self, dt_ms: u32, gesture: Option<(usize, usize, usize, usize)>)
        requires
            old(self).wf(),
            dt_ms <= MAX_TICK_MS,
        ensures
            final(self).wf(),
            final(self).params == old(self).params,
            old(self).stacked() ==> final(self).stacked(),
            exists|g1: Seq<Seq<TileState>>, sw1: Option<SwapAnim>|
                {
                    &&& #[trigger] old(self).spec_resolve_phase(g1, sw1)
                    &&& ({
                        let p2 = spec_gesture_step(g1, sw1, old(self).params, gesture);
                        let p3 = spec_swap_step(p2.0, p2.1, false, old(self).params, dt_ms);
                        &&& final(self).grid() == spec_fall_grid(p3.0, old(self).params, dt_ms)
                        &&& final(self).swap == p3.1
                        &&& final(self).recheck == (p3.2 || spec_any_settles(
                            p3.0,
                            old(self).params,
                            dt_ms,
                        ))
                    })
                },
    {
        if self.recheck {
            let found = self.resolve_and_drop();
            proof {
                assert(found == crate::matcher::any_covered(old(self).grid()));
            }
        }
        self.recheck = false;
        let ghost mid1 = *self;
        proof {
            assert(old(self).spec_resolve_phase(mid1.grid(), mid1.swap)) by {
                if old(self).recheck && crate::matcher::any_covered(old(self).grid()) {
                    assert(mid1.grid().len() == old(self).params.grid_w);
                }
            }
        }
        self.advance_tick(dt_ms, gesture);
    }
}

} // verus!
