//! The board: a fixed-size grid of tile states, owned as a vector of columns.

use vstd::prelude::*;

use crate::tile::{Params, TileState, spec_color_from_index, color_from_index};

verus! {

/// The error kinds of the core. Out-of-range coordinate access is reported,
/// never silently clamped.
#[derive(Copy, Clone, Debug, PartialEq, Eq, Structural)]
pub enum GameError {
    OutOfBounds,
}

/// A rectangular grid of tiles, stored column by column: `cols[x][y]` is the
/// cell in column `x`, row `y`, with row 0 at the top of the screen.
pub struct Board {
    pub cols: Vec<Vec<TileState>>,
}

impl Board {
    /// The mathematical view of the board: a sequence of columns, each a
    /// sequence of tile states.
    pub open spec fn grid(self) -> Seq<Seq<TileState>> {
        Seq::new(self.cols@.len(), |x: int| self.cols@[x]@)
    }

    /// The board has exactly `w` columns of `h` rows each.
    pub open spec fn wf_dims(self, w: int, h: int) -> bool {
        &&& self.cols@.len() == w
        &&& forall|x: int| 0 <= x < w ==> (#[trigger] self.cols@[x])@.len() == h
    }

    /// Number of columns.
    pub fn width(&self) -> (w: usize)
        ensures
            w == self.grid().len(),
    {
        self.cols.len()
    }

    /// A fresh board in which every cell is settled, colored by the fixed
    /// starting pattern that cycles through the whole palette.
    pub fn new_patterned(params: &Params) -> (b: Board)
        requires
            params.wf(),
        ensures
            b.wf_dims(params.grid_w as int, params.grid_h as int),
            forall|x: int, y: int|
                0 <= x < params.grid_w && 0 <= y < params.grid_h ==> b.grid()[x][y]
                    == TileState::Settled(spec_color_from_index((((x * 3) + y) % 7) as u32)),
    {
        let mut cols: Vec<Vec<TileState>> = Vec::new();
        let mut x: usize = 0;
        while x < params.grid_w
            invariant
                x <= params.grid_w,
                params.wf(),
                cols@.len() == x,
                forall|i: int| 0 <= i < x ==> (#[trigger] cols@[i])@.len() == params.grid_h,
                forall|i: int, y: int|
                    0 <= i < x && 0 <= y < params.grid_h ==> (#[trigger] cols@[i]@[y])
                        == TileState::Settled(spec_color_from_index((((i * 3) + y) % 7) as u32)),
            decreases params.grid_w - x,
        {
            let mut col: Vec<TileState> = Vec::new();
            let mut y: usize = 0;
            while y < params.grid_h
                invariant
                    y <= params.grid_h,
                    x < params.grid_w,
                    params.wf(),
                    col@.len() == y,
                    forall|j: int|
                        0 <= j < y ==> col@[j] == TileState::Settled(
                            spec_color_from_index((((x * 3) + j) % 7) as u32),
                        ),
                decreases params.grid_h - y,
            {
                let idx: usize = ((x * 3) + y) % 7;
                col.push(TileState::Settled(color_from_index(idx as u32)));
                y = y + 1;
            }
            cols.push(col);
            x = x + 1;
        }
        Board { cols }
    }

    /// The state of the cell at `(x, y)`, or an out-of-bounds error.
    pub fn get(&self, x: usize, y: usize) -> (r: Result<TileState, GameError>)
        ensures
            (x < self.grid().len() && y < self.grid()[x as int].len()) ==> r == Ok::<
                TileState,
                GameError,
            >(self.grid()[x as int][y as int]),
            !(x < self.grid().len() && y < self.grid()[x as int].len()) ==> r == Err::<
                TileState,
                GameError,
            >(GameError::OutOfBounds),
    {
        if x < self.cols.len() && y < self.cols[x].len() {
            Ok(self.cols[x][y])
        } else {
            Err(GameError::OutOfBounds)
        }
    }

    /// Replaces the cell at `(x, y)`, or reports an out-of-bounds error and
    /// leaves the board unchanged.
    pub fn set(&mut self, x: usize, y: usize, s: TileState) -> (r: Result<(), GameError>)
        ensures
            final(self).cols@.len() == old(self).cols@.len(),
            forall|i: int|
                0 <= i < old(self).cols@.len() ==> (#[trigger] final(self).cols@[i])@.len() == old(
                    self,
                ).cols@[i]@.len(),
            (x < old(self).grid().len() && y < old(self).grid()[x as int].len()) ==> {
                &&& r == Ok::<(), GameError>(())
                &&& final(self).grid() == old(self).grid().update(
                    x as int,
                    old(self).grid()[x as int].update(y as int, s),
                )
            },
            !(x < old(self).grid().len() && y < old(self).grid()[x as int].len()) ==> {
                &&& r == Err::<(), GameError>(GameError::OutOfBounds)
                &&& final(self).grid() == old(self).grid()
            },
    {
        if x < self.cols.len() && y < self.cols[x].len() {
            let mut col = self.cols.remove(x);
            col.set(y, s);
            self.cols.insert(x, col);
            proof {
                assert(self.grid() =~= old(self).grid().update(
                    x as int,
                    old(self).grid()[x as int].update(y as int, s),
                ));
            }
            Ok(())
        } else {
            proof {
                assert(self.grid() =~= old(self).grid());
            }
            Err(GameError::OutOfBounds)
        }
    }
}

} // verus!
