//! The randomized color source used when a column is refilled. The host
//! engine's pseudo-random generator does the drawing; everything downstream
//! of the draw is verified for every color it can hand back.

use vstd::prelude::*;

use crate::tile::{TileColor, PALETTE_SIZE, color_from_index, spec_color_from_index,
    spec_color_index};

verus! {

/// Relies on `macroquad::rand::gen_range` (the `quad_rand` generator): for
/// an unsigned integer type it maps a raw draw into `[low, high)`, so with
/// `low == 0` and `0 < high` the result is strictly below `high`.
#[verifier::external_body]
fn random_below(n: u32) -> (r: u32)
    requires
        0 < n,
    ensures
        r < n,
{
    macroquad::rand::gen_range(0u32, n)
}

/// A freshly randomized tile color drawn from the first `n` palette colors.
pub fn random_color(n: u32) -> (c: TileColor)
    requires
        0 < n <= PALETTE_SIZE,
    ensures
        spec_color_index(c) < n,
{
    let i = random_below(n);
    let c = color_from_index(i);
    proof {
        assert(spec_color_index(spec_color_from_index(i)) == i);
    }
    c
}

} // verus!
