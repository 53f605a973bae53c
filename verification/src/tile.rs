//! Tile colors, per-cell tile states, and the tunable parameters of the game.

use vstd::prelude::*;

verus! {

/// Distances (milli-pixels) and velocities (milli-pixels per second) carried
/// by a falling tile are kept below this bound so that one physics step can
/// never overflow an `i64`.
pub const MAX_DISTANCE: i64 = 0x100_0000_0000;
/// Upper bound on the velocity of a falling tile, in milli-pixels per second.
pub const MAX_VELOCITY: i64 = 0x100_0000_0000;
/// Upper bound on the time step handed to one tick, in milliseconds.
pub const MAX_TICK_MS: u32 = 0xffff;

/// One of the seven colors a tile can have. Colors have no order, only
/// equality.
#[derive(Copy, Clone, Debug, PartialEq, Eq, Structural)]
pub enum TileColor {
    Red,
    Orange,
    Yellow,
    Green,
    Cyan,
    Blue,
    Magenta,
}

/// Number of colors in the palette.
pub const PALETTE_SIZE: u32 = 7;

/// What one cell of the board is currently doing. Exactly one variant holds
/// per cell, which makes states such as "matched and falling at once"
/// unrepresentable.
#[derive(Copy, Clone, Debug, PartialEq, Eq, Structural)]
pub enum TileState {
    /// Marked for clearing by the current resolution pass; transient.
    JustMatched(TileColor),
    /// At rest: eligible for matching and for being swapped.
    Settled(TileColor),
    /// Temporarily holding the other tile's color during a swap animation.
    Swapping(TileColor),
    /// Animating downward. `d` is the remaining travel above the settled
    /// position in milli-pixels; `v` is the current fall speed in
    /// milli-pixels per second.
    Falling { color: TileColor, d: i64, v: i64 },
}

impl TileState {
    /// The color carried by the state, whatever the state is.
    pub open spec fn spec_color(self) -> TileColor {
        match self {
            TileState::JustMatched(c) => c,
            TileState::Settled(c) => c,
            TileState::Swapping(c) => c,
            TileState::Falling { color, .. } => color,
        }
    }

    /// The color the match scanner may see: a color for settled and
    /// just-matched tiles, nothing for tiles mid-animation.
    pub open spec fn spec_matchable_color(self) -> Option<TileColor> {
        match self {
            TileState::JustMatched(c) => Some(c),
            TileState::Settled(c) => Some(c),
            _ => None,
        }
    }

    /// The color carried by the state, whatever the state is.
    pub fn color(&self) -> (c: TileColor)
        ensures
            c == self.spec_color(),
    {
        match self {
            TileState::JustMatched(c) => *c,
            TileState::Settled(c) => *c,
            TileState::Swapping(c) => *c,
            TileState::Falling { color, .. } => *color,
        }
    }

    /// The color the match scanner may see; `None` for tiles mid-animation.
    pub fn matchable_color(&self) -> (c: Option<TileColor>)
        ensures
            c == self.spec_matchable_color(),
    {
        match self {
            TileState::JustMatched(c) => Some(*c),
            TileState::Settled(c) => Some(*c),
            _ => None,
        }
    }

    /// Whether the state is `JustMatched`.
    pub open spec fn is_matched(self) -> bool {
        self is JustMatched
    }

    /// Whether the state is `JustMatched`.
    pub fn is_just_matched(&self) -> (b: bool)
        ensures
            b == self.is_matched(),
    {
        match self {
            TileState::JustMatched(_) => true,
            _ => false,
        }
    }

    /// Bounds on the physics fields: every stored falling tile keeps its
    /// distance and velocity non-negative and below the overflow bounds.
    pub open spec fn wf(self) -> bool {
        self matches TileState::Falling { d, v, .. } ==> {
            &&& 0 <= d <= MAX_DISTANCE
            &&& 0 <= v <= MAX_VELOCITY
        }
    }
}

/// The color at a given index of the palette, in the fixed palette order.
pub open spec fn spec_color_from_index(i: u32) -> TileColor {
    if i == 0 {
        TileColor::Red
    } else if i == 1 {
        TileColor::Orange
    } else if i == 2 {
        TileColor::Yellow
    } else if i == 3 {
        TileColor::Green
    } else if i == 4 {
        TileColor::Cyan
    } else if i == 5 {
        TileColor::Blue
    } else {
        TileColor::Magenta
    }
}

/// The color at a given index of the palette, in the fixed palette order.
/// Indices at or past the palette size give the last color.
pub fn color_from_index(i: u32) -> (c: TileColor)
    ensures
        c == spec_color_from_index(i),
{
    if i == 0 {
        TileColor::Red
    } else if i == 1 {
        TileColor::Orange
    } else if i == 2 {
        TileColor::Yellow
    } else if i == 3 {
        TileColor::Green
    } else if i == 4 {
        TileColor::Cyan
    } else if i == 5 {
        TileColor::Blue
    } else {
        TileColor::Magenta
    }
}

/// The index of a color in the fixed palette order; the inverse of
/// `spec_color_from_index` on indices below the palette size.
pub open spec fn spec_color_index(c: TileColor) -> u32 {
    match c {
        TileColor::Red => 0,
        TileColor::Orange => 1,
        TileColor::Yellow => 2,
        TileColor::Green => 3,
        TileColor::Cyan => 4,
        TileColor::Blue => 5,
        TileColor::Magenta => 6,
    }
}

/// The named tunables of the simulation: grid dimensions, tile height,
/// physics and animation constants, and how many palette colors the refill
/// randomizer draws from.
#[derive(Copy, Clone, Debug, PartialEq, Eq, Structural)]
pub struct Params {
    /// Number of columns.
    pub grid_w: usize,
    /// Number of rows.
    pub grid_h: usize,
    /// Height of one tile in milli-pixels.
    pub tile_h: i64,
    /// Gravity in milli-pixels per second per second.
    pub gravity: i64,
    /// Duration of a swap animation in milliseconds.
    pub swap_time_ms: u32,
    /// Peak sideways displacement of the swap animation, in milli-pixels; a
    /// rendering tunable carried here with the rest of the configuration.
    pub swerve: i64,
    /// The refill randomizer draws colors with indices `0 .. color_range`.
    pub color_range: u32,
}

impl Params {
    /// Bounds under which every arithmetic step of the simulation fits in
    /// the integer types used.
    pub open spec fn wf(self) -> bool {
        &&& 0 < self.grid_w <= 256
        &&& 0 < self.grid_h <= 256
        &&& 0 < self.tile_h <= 1_000_000
        &&& 0 <= self.gravity <= 1_000_000
        &&& self.swap_time_ms <= 1_000_000
        &&& 0 <= self.swerve <= 1_000_000
        &&& 0 < self.color_range <= PALETTE_SIZE
    }

    /// The parameters of the reference game: a 10 by 10 grid of 32-pixel
    /// tiles, gravity of 200 pixels per second per second, a 150 ms swap
    /// with an 8-pixel swerve, and refills drawn from the first two palette
    /// colors.
    pub fn standard() -> (p: Params)
        ensures
            p.wf(),
            p.grid_w == 10,
            p.grid_h == 10,
            p.tile_h == 32_000,
            p.gravity == 200_000,
            p.swap_time_ms == 150,
            p.swerve == 8_000,
            p.color_range == 2,
    {
        Params {
            grid_w: 10,
            grid_h: 10,
            tile_h: 32_000,
            gravity: 200_000,
            swap_time_ms: 150,
            swerve: 8_000,
            color_range: 2,
        }
    }
}

} // verus!
