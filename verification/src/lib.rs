//! Simulation core of a match-3 tile game.
//!
//! A fixed rectangular grid of colored tiles: the player swaps two adjacent
//! settled tiles, runs of three or more equal colors are marked and cleared,
//! the surviving tiles in each column compact downward, and freshly spawned
//! tiles fall in from above under simple integer physics.
//!
//! All distances and velocities are kept in milli-pixel units and all times
//! in milliseconds, so the whole state machine is exact integer arithmetic.
//! The host loop around the core supplies mouse gestures, the frame clock,
//! and pixel rendering, and drives everything through [`game::Game::tick`].

pub mod board;
pub mod dropper;
pub mod game;
pub mod matcher;
pub mod physics;
pub mod rng;
pub mod tile;
