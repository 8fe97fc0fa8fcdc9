//! Belief-state tracking over a bounded 2-D grid.
//!
//! The library estimates, turn by turn, the set of cells an adversary could
//! occupy on a bounded map, from the adversary's announced actions and from
//! hit/no-hit feedback of the observer's own attacks. Its heart is a boolean
//! grid with bit-exact set algebra (shift, intersect, union, complement,
//! directional convolution), precomputed mask tables, and a two-state belief
//! (exact position vs. candidate area) with a deterministic collapse rule.

use vstd::prelude::*;

pub mod actions;
pub mod ai;
pub mod belief;
pub mod bitgrid;
pub mod game;
pub mod grid;
pub mod laws;
pub mod masks;
pub mod parse;
pub mod pos;
pub mod rng;

verus! {

/// The map is split into a fixed 3 x 3 arrangement of sectors.
pub const MAP_NB_REGION: usize = 3;

/// Side length of one square sector of the fixed-size bit grid.
pub const SECTOR_SIZE: usize = 5;

/// Side length of the fixed-size bit grid.
pub const MAP_SIDE_SIZE: usize = 15;

/// Number of map sectors.
pub const NB_SECTORS: usize = 9;

/// Charge turns needed before a torpedo shot is ready.
pub const COOLDOWN_TORPEDO: usize = 3;

/// Charge turns needed before a sonar ping is ready.
pub const COOLDOWN_SONAR: usize = 4;

/// Charge turns needed before a silent move is ready.
pub const COOLDOWN_SILENCE: usize = 7;

/// Charge turns needed before a mine is ready.
pub const COOLDOWN_MINE: usize = 3;

/// Life points each submarine starts with.
pub const MAX_LIFE: i32 = 6;

} // verus!
