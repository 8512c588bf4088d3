//! Fixed configuration of the simulation.

use vstd::prelude::*;

verus! {

/// How many cells wide the board is.
pub const MAX_WIDTH: usize = 100;

/// How many cells tall the board is.
pub const MAX_HEIGHT: usize = 60;

/// How many ticks a cell decays for before it dies.
pub const DECAY_TICKS: u32 = 10;

} // verus!
