//! The rule set: two predicates over a neighbour count.

use vstd::prelude::*;

verus! {

/// Whether a dead cell with `neighbors` living neighbours comes alive.
pub open spec fn spawns(neighbors: u32) -> bool {
    neighbors == 2
}

/// Whether a living cell with `neighbors` living neighbours has left the
/// band in which it stays stable.
pub open spec fn decays(neighbors: u32) -> bool {
    neighbors < 2 || neighbors > 3
}

/// Tells whether a living, stable cell with this many neighbours starts to decay.
pub fn should_decay(neighbors: u32) -> (r: bool)
    ensures
        r == decays(neighbors),
{
    neighbors > 3 || neighbors < 2
}

/// Tells whether a living, stable cell with this many neighbours stays stable.
pub fn should_stay_alive(neighbors: u32) -> (r: bool)
    ensures
        r == !decays(neighbors),
{
    neighbors == 2 || neighbors == 3
}

/// Tells whether a dead cell with this many neighbours comes alive.
pub fn should_spawn(neighbors: u32) -> (r: bool)
    ensures
        r == spawns(neighbors),
{
    neighbors == 2
}

} // verus!
