//! One simulation step over the whole board: count, spawn, decay, kill.

use vstd::prelude::*;
use bevy::time::{Timer, TimerMode};
use std::time::Duration;
use crate::rules::{decays, should_decay, should_spawn, spawns};
use crate::config::DECAY_TICKS;
use crate::types::{
    candidate, cells_valid, grid_height, in_grid, neighbor_coordinates, rectangular, same_shape,
    Board, Cell, Change, FrameTimer, Grid, Position,
};

verus! {

/// 1 where `(x, y)` is on the grid and holds a living cell, else 0.
pub open spec fn live(g: Grid, x: int, y: int) -> int {
    if in_grid(g, x, y) && !g[x][y].dead {
        1
    } else {
        0
    }
}

/// The living cells among the eight around `(x, y)`; what lies beyond an
/// edge counts as nothing, and the far edge does not wrap round.
pub open spec fn neighbor_count(g: Grid, x: int, y: int) -> int {
    live(g, x - 1, y - 1) + live(g, x - 1, y) + live(g, x - 1, y + 1)
        + live(g, x, y - 1) + live(g, x, y + 1)
        + live(g, x + 1, y - 1) + live(g, x + 1, y) + live(g, x + 1, y + 1)
}

/// The cell at `(x, y)` with its neighbour count brought up to date.
pub open spec fn counted_cell(g: Grid, x: int, y: int) -> Cell {
    Cell { neighbors: neighbor_count(g, x, y) as u32, ..g[x][y] }
}

/// A dead cell whose count qualifies comes alive, stable, with a full countdown.
pub open spec fn spawned(c: Cell) -> Cell {
    if c.dead && spawns(c.neighbors) {
        c.revived()
    } else {
        c
    }
}

/// A living cell starts to decay where its count says so; a decaying cell
/// counts down by one, never below zero, and never recovers.
pub open spec fn decayed(c: Cell) -> Cell {
    if c.dead {
        c
    } else {
        let decaying = c.decaying || decays(c.neighbors);
        Cell {
            decaying,
            decaying_ticks: if decaying && c.decaying_ticks > 0 {
                (c.decaying_ticks - 1) as u32
            } else {
                c.decaying_ticks
            },
            ..c
        }
    }
}

/// A living, decaying cell whose countdown stands at zero dies.
pub open spec fn killed(c: Cell) -> Cell {
    if !c.dead && c.decaying && c.decaying_ticks == 0 {
        Cell { dead: true, ..c }
    } else {
        c
    }
}

/// The grid after the counting phase.
pub open spec fn count_grid(g: Grid) -> Grid {
    Seq::new(g.len(), |x: int| Seq::new(g[x].len(), |y: int| counted_cell(g, x, y)))
}

/// The grid after the spawn phase.
pub open spec fn spawn_grid(g: Grid) -> Grid {
    Seq::new(g.len(), |x: int| Seq::new(g[x].len(), |y: int| spawned(g[x][y])))
}

/// The grid after the decay phase.
pub open spec fn decay_grid(g: Grid) -> Grid {
    Seq::new(g.len(), |x: int| Seq::new(g[x].len(), |y: int| decayed(g[x][y])))
}

/// The grid after the kill phase.
pub open spec fn kill_grid(g: Grid) -> Grid {
    Seq::new(g.len(), |x: int| Seq::new(g[x].len(), |y: int| killed(g[x][y])))
}

/// The grid after one whole tick.
pub open spec fn tick_grid(g: Grid) -> Grid {
    kill_grid(decay_grid(spawn_grid(count_grid(g))))
}

/// The flips of the `dead` flag in the first `n` rows of column `x`, by row.
pub open spec fn column_flips(before: Seq<Cell>, after: Seq<Cell>, x: int, n: int) -> Seq<Change>
    decreases n,
{
    if n <= 0 {
        Seq::empty()
    } else {
        let rest = column_flips(before, after, x, n - 1);
        if before[n - 1].dead != after[n - 1].dead {
            rest.push(
                Change {
                    position: Position { x: x as usize, y: (n - 1) as usize },
                    dead: after[n - 1].dead,
                },
            )
        } else {
            rest
        }
    }
}

/// The flips of the `dead` flag in the first `n` columns, column by column.
pub open spec fn grid_flips(before: Grid, after: Grid, n: int) -> Seq<Change>
    decreases n,
{
    if n <= 0 {
        Seq::empty()
    } else {
        grid_flips(before, after, n - 1) + column_flips(
            before[n - 1],
            after[n - 1],
            n - 1,
            before[n - 1].len() as int,
        )
    }
}

/// Every cell whose `dead` flag differs between two grids of one shape, with
/// the new flag, ordered by column and then by row.
pub open spec fn flips(before: Grid, after: Grid) -> Seq<Change> {
    grid_flips(before, after, before.len() as int)
}

/// What a tick reports: the cells that came alive, then the cells that died.
pub open spec fn tick_report(g: Grid) -> Seq<Change> {
    let counted = count_grid(g);
    let grown = decay_grid(spawn_grid(counted));
    flips(counted, spawn_grid(counted)) + flips(grown, kill_grid(grown))
}

/// The range from `start` up to and including `end`, cut off below `max`.
pub fn limited_positive_range(start: usize, end: usize, max: usize) -> (r: std::ops::Range<usize>)
    ensures
        r.start == start,
        r.end == if end + 1 < max { end + 1 } else { max as int },
{
    let past_end: usize = if end < max { end + 1 } else { max };
    start..past_end
}

/// The part of column `i` of the window round `(x, y)` that lies in rows below `ay`.
spec fn column_before(g: Grid, x: int, y: int, i: int, ay: int) -> int {
    (if ay > y - 1 { live(g, i, y - 1) } else { 0 })
        + (if ay > y && i != x { live(g, i, y) } else { 0 })
        + (if ay > y + 1 { live(g, i, y + 1) } else { 0 })
}

/// The part of the window round `(x, y)` that lies in columns below `ax`.
spec fn columns_before(g: Grid, x: int, y: int, ax: int) -> int {
    (if ax > x - 1 { column_before(g, x, y, x - 1, y + 2) } else { 0 })
        + (if ax > x { column_before(g, x, y, x, y + 2) } else { 0 })
        + (if ax > x + 1 { column_before(g, x, y, x + 1, y + 2) } else { 0 })
}

/// Counts the living neighbours of `(x, y)` and caches the count in that cell.
pub fn count_cell_neighbors(board: &mut Board, x: usize, y: usize)
    requires
        rectangular(old(board)@),
        in_grid(old(board)@, x as int, y as int),
    ensures
        final(board)@ == old(board)@.update(
            x as int,
            old(board)@[x as int].update(y as int, counted_cell(old(board)@, x as int, y as int)),
        ),
{
    let ghost g = board@;
    let width = board.0.len();
    let height = board.0[x].len();
    let xs = limited_positive_range(if x > 0 { x - 1 } else { 0 }, x + 1, width);
    let ys = limited_positive_range(if y > 0 { y - 1 } else { 0 }, y + 1, height);
    let mut count: u32 = 0;
    let mut ax = xs.start;
    while ax < xs.end
        invariant
            board@ == g,
            rectangular(g),
            in_grid(g, x as int, y as int),
            width == g.len(),
            height == g[x as int].len(),
            xs.start == if x > 0 { x - 1 } else { 0 },
            xs.end == if x + 2 < width { x + 2 } else { width as int },
            ys.start == if y > 0 { y - 1 } else { 0 },
            ys.end == if y + 2 < height { y + 2 } else { height as int },
            xs.start <= ax <= xs.end,
            count == columns_before(g, x as int, y as int, ax as int),
        decreases xs.end - ax,
    {
        let mut ay = ys.start;
        while ay < ys.end
            invariant
                board@ == g,
                rectangular(g),
                in_grid(g, x as int, y as int),
                width == g.len(),
                height == g[x as int].len(),
                xs.start == if x > 0 { x - 1 } else { 0 },
                xs.end == if x + 2 < width { x + 2 } else { width as int },
                ys.start == if y > 0 { y - 1 } else { 0 },
                ys.end == if y + 2 < height { y + 2 } else { height as int },
                xs.start <= ax < xs.end,
                ys.start <= ay <= ys.end,
                count == columns_before(g, x as int, y as int, ax as int) + column_before(
                    g,
                    x as int,
                    y as int,
                    ax as int,
                    ay as int,
                ),
            decreases ys.end - ay,
        {
            assert(g[ax as int].len() == height);
            if !(ax == x && ay == y) && !board.get(ax, ay).dead {
                count += 1;
            }
            ay += 1;
        }
        assert(g[ax as int].len() == height);
        ax += 1;
    }
    let mut cell = board.get(x, y);
    cell.neighbors = count;
    board.set(x, y, cell);
}

/// The count round `(x, y)` looks at the `dead` flags and the shape alone.
proof fn lemma_count_reads_dead_flags(a: Grid, b: Grid, x: int, y: int)
    requires
        same_shape(a, b),
        forall|i: int, j: int| in_grid(b, i, j) ==> (#[trigger] a[i][j]).dead == b[i][j].dead,
    ensures
        neighbor_count(a, x, y) == neighbor_count(b, x, y),
{
    assert forall|i: int, j: int| live(a, i, j) == live(b, i, j) by {
        if 0 <= i < a.len() {
            assert(a[i].len() == b[i].len());
        }
    }
}

/// Whether the walk by column, then by row, has passed `(i, j)` on reaching `(x, y)`.
spec fn passed(i: int, j: int, x: int, y: int) -> bool {
    i < x || (i == x && j < y)
}

/// Counts the living neighbours of every cell. All counts are taken from the
/// `dead` flags as they stand on entry; no other field changes.
pub fn count_neighbors(board: &mut Board)
    requires
        rectangular(old(board)@),
    ensures
        final(board)@ == count_grid(old(board)@),
{
    let ghost g = board@;
    let width = board.0.len();
    let mut x: usize = 0;
    while x < width
        invariant
            rectangular(g),
            width == g.len(),
            x <= width,
            same_shape(board@, g),
            forall|i: int, j: int|
                in_grid(g, i, j) ==> #[trigger] board@[i][j] == if passed(i, j, x as int, 0) {
                    counted_cell(g, i, j)
                } else {
                    g[i][j]
                },
        decreases width - x,
    {
        let height = board.0[x].len();
        assert(board@[x as int].len() == g[x as int].len());
        let mut y: usize = 0;
        while y < height
            invariant
                rectangular(g),
                width == g.len(),
                x < width,
                height == g[x as int].len(),
                y <= height,
                same_shape(board@, g),
                forall|i: int, j: int|
                    in_grid(g, i, j) ==> #[trigger] board@[i][j] == if passed(
                        i,
                        j,
                        x as int,
                        y as int,
                    ) {
                        counted_cell(g, i, j)
                    } else {
                        g[i][j]
                    },
            decreases height - y,
        {
            proof {
                assert(board@[x as int].len() == g[x as int].len());
                assert(rectangular(board@)) by {
                    assert forall|i: int| 0 <= i < board@.len() implies (#[trigger] board@[i]).len()
                        == grid_height(board@) by {
                        assert(board@[i].len() == g[i].len());
                        assert(board@[0].len() == g[0].len());
                    }
                }
                lemma_count_reads_dead_flags(board@, g, x as int, y as int);
            }
            count_cell_neighbors(board, x, y);
            y += 1;
        }
        x += 1;
    }
    assert(board@ =~~= count_grid(g));
}

/// Brings every dead cell whose count qualifies to life, and reports each
/// cell that came alive, by column and then by row.
pub fn spawn_cells(board: &mut Board) -> (changes: Vec<Change>)
    ensures
        final(board)@ == spawn_grid(old(board)@),
        changes@ == flips(old(board)@, spawn_grid(old(board)@)),
{
    let ghost g = board@;
    let ghost target = spawn_grid(g);
    let mut changes: Vec<Change> = Vec::new();
    let width = board.0.len();
    let mut x: usize = 0;
    while x < width
        invariant
            target == spawn_grid(g),
            width == g.len(),
            x <= width,
            same_shape(board@, g),
            forall|i: int, j: int|
                in_grid(g, i, j) ==> #[trigger] board@[i][j] == if passed(i, j, x as int, 0) {
                    spawned(g[i][j])
                } else {
                    g[i][j]
                },
            changes@ == grid_flips(g, target, x as int),
        decreases width - x,
    {
        let height = board.0[x].len();
        assert(board@[x as int].len() == g[x as int].len());
        let mut y: usize = 0;
        while y < height
            invariant
                target == spawn_grid(g),
                width == g.len(),
                x < width,
                height == g[x as int].len(),
                y <= height,
                same_shape(board@, g),
                forall|i: int, j: int|
                    in_grid(g, i, j) ==> #[trigger] board@[i][j] == if passed(
                        i,
                        j,
                        x as int,
                        y as int,
                    ) {
                        spawned(g[i][j])
                    } else {
                        g[i][j]
                    },
                changes@ == grid_flips(g, target, x as int) + column_flips(
                    g[x as int],
                    target[x as int],
                    x as int,
                    y as int,
                ),
            decreases height - y,
        {
            assert(board@[x as int].len() == g[x as int].len());
            let cell = board.get(x, y);
            if cell.dead && should_spawn(cell.neighbors) {
                board.set(
                    x,
                    y,
                    Cell {
                        decaying: false,
                        decaying_ticks: DECAY_TICKS,
                        dead: false,
                        neighbors: cell.neighbors,
                    },
                );
                changes.push(Change { position: Position { x, y }, dead: false });
            }
            assert(changes@ =~= grid_flips(g, target, x as int) + column_flips(
                g[x as int],
                target[x as int],
                x as int,
                y + 1,
            ));
            y += 1;
        }
        x += 1;
    }
    assert(board@ =~~= target);
    changes
}

/// Lets every living cell decay: one that has left the stable band starts
/// to decay, and a decaying one counts down by one.
pub fn decay_cells(board: &mut Board)
    ensures
        final(board)@ == decay_grid(old(board)@),
{
    let ghost g = board@;
    let width = board.0.len();
    let mut x: usize = 0;
    while x < width
        invariant
            width == g.len(),
            x <= width,
            same_shape(board@, g),
            forall|i: int, j: int|
                in_grid(g, i, j) ==> #[trigger] board@[i][j] == if passed(i, j, x as int, 0) {
                    decayed(g[i][j])
                } else {
                    g[i][j]
                },
        decreases width - x,
    {
        let height = board.0[x].len();
        assert(board@[x as int].len() == g[x as int].len());
        let mut y: usize = 0;
        while y < height
            invariant
                width == g.len(),
                x < width,
                height == g[x as int].len(),
                y <= height,
                same_shape(board@, g),
                forall|i: int, j: int|
                    in_grid(g, i, j) ==> #[trigger] board@[i][j] == if passed(
                        i,
                        j,
                        x as int,
                        y as int,
                    ) {
                        decayed(g[i][j])
                    } else {
                        g[i][j]
                    },
            decreases height - y,
        {
            assert(board@[x as int].len() == g[x as int].len());
            let mut cell = board.get(x, y);
            if !cell.dead {
                if should_decay(cell.neighbors) && !cell.decaying {
                    cell.decaying = true;
                }
                if cell.decaying && cell.decaying_ticks > 0 {
                    cell.decaying_ticks -= 1;
                }
                board.set(x, y, cell);
            }
            y += 1;
        }
        x += 1;
    }
    assert(board@ =~~= decay_grid(g));
}

/// Kills every living, decaying cell whose countdown stands at zero, and
/// reports each cell that died, by column and then by row.
pub fn kill_cells(board: &mut Board) -> (changes: Vec<Change>)
    ensures
        final(board)@ == kill_grid(old(board)@),
        changes@ == flips(old(board)@, kill_grid(old(board)@)),
{
    let ghost g = board@;
    let ghost target = kill_grid(g);
    let mut changes: Vec<Change> = Vec::new();
    let width = board.0.len();
    let mut x: usize = 0;
    while x < width
        invariant
            target == kill_grid(g),
            width == g.len(),
            x <= width,
            same_shape(board@, g),
            forall|i: int, j: int|
                in_grid(g, i, j) ==> #[trigger] board@[i][j] == if passed(i, j, x as int, 0) {
                    killed(g[i][j])
                } else {
                    g[i][j]
                },
            changes@ == grid_flips(g, target, x as int),
        decreases width - x,
    {
        let height = board.0[x].len();
        assert(board@[x as int].len() == g[x as int].len());
        let mut y: usize = 0;
        while y < height
            invariant
                target == kill_grid(g),
                width == g.len(),
                x < width,
                height == g[x as int].len(),
                y <= height,
                same_shape(board@, g),
                forall|i: int, j: int|
                    in_grid(g, i, j) ==> #[trigger] board@[i][j] == if passed(
                        i,
                        j,
                        x as int,
                        y as int,
                    ) {
                        killed(g[i][j])
                    } else {
                        g[i][j]
                    },
                changes@ == grid_flips(g, target, x as int) + column_flips(
                    g[x as int],
                    target[x as int],
                    x as int,
                    y as int,
                ),
            decreases height - y,
        {
            assert(board@[x as int].len() == g[x as int].len());
            let mut cell = board.get(x, y);
            if !cell.dead && cell.decaying && cell.decaying_ticks == 0 {
                cell.dead = true;
                board.set(x, y, cell);
                changes.push(Change { position: Position { x, y }, dead: true });
            }
            assert(changes@ =~= grid_flips(g, target, x as int) + column_flips(
                g[x as int],
                target[x as int],
                x as int,
                y + 1,
            ));
            y += 1;
        }
        x += 1;
    }
    assert(board@ =~~= target);
    changes
}

/// Advances the board by one tick: counts every cell's neighbours on the
/// board as it stands, then spawns, decays and kills, each phase over the
/// whole board before the next. Returns the cells whose `dead` flag flipped:
/// those that came alive, then those that died.
pub fn tick(board: &mut Board) -> (changes: Vec<Change>)
    requires
        rectangular(old(board)@),
    ensures
        final(board)@ == tick_grid(old(board)@),
        changes@ == tick_report(old(board)@),
        rectangular(final(board)@),
        cells_valid(old(board)@) ==> cells_valid(final(board)@),
{
    count_neighbors(board);
    let mut changes = spawn_cells(board);
    decay_cells(board);
    let mut deaths = kill_cells(board);
    changes.append(&mut deaths);
    proof {
        lemma_tick_keeps_shape(old(board)@);
        if cells_valid(old(board)@) {
            lemma_tick_keeps_well_formed(old(board)@);
        }
    }
    changes
}

/// Whether a repeating timer of `interval` nanoseconds, with `elapsed` on
/// it, has just finished once `delta` more have passed. The number of
/// intervals that fit in the time is kept in 32 bits, and the timer has
/// just finished where that number is not zero.
pub open spec fn timer_finishes(interval: u64, elapsed: u64, delta: u64) -> bool {
    let total = elapsed + delta;
    total >= interval && (interval == 0 || (total / interval as int) % 0x1_0000_0000 != 0)
}

/// What a repeating timer of `interval` nanoseconds, with `elapsed` on it,
/// has on it once `delta` more have passed: the time that does not fill an
/// interval.
pub open spec fn timer_elapsed_after(interval: u64, elapsed: u64, delta: u64) -> u64 {
    let total = elapsed + delta;
    if total < interval {
        total as u64
    } else if interval == 0 {
        0
    } else {
        (total % interval as int) as u64
    }
}

/// Lets `delta_nanos` pass on a repeating `bevy::time::Timer` of
/// `interval_nanos` that has `elapsed_nanos` on it, by `Timer::new`,
/// `Timer::set_elapsed` and `Timer::tick`, and hands back what
/// `Timer::just_finished` and `Timer::elapsed` then say. The contract is
/// taken on trust from that crate's source: the timer adds the delta to the
/// elapsed time; it has finished where the sum reaches the interval; it then
/// keeps the number of whole intervals in 32 bits and the rest of the
/// division as the elapsed time, or nothing where the interval is zero.
#[verifier::external_body]
fn tick_repeating_timer(interval_nanos: u64, elapsed_nanos: u64, delta_nanos: u64) -> (outcome: (
    bool,
    u64,
))
    ensures
        outcome.0 == timer_finishes(interval_nanos, elapsed_nanos, delta_nanos),
        outcome.1 == timer_elapsed_after(interval_nanos, elapsed_nanos, delta_nanos),
{
    let mut timer = Timer::new(Duration::from_nanos(interval_nanos), TimerMode::Repeating);
    timer.set_elapsed(Duration::from_nanos(elapsed_nanos));
    timer.tick(Duration::from_nanos(delta_nanos));
    (timer.just_finished(), timer.elapsed().as_nanos() as u64)
}

/// Lets `delta_nanos` pass on the frame timer, and advances the board by
/// one tick where the timer has just finished; where it has not, the board
/// stays as it is and nothing is reported.
pub fn process_tick(delta_nanos: u64, timer: &mut FrameTimer, board: &mut Board) -> (changes: Vec<
    Change,
>)
    requires
        rectangular(old(board)@),
    ensures
        final(timer).interval_nanos == old(timer).interval_nanos,
        final(timer).elapsed_nanos == timer_elapsed_after(
            old(timer).interval_nanos,
            old(timer).elapsed_nanos,
            delta_nanos,
        ),
        timer_finishes(old(timer).interval_nanos, old(timer).elapsed_nanos, delta_nanos) ==> {
            &&& final(board)@ == tick_grid(old(board)@)
            &&& changes@ == tick_report(old(board)@)
        },
        !timer_finishes(old(timer).interval_nanos, old(timer).elapsed_nanos, delta_nanos) ==> {
            &&& final(board)@ == old(board)@
            &&& changes@ == Seq::<Change>::empty()
        },
        rectangular(final(board)@),
        cells_valid(old(board)@) ==> cells_valid(final(board)@),
{
    let (finished, elapsed) = tick_repeating_timer(
        timer.interval_nanos,
        timer.elapsed_nanos,
        delta_nanos,
    );
    timer.elapsed_nanos = elapsed;
    if !finished {
        return Vec::new();
    }
    tick(board)
}

/// A tick keeps the shape of a grid.
pub proof fn lemma_tick_keeps_shape(g: Grid)
    ensures
        same_shape(tick_grid(g), g),
        rectangular(g) ==> rectangular(tick_grid(g)),
{
    let t = tick_grid(g);
    assert(same_shape(t, g));
    if rectangular(g) {
        assert forall|x: int| 0 <= x < t.len() implies (#[trigger] t[x]).len()
            == grid_height(t) by {
            assert(t[x].len() == g[x].len());
            assert(t[0].len() == g[0].len());
        }
    }
}

/// A tick takes a rectangle of valid cells to a rectangle of valid cells:
/// no countdown ever exceeds the decay duration.
pub proof fn lemma_tick_keeps_well_formed(g: Grid)
    requires
        rectangular(g),
        cells_valid(g),
    ensures
        rectangular(tick_grid(g)),
        cells_valid(tick_grid(g)),
{
    lemma_tick_keeps_shape(g);
    let t = tick_grid(g);
    assert forall|x: int, y: int| in_grid(t, x, y) implies (#[trigger] t[x][y]).valid() by {
        assert(in_grid(g, x, y));
        assert(g[x][y].valid());
        assert(t[x][y] == killed(decayed(spawned(counted_cell(g, x, y)))));
    }
}

/// After a tick no living cell is decaying with its countdown at zero: the
/// kill phase has taken every such cell.
pub proof fn lemma_tick_kills_every_spent_cell(g: Grid, x: int, y: int)
    requires
        in_grid(g, x, y),
    ensures
        !tick_grid(g)[x][y].dead && tick_grid(g)[x][y].decaying ==> tick_grid(g)[x][y].decaying_ticks
            > 0,
{
    assert(tick_grid(g)[x][y] == killed(decayed(spawned(counted_cell(g, x, y)))));
}

/// The grid after `n` ticks.
pub open spec fn after_ticks(g: Grid, n: nat) -> Grid
    decreases n,
{
    if n == 0 {
        g
    } else {
        tick_grid(after_ticks(g, (n - 1) as nat))
    }
}

/// Any number of ticks keeps a rectangle of valid cells a rectangle of
/// valid cells: at all times every countdown is within the decay duration.
pub proof fn lemma_ticks_keep_well_formed(g: Grid, n: nat)
    requires
        rectangular(g),
        cells_valid(g),
    ensures
        rectangular(after_ticks(g, n)),
        cells_valid(after_ticks(g, n)),
    decreases n,
{
    if n > 0 {
        lemma_ticks_keep_well_formed(g, (n - 1) as nat);
        lemma_tick_keeps_well_formed(after_ticks(g, (n - 1) as nat));
    }
}

/// Two boards that hold the same cells hold the same cells after the same
/// number of ticks, and report the same changes on the way: a tick depends
/// on nothing but the grid.
pub proof fn lemma_ticks_deterministic(a: Board, b: Board, n: nat)
    requires
        a@ == b@,
    ensures
        after_ticks(a@, n) == after_ticks(b@, n),
        tick_report(after_ticks(a@, n)) == tick_report(after_ticks(b@, n)),
{
}

/// A dead cell whose neighbour count qualifies for a spawn is alive and
/// stable, with a full countdown, at the end of the very tick that took
/// the count.
pub proof fn lemma_spawn_in_same_tick(g: Grid, x: int, y: int)
    requires
        in_grid(g, x, y),
        g[x][y].dead,
        spawns(neighbor_count(g, x, y) as u32),
    ensures
        tick_grid(g)[x][y] == (Cell {
            decaying: false,
            decaying_ticks: DECAY_TICKS,
            dead: false,
            neighbors: neighbor_count(g, x, y) as u32,
        }),
{
    assert(tick_grid(g)[x][y] == killed(decayed(spawned(counted_cell(g, x, y)))));
}

/// A living, decaying cell with one tick left is dead after the next tick,
/// with its countdown at zero, whatever its neighbours: decay has no way back.
pub proof fn lemma_last_tick_kills(g: Grid, x: int, y: int)
    requires
        in_grid(g, x, y),
        !g[x][y].dead,
        g[x][y].decaying,
        g[x][y].decaying_ticks == 1,
    ensures
        tick_grid(g)[x][y].dead,
        tick_grid(g)[x][y].decaying,
        tick_grid(g)[x][y].decaying_ticks == 0,
{
    assert(tick_grid(g)[x][y] == killed(decayed(spawned(counted_cell(g, x, y)))));
}

/// A decaying cell stays decaying until it is dead: no tick takes a living,
/// decaying cell back to the stable state.
pub proof fn lemma_no_recovery(g: Grid, x: int, y: int)
    requires
        in_grid(g, x, y),
        !g[x][y].dead,
        g[x][y].decaying,
    ensures
        tick_grid(g)[x][y].decaying,
        g[x][y].decaying_ticks > 0 ==> tick_grid(g)[x][y].decaying_ticks == g[x][y].decaying_ticks - 1,
        tick_grid(g)[x][y].dead <==> g[x][y].decaying_ticks <= 1,
{
    assert(tick_grid(g)[x][y] == killed(decayed(spawned(counted_cell(g, x, y)))));
}

/// How many of the coordinates `ps` hold a living cell.
pub open spec fn living_among(g: Grid, ps: Seq<Position>) -> int
    decreases ps.len(),
{
    if ps.len() == 0 {
        0
    } else {
        living_among(g, ps.drop_last()) + live(g, ps.last().x as int, ps.last().y as int)
    }
}

/// The living cells among two runs of coordinates add up.
proof fn lemma_living_among_add(g: Grid, a: Seq<Position>, b: Seq<Position>)
    ensures
        living_among(g, a + b) == living_among(g, a) + living_among(g, b),
    decreases b.len(),
{
    if b.len() == 0 {
        assert(a + b =~= a);
    } else {
        assert((a + b).drop_last() =~= a + b.drop_last());
        lemma_living_among_add(g, a, b.drop_last());
    }
}

/// A candidate coordinate holds a living cell exactly where `live` says so.
proof fn lemma_living_candidate(g: Grid, i: int, j: int)
    requires
        rectangular(g),
        g.len() <= usize::MAX,
        grid_height(g) <= usize::MAX,
    ensures
        living_among(g, candidate(g, i, j)) == live(g, i, j),
{
    let c = candidate(g, i, j);
    if in_grid(g, i, j) {
        assert(g[i].len() == grid_height(g));
        assert(c.drop_last() =~= Seq::<Position>::empty());
        assert(living_among(g, c) == living_among(g, c.drop_last()) + live(
            g,
            c.last().x as int,
            c.last().y as int,
        ));
    }
}

/// The neighbour count of a cell is the number of living cells at its
/// neighbour coordinates.
pub proof fn lemma_count_is_living_neighbors(g: Grid, x: int, y: int)
    requires
        rectangular(g),
        g.len() <= usize::MAX,
        grid_height(g) <= usize::MAX,
    ensures
        neighbor_count(g, x, y) == living_among(g, neighbor_coordinates(g, x, y)),
{
    let c1 = candidate(g, x - 1, y - 1);
    let c2 = candidate(g, x - 1, y);
    let c3 = candidate(g, x - 1, y + 1);
    let c4 = candidate(g, x, y - 1);
    let c5 = candidate(g, x, y + 1);
    let c6 = candidate(g, x + 1, y - 1);
    let c7 = candidate(g, x + 1, y);
    let c8 = candidate(g, x + 1, y + 1);
    lemma_living_candidate(g, x - 1, y - 1);
    lemma_living_candidate(g, x - 1, y);
    lemma_living_candidate(g, x - 1, y + 1);
    lemma_living_candidate(g, x, y - 1);
    lemma_living_candidate(g, x, y + 1);
    lemma_living_candidate(g, x + 1, y - 1);
    lemma_living_candidate(g, x + 1, y);
    lemma_living_candidate(g, x + 1, y + 1);
    lemma_living_among_add(g, c1, c2);
    lemma_living_among_add(g, c1 + c2, c3);
    lemma_living_among_add(g, c1 + c2 + c3, c4);
    lemma_living_among_add(g, c1 + c2 + c3 + c4, c5);
    lemma_living_among_add(g, c1 + c2 + c3 + c4 + c5, c6);
    lemma_living_among_add(g, c1 + c2 + c3 + c4 + c5 + c6, c7);
    lemma_living_among_add(g, c1 + c2 + c3 + c4 + c5 + c6 + c7, c8);
}

/// Whether `c` names a cell whose `dead` flag differs between the two
/// grids, together with the flag's value in `after`.
pub open spec fn is_flip(before: Grid, after: Grid, c: Change) -> bool {
    let x = c.position.x as int;
    let y = c.position.y as int;
    in_grid(before, x, y) && before[x][y].dead != after[x][y].dead && c.dead == after[x][y].dead
}

/// A sequence with one more element holds what it held before, and that element.
proof fn lemma_push_contains(s: Seq<Change>, e: Change, c: Change)
    ensures
        s.push(e).contains(c) <==> (s.contains(c) || c == e),
{
    let t = s.push(e);
    if s.contains(c) {
        let i = choose|i: int| 0 <= i < s.len() && s[i] == c;
        assert(t[i] == c);
    }
    if c == e {
        assert(t[s.len() as int] == c);
    }
    if t.contains(c) {
        let i = choose|i: int| 0 <= i < t.len() && t[i] == c;
        if i < s.len() {
            assert(s[i] == c);
        }
    }
}

/// Two sequences put together hold what either of them holds.
proof fn lemma_add_contains(a: Seq<Change>, b: Seq<Change>, c: Change)
    ensures
        (a + b).contains(c) <==> (a.contains(c) || b.contains(c)),
{
    let t = a + b;
    if a.contains(c) {
        let i = choose|i: int| 0 <= i < a.len() && a[i] == c;
        assert(t[i] == c);
    }
    if b.contains(c) {
        let i = choose|i: int| 0 <= i < b.len() && b[i] == c;
        assert(t[a.len() + i] == c);
    }
    if t.contains(c) {
        let i = choose|i: int| 0 <= i < t.len() && t[i] == c;
        if i < a.len() {
            assert(a[i] == c);
        } else {
            assert(b[i - a.len()] == c);
        }
    }
}

/// The flips of a column's first `n` rows are the rows among them whose flag differs.
proof fn lemma_column_flips_contain(before: Seq<Cell>, after: Seq<Cell>, x: int, n: int, c: Change)
    requires
        0 <= x <= usize::MAX,
        0 <= n <= usize::MAX,
    ensures
        column_flips(before, after, x, n).contains(c) <==> {
            &&& c.position.x == x
            &&& c.position.y < n
            &&& before[c.position.y as int].dead != after[c.position.y as int].dead
            &&& c.dead == after[c.position.y as int].dead
        },
    decreases n,
{
    if n > 0 {
        lemma_column_flips_contain(before, after, x, n - 1, c);
        let rest = column_flips(before, after, x, n - 1);
        if before[n - 1].dead != after[n - 1].dead {
            lemma_push_contains(
                rest,
                Change {
                    position: Position { x: x as usize, y: (n - 1) as usize },
                    dead: after[n - 1].dead,
                },
                c,
            );
        }
    }
}

/// The flips of a grid's first `n` columns are the cells in them whose flag differs.
proof fn lemma_grid_flips_contain(before: Grid, after: Grid, n: int, c: Change)
    requires
        0 <= n <= before.len() <= usize::MAX,
        forall|x: int| 0 <= x < before.len() ==> (#[trigger] before[x]).len() <= usize::MAX,
    ensures
        grid_flips(before, after, n).contains(c) <==> (c.position.x < n && is_flip(
            before,
            after,
            c,
        )),
    decreases n,
{
    if n > 0 {
        lemma_grid_flips_contain(before, after, n - 1, c);
        let height = before[n - 1].len() as int;
        lemma_column_flips_contain(before[n - 1], after[n - 1], n - 1, height, c);
        lemma_add_contains(
            grid_flips(before, after, n - 1),
            column_flips(before[n - 1], after[n - 1], n - 1, height),
            c,
        );
    }
}

/// The flips between two grids are the cells whose `dead` flag differs,
/// each with the flag's new value, and nothing else.
pub proof fn lemma_flips_are_the_flipped_cells(before: Grid, after: Grid, c: Change)
    requires
        before.len() <= usize::MAX,
        forall|x: int| 0 <= x < before.len() ==> (#[trigger] before[x]).len() <= usize::MAX,
    ensures
        flips(before, after).contains(c) <==> is_flip(before, after, c),
{
    lemma_grid_flips_contain(before, after, before.len() as int, c);
}

/// No cell comes alive and dies in one tick: a cell that the spawn phase
/// reports is not among those that the kill phase reports.
pub proof fn lemma_spawned_cell_survives_the_tick(g: Grid, born: Change, died: Change)
    requires
        g.len() <= usize::MAX,
        forall|x: int| 0 <= x < g.len() ==> (#[trigger] g[x]).len() <= usize::MAX,
        flips(count_grid(g), spawn_grid(count_grid(g))).contains(born),
        flips(
            decay_grid(spawn_grid(count_grid(g))),
            kill_grid(decay_grid(spawn_grid(count_grid(g)))),
        ).contains(died),
    ensures
        born.position != died.position,
{
    let counted = count_grid(g);
    let grown = decay_grid(spawn_grid(counted));
    assert forall|x: int| 0 <= x < counted.len() implies (#[trigger] counted[x]).len()
        <= usize::MAX by {
        assert(counted[x].len() == g[x].len());
    }
    assert forall|x: int| 0 <= x < grown.len() implies (#[trigger] grown[x]).len()
        <= usize::MAX by {
        assert(grown[x].len() == g[x].len());
    }
    lemma_flips_are_the_flipped_cells(counted, spawn_grid(counted), born);
    lemma_flips_are_the_flipped_cells(grown, kill_grid(grown), died);
    if born.position == died.position {
        let x = born.position.x as int;
        let y = born.position.y as int;
        assert(in_grid(counted, x, y));
        assert(in_grid(grown, x, y));
        assert(spawn_grid(counted)[x][y] == spawned(counted[x][y]));
        assert(grown[x][y] == decayed(spawned(counted[x][y])));
        assert(kill_grid(grown)[x][y] == killed(grown[x][y]));
        assert(grown[x][y].decaying_ticks >= DECAY_TICKS - 1);
    }
}

} // verus!
