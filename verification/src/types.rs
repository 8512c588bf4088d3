//! The data model: cells, the board that owns them, and coordinates.

use vstd::prelude::*;
use crate::config::DECAY_TICKS;
use crate::ticks_processor::limited_positive_range;

verus! {

/// One cell of the board.
#[derive(Clone, Copy, Debug, PartialEq, Eq, Structural)]
pub struct Cell {
    /// Set once the cell has lost its survival condition.
    pub decaying: bool,
    /// Ticks left before a decaying cell dies.
    pub decaying_ticks: u32,
    /// Set while the cell is not alive.
    pub dead: bool,
    /// Living neighbours found by the latest counting pass.
    pub neighbors: u32,
}

impl Cell {
    /// The countdown never exceeds the configured decay duration.
    pub open spec fn valid(self) -> bool {
        self.decaying_ticks <= DECAY_TICKS
    }

    /// The state of a cell that has never lived.
    pub open spec fn blank() -> Cell {
        Cell { decaying: true, decaying_ticks: 0, dead: true, neighbors: 0 }
    }

    /// The state of a cell that has just come alive, keeping its cached count.
    pub open spec fn revived(self) -> Cell {
        Cell { decaying: false, decaying_ticks: DECAY_TICKS, dead: false, neighbors: self.neighbors }
    }

    /// A cell that has just come alive, with no neighbours counted yet.
    pub fn alive() -> (c: Cell)
        ensures
            c == Cell::blank().revived(),
            c.valid(),
    {
        Cell { decaying: false, decaying_ticks: DECAY_TICKS, dead: false, neighbors: 0 }
    }
}

impl Default for Cell {
    fn default() -> (c: Cell)
        ensures
            c == Cell::blank(),
    {
        Cell { decaying: true, dead: true, decaying_ticks: 0, neighbors: 0 }
    }
}

/// A coordinate on the board: column `x`, row `y`.
#[derive(Clone, Copy, Debug, PartialEq, Eq, Structural)]
pub struct Position {
    pub x: usize,
    pub y: usize,
}

/// A cell whose `dead` flag flipped, with the flag's new value.
#[derive(Clone, Copy, Debug, PartialEq, Eq, Structural)]
pub struct Change {
    pub position: Position,
    pub dead: bool,
}

/// The timer between two ticks: a repeating timer, in nanoseconds.
#[derive(Clone, Copy, Debug, PartialEq, Eq, Structural)]
pub struct FrameTimer {
    /// The time from one tick to the next.
    pub interval_nanos: u64,
    /// The time that has passed since the last tick was due.
    pub elapsed_nanos: u64,
}

/// The mathematical model of a board: columns of cells, `grid[x][y]`.
pub type Grid = Seq<Seq<Cell>>;

/// The height of a grid: the length of its first column, 0 without columns.
pub open spec fn grid_height(g: Grid) -> int {
    if g.len() == 0 {
        0
    } else {
        g[0].len() as int
    }
}

/// Whether `(x, y)` addresses a cell of `g`.
pub open spec fn in_grid(g: Grid, x: int, y: int) -> bool {
    0 <= x < g.len() && 0 <= y < g[x].len()
}

/// Every column has the same length.
pub open spec fn rectangular(g: Grid) -> bool {
    forall|x: int| 0 <= x < g.len() ==> (#[trigger] g[x]).len() == grid_height(g)
}

/// Every cell's countdown is within the decay duration.
pub open spec fn cells_valid(g: Grid) -> bool {
    forall|x: int, y: int| in_grid(g, x, y) ==> (#[trigger] g[x][y]).valid()
}

/// Two grids have the same shape.
pub open spec fn same_shape(a: Grid, b: Grid) -> bool {
    &&& a.len() == b.len()
    &&& forall|x: int| 0 <= x < a.len() ==> (#[trigger] a[x]).len() == b[x].len()
}

/// The board: a rectangle of cells stored by column, `board.0[x][y]`.
#[derive(Clone, Debug, PartialEq, Eq)]
pub struct Board(pub Vec<Vec<Cell>>);

impl View for Board {
    type V = Grid;

    open spec fn view(&self) -> Grid {
        Seq::new(self.0@.len(), |x: int| self.0@[x]@)
    }
}

impl Board {
    /// The board is a rectangle and every cell on it is valid.
    pub open spec fn well_formed(&self) -> bool {
        rectangular(self@) && cells_valid(self@)
    }

    /// The number of columns.
    pub fn width(&self) -> (w: usize)
        ensures
            w == self@.len(),
    {
        self.0.len()
    }

    /// The number of rows.
    pub fn height(&self) -> (h: usize)
        ensures
            h == grid_height(self@),
    {
        if self.0.len() == 0 {
            0
        } else {
            self.0[0].len()
        }
    }

    /// Tells whether every column has the same length.
    pub fn is_rectangular(&self) -> (r: bool)
        ensures
            r == rectangular(self@),
    {
        let height = self.height();
        let mut x: usize = 0;
        while x < self.0.len()
            invariant
                height == grid_height(self@),
                x <= self@.len(),
                forall|i: int| 0 <= i < x ==> (#[trigger] self@[i]).len() == height,
            decreases self@.len() - x,
        {
            if self.0[x].len() != height {
                assert(self@[x as int].len() != grid_height(self@));
                return false;
            }
            x += 1;
        }
        true
    }

    /// The cell at `(x, y)`.
    pub fn get(&self, x: usize, y: usize) -> (c: Cell)
        requires
            in_grid(self@, x as int, y as int),
        ensures
            c == self@[x as int][y as int],
    {
        self.0[x][y]
    }

    /// Replaces the cell at `(x, y)`; every other cell stays.
    pub fn set(&mut self, x: usize, y: usize, cell: Cell)
        requires
            in_grid(old(self)@, x as int, y as int),
        ensures
            final(self)@ == old(self)@.update(x as int, old(self)@[x as int].update(y as int, cell)),
    {
        self.0[x][y] = cell;
        assert(self@ =~~= old(self)@.update(x as int, old(self)@[x as int].update(y as int, cell)));
    }

    /// Every coordinate of the board exactly once, by column and then by row.
    pub fn coordinates(&self) -> (all: Vec<Position>)
        ensures
            all@ == grid_coordinates(self@, self@.len() as int),
    {
        let mut all: Vec<Position> = Vec::new();
        let mut x: usize = 0;
        while x < self.0.len()
            invariant
                x <= self@.len(),
                all@ == grid_coordinates(self@, x as int),
            decreases self@.len() - x,
        {
            let height = self.0[x].len();
            let mut y: usize = 0;
            while y < height
                invariant
                    x < self@.len(),
                    height == self@[x as int].len(),
                    y <= height,
                    all@ == grid_coordinates(self@, x as int) + column_coordinates(
                        x as int,
                        y as int,
                    ),
                decreases height - y,
            {
                all.push(Position { x, y });
                assert(all@ =~= grid_coordinates(self@, x as int) + column_coordinates(
                    x as int,
                    y + 1,
                ));
                y += 1;
            }
            x += 1;
        }
        all
    }

    /// The coordinates of the cells round `(x, y)`, by column and then by
    /// row: those of the eight that lie on the board.
    pub fn neighbor_coordinates(&self, x: usize, y: usize) -> (found: Vec<Position>)
        requires
            rectangular(self@),
            in_grid(self@, x as int, y as int),
        ensures
            found@ == neighbor_coordinates(self@, x as int, y as int),
    {
        let ghost g = self@;
        let width = self.0.len();
        let height = self.0[x].len();
        let xs = limited_positive_range(if x > 0 { x - 1 } else { 0 }, x + 1, width);
        let ys = limited_positive_range(if y > 0 { y - 1 } else { 0 }, y + 1, height);
        let mut found: Vec<Position> = Vec::new();
        let mut ax = xs.start;
        proof {
            lemma_columns_start(g, x as int, y as int);
        }
        while ax < xs.end
            invariant
                rectangular(g),
                in_grid(g, x as int, y as int),
                width == g.len(),
                height == g[x as int].len(),
                xs.start == if x > 0 { x - 1 } else { 0 },
                xs.end == if x + 2 < width { x + 2 } else { width as int },
                ys.start == if y > 0 { y - 1 } else { 0 },
                ys.end == if y + 2 < height { y + 2 } else { height as int },
                xs.start <= ax <= xs.end,
                found@ == candidates_before(g, x as int, y as int, ax as int),
            decreases xs.end - ax,
        {
            assert(g[ax as int].len() == height);
            let mut ay = ys.start;
            proof {
                lemma_column_start(g, x as int, y as int, ax as int);
                assert(found@ =~= candidates_before(g, x as int, y as int, ax as int)
                    + column_candidates(g, x as int, y as int, ax as int, ay as int));
            }
            while ay < ys.end
                invariant
                    rectangular(g),
                    in_grid(g, x as int, y as int),
                    width == g.len(),
                    height == g[x as int].len(),
                    height == g[ax as int].len(),
                    ys.start == if y > 0 { y - 1 } else { 0 },
                    ys.end == if y + 2 < height { y + 2 } else { height as int },
                    xs.start == if x > 0 { x - 1 } else { 0 },
                    xs.end == if x + 2 < width { x + 2 } else { width as int },
                    xs.start <= ax < xs.end,
                    ys.start <= ay <= ys.end,
                    found@ == candidates_before(g, x as int, y as int, ax as int)
                        + column_candidates(g, x as int, y as int, ax as int, ay as int),
                decreases ys.end - ay,
            {
                if !(ax == x && ay == y) {
                    found.push(Position { x: ax, y: ay });
                }
                proof {
                    lemma_column_step(g, x as int, y as int, ax as int, ay as int);
                    assert(found@ =~= candidates_before(g, x as int, y as int, ax as int)
                        + column_candidates(g, x as int, y as int, ax as int, ay + 1));
                }
                ay += 1;
            }
            proof {
                lemma_columns_step(g, x as int, y as int, ax as int);
                assert(found@ =~= candidates_before(g, x as int, y as int, ax + 1));
            }
            ax += 1;
        }
        proof {
            lemma_columns_end(g, x as int, y as int);
        }
        found
    }
}

/// The coordinate `(i, j)` as a one-element sequence where it lies on the
/// grid, and the empty sequence where it does not.
pub open spec fn candidate(g: Grid, i: int, j: int) -> Seq<Position> {
    if in_grid(g, i, j) {
        seq![Position { x: i as usize, y: j as usize }]
    } else {
        Seq::empty()
    }
}

/// The coordinates round `(x, y)` that lie on the grid: up to eight, by
/// column and then by row, cut off at the edges and never wrapped round.
pub open spec fn neighbor_coordinates(g: Grid, x: int, y: int) -> Seq<Position> {
    candidate(g, x - 1, y - 1) + candidate(g, x - 1, y) + candidate(g, x - 1, y + 1)
        + candidate(g, x, y - 1) + candidate(g, x, y + 1)
        + candidate(g, x + 1, y - 1) + candidate(g, x + 1, y) + candidate(g, x + 1, y + 1)
}

/// On a rectangle at least two cells wide and two cells tall, a corner has
/// exactly 3 neighbour coordinates, any other cell on an edge exactly 5, and
/// a cell off the edges exactly 8.
pub proof fn lemma_neighbor_coordinates_len(g: Grid, x: int, y: int)
    requires
        rectangular(g),
        in_grid(g, x, y),
        g.len() >= 2,
        grid_height(g) >= 2,
    ensures
        neighbor_coordinates(g, x, y).len() == if on_edge(g.len() as int, x) && on_edge(
            grid_height(g),
            y,
        ) {
            3int
        } else if on_edge(g.len() as int, x) || on_edge(grid_height(g), y) {
            5int
        } else {
            8int
        },
{
    assert(g[x].len() == grid_height(g));
    if x > 0 {
        assert(g[x - 1].len() == grid_height(g));
    }
    if x + 1 < g.len() {
        assert(g[x + 1].len() == grid_height(g));
    }
}

/// Whether index `i` is the first or the last of `n`.
pub open spec fn on_edge(n: int, i: int) -> bool {
    i == 0 || i == n - 1
}

/// The candidates in column `i` of the window round `(x, y)`, in rows below `ay`.
spec fn column_candidates(g: Grid, x: int, y: int, i: int, ay: int) -> Seq<Position> {
    (if ay > y - 1 { candidate(g, i, y - 1) } else { Seq::empty() })
        + (if ay > y && i != x { candidate(g, i, y) } else { Seq::empty() })
        + (if ay > y + 1 { candidate(g, i, y + 1) } else { Seq::empty() })
}

/// The candidates of the window round `(x, y)` in columns below `ax`.
spec fn candidates_before(g: Grid, x: int, y: int, ax: int) -> Seq<Position> {
    (if ax > x - 1 { column_candidates(g, x, y, x - 1, y + 2) } else { Seq::empty() })
        + (if ax > x { column_candidates(g, x, y, x, y + 2) } else { Seq::empty() })
        + (if ax > x + 1 { column_candidates(g, x, y, x + 1, y + 2) } else { Seq::empty() })
}

/// The one-element sequence of `(i, j)`, or nothing for the centre `(x, y)`.
spec fn step_candidate(x: int, y: int, i: int, j: int) -> Seq<Position> {
    if i == x && j == y {
        Seq::empty()
    } else {
        seq![Position { x: i as usize, y: j as usize }]
    }
}

/// Nothing of a column has been collected at the first row of the window.
proof fn lemma_column_start(g: Grid, x: int, y: int, i: int)
    ensures
        column_candidates(g, x, y, i, if y > 0 { y - 1 } else { 0 }) == Seq::<Position>::empty(),
{
    assert(column_candidates(g, x, y, i, if y > 0 { y - 1 } else { 0 })
        =~= Seq::<Position>::empty());
}

/// One more row of a column adds that row's coordinate, the centre left out.
proof fn lemma_column_step(g: Grid, x: int, y: int, i: int, ay: int)
    requires
        in_grid(g, i, ay),
        y - 1 <= ay <= y + 1,
    ensures
        column_candidates(g, x, y, i, ay + 1) == column_candidates(g, x, y, i, ay)
            + step_candidate(x, y, i, ay),
{
    assert(column_candidates(g, x, y, i, ay + 1) =~= column_candidates(g, x, y, i, ay)
        + step_candidate(x, y, i, ay));
}

/// Nothing has been collected at the first column of the window.
proof fn lemma_columns_start(g: Grid, x: int, y: int)
    ensures
        candidates_before(g, x, y, if x > 0 { x - 1 } else { 0 }) == Seq::<Position>::empty(),
{
    assert(column_candidates(g, x, y, -1, y + 2) =~= Seq::<Position>::empty());
    assert(candidates_before(g, x, y, if x > 0 { x - 1 } else { 0 })
        =~= Seq::<Position>::empty());
}

/// One more column adds that column's part of the window, cut off at the top edge.
proof fn lemma_columns_step(g: Grid, x: int, y: int, ax: int)
    requires
        rectangular(g),
        in_grid(g, x, y),
        0 <= ax < g.len(),
        x - 1 <= ax <= x + 1,
    ensures
        candidates_before(g, x, y, ax + 1) == candidates_before(g, x, y, ax) + column_candidates(
            g,
            x,
            y,
            ax,
            if y + 2 < g[x].len() { y + 2 } else { g[x].len() as int },
        ),
{
    let h = g[x].len() as int;
    assert(g[ax].len() == h);
    let top = if y + 2 < h { y + 2 } else { h };
    assert(column_candidates(g, x, y, ax, top) =~= column_candidates(g, x, y, ax, y + 2));
    assert(candidates_before(g, x, y, ax + 1) =~= candidates_before(g, x, y, ax)
        + column_candidates(g, x, y, ax, y + 2));
}

/// The whole window, cut off at the right edge, is the neighbour coordinates.
proof fn lemma_columns_end(g: Grid, x: int, y: int)
    requires
        in_grid(g, x, y),
    ensures
        candidates_before(g, x, y, if x + 2 < g.len() { x + 2 } else { g.len() as int })
            == neighbor_coordinates(g, x, y),
{
    let end = if x + 2 < g.len() { x + 2 } else { g.len() as int };
    assert(column_candidates(g, x, y, x - 1, y + 2) =~= candidate(g, x - 1, y - 1) + candidate(
        g,
        x - 1,
        y,
    ) + candidate(g, x - 1, y + 1));
    assert(column_candidates(g, x, y, x, y + 2) =~= candidate(g, x, y - 1) + candidate(
        g,
        x,
        y + 1,
    ));
    assert(column_candidates(g, x, y, x + 1, y + 2) =~= candidate(g, x + 1, y - 1) + candidate(
        g,
        x + 1,
        y,
    ) + candidate(g, x + 1, y + 1));
    if end < x + 2 {
        assert(column_candidates(g, x, y, x + 1, y + 2) =~= Seq::<Position>::empty());
    }
    assert(candidates_before(g, x, y, end) =~= neighbor_coordinates(g, x, y));
}

/// The first `n` coordinates of column `x`, by row.
pub open spec fn column_coordinates(x: int, n: int) -> Seq<Position> {
    Seq::new(n as nat, |y: int| Position { x: x as usize, y: y as usize })
}

/// The coordinates of the first `n` columns of a grid, column after column.
pub open spec fn grid_coordinates(g: Grid, n: int) -> Seq<Position>
    decreases n,
{
    if n <= 0 {
        Seq::empty()
    } else {
        grid_coordinates(g, n - 1) + column_coordinates(n - 1, g[n - 1].len() as int)
    }
}

} // verus!
