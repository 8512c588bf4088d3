//! Setting the board up from the list of cells that start alive.
//!
//! The list is text: one record per line, a record being two coordinates
//! with a `;` between them, `x;y`.

use vstd::prelude::*;
use vstd::slice::slice_subrange;
use crate::config::{DECAY_TICKS, MAX_HEIGHT, MAX_WIDTH};
use crate::types::{cells_valid, grid_height, in_grid, rectangular, Board, Cell, Grid, Position};

verus! {

/// The cell that a board starts with at a coordinate: alive and stable, or dead.
pub open spec fn start_cell(alive: bool) -> Cell {
    if alive {
        Cell::blank().revived()
    } else {
        Cell::blank()
    }
}

/// The flags of an alive board, `flags[x][y]`.
pub open spec fn flags_of(alive_board: Vec<Vec<bool>>) -> Seq<Seq<bool>> {
    Seq::new(alive_board@.len(), |x: int| alive_board@[x]@)
}

/// The grid that a board starts with, of the shape of the flags.
pub open spec fn start_grid(flags: Seq<Seq<bool>>) -> Grid {
    Seq::new(flags.len(), |x: int| Seq::new(flags[x].len(), |y: int| start_cell(flags[x][y])))
}

/// Every column of flags has the length of the first.
pub open spec fn rectangular_flags(flags: Seq<Seq<bool>>) -> bool {
    forall|x: int| 0 <= x < flags.len() ==> (#[trigger] flags[x]).len() == flags[0].len()
}

/// A start grid holds valid cells only, and is a rectangle where the flags are.
pub proof fn lemma_start_grid_well_formed(flags: Seq<Seq<bool>>)
    ensures
        cells_valid(start_grid(flags)),
        rectangular_flags(flags) ==> rectangular(start_grid(flags)),
{
    let g = start_grid(flags);
    assert forall|x: int, y: int| in_grid(g, x, y) implies (#[trigger] g[x][y]).valid() by {
        assert(g[x][y] == start_cell(flags[x][y]));
    }
    if rectangular_flags(flags) {
        assert forall|x: int| 0 <= x < g.len() implies (#[trigger] g[x]).len() == grid_height(g) by {
            assert(g[x].len() == flags[x].len());
            assert(g[0].len() == flags[0].len());
        }
    }
}

/// Whether the cell at `(x, y)` starts alive.
pub fn should_start_alive(x: usize, y: usize, alive_board: &Vec<Vec<bool>>) -> (alive: bool)
    requires
        x < alive_board@.len(),
        y < alive_board@[x as int]@.len(),
    ensures
        alive == flags_of(*alive_board)[x as int][y as int],
{
    alive_board[x][y]
}

/// Builds the board of the shape of `alive_board`: a cell is alive and
/// stable with a full countdown where its flag is set, and dead elsewhere.
pub fn create_board(alive_board: &Vec<Vec<bool>>) -> (board: Board)
    ensures
        board@ == start_grid(flags_of(*alive_board)),
        cells_valid(board@),
        rectangular_flags(flags_of(*alive_board)) ==> board.well_formed(),
{
    let ghost flags = flags_of(*alive_board);
    proof {
        lemma_start_grid_well_formed(flags);
    }
    let mut board: Board = Board(Vec::new());
    let mut x: usize = 0;
    while x < alive_board.len()
        invariant
            flags == flags_of(*alive_board),
            x <= alive_board@.len(),
            board.0@.len() == x,
            forall|i: int|
                0 <= i < x ==> (#[trigger] board.0@[i])@ == Seq::new(
                    flags[i].len(),
                    |y: int| start_cell(flags[i][y]),
                ),
        decreases alive_board@.len() - x,
    {
        let mut column: Vec<Cell> = Vec::new();
        let height = alive_board[x].len();
        let mut y: usize = 0;
        while y < height
            invariant
                flags == flags_of(*alive_board),
                x < alive_board@.len(),
                height == flags[x as int].len(),
                y <= height,
                column@.len() == y,
                forall|j: int| 0 <= j < y ==> #[trigger] column@[j] == start_cell(flags[x as int][j]),
            decreases height - y,
        {
            let mut cell = Cell { decaying: true, dead: true, decaying_ticks: 0, neighbors: 0 };
            if should_start_alive(x, y, alive_board) {
                cell.decaying = false;
                cell.dead = false;
                cell.decaying_ticks = DECAY_TICKS;
            }
            column.push(cell);
            y += 1;
        }
        assert(column@ =~= Seq::new(flags[x as int].len(), |y: int| start_cell(flags[x as int][y])));
        board.0.push(column);
        x += 1;
    }
    assert(board@ =~~= start_grid(flags));
    board
}

/// The byte `;`, which parts the two coordinates of a record.
pub const SEPARATOR: u8 = 59;

/// The byte `+`, which may stand before a coordinate's digits.
pub const PLUS: u8 = 43;

/// Whether `b` is a decimal digit.
pub open spec fn is_digit(b: u8) -> bool {
    48 <= b <= 57
}

/// The number that the digits of `s` write in base ten; a byte that is no
/// digit counts as zero.
pub open spec fn decimal_value(s: Seq<u8>) -> nat
    decreases s.len(),
{
    if s.len() == 0 {
        0
    } else {
        decimal_value(s.drop_last()) * 10 + (if is_digit(s.last()) {
            (s.last() - 48) as nat
        } else {
            0
        })
    }
}

/// Every byte of `s` is a decimal digit.
pub open spec fn all_digits(s: Seq<u8>) -> bool {
    forall|i: int| 0 <= i < s.len() ==> is_digit(#[trigger] s[i])
}

/// The field without the `+` that may stand at its front.
pub open spec fn unsigned_part(s: Seq<u8>) -> Seq<u8> {
    if s.len() > 0 && s[0] == PLUS {
        s.subrange(1, s.len() as int)
    } else {
        s
    }
}

/// The coordinate that a field writes: one or more decimal digits, after at
/// most one `+`, whose value fits the machine's word. Anything else writes none.
pub open spec fn coordinate(s: Seq<u8>) -> Option<usize> {
    let digits = unsigned_part(s);
    if digits.len() > 0 && all_digits(digits) && decimal_value(digits) <= usize::MAX {
        Some(decimal_value(digits) as usize)
    } else {
        None
    }
}

/// A longer run of digits never writes a smaller number than its front part.
proof fn lemma_decimal_value_grows(s: Seq<u8>, k: int)
    requires
        0 <= k <= s.len(),
    ensures
        decimal_value(s.subrange(0, k)) <= decimal_value(s),
    decreases s.len(),
{
    if k == s.len() {
        assert(s.subrange(0, k) =~= s);
    } else {
        lemma_decimal_value_grows(s.drop_last(), k);
        assert(s.drop_last().subrange(0, k) =~= s.subrange(0, k));
    }
}

/// Reads a coordinate from a field of a record.
pub fn parse_coordinate(field: &[u8]) -> (value: Option<usize>)
    ensures
        value == coordinate(field@),
{
    let start: usize = if field.len() > 0 && field[0] == PLUS { 1 } else { 0 };
    let ghost digits = unsigned_part(field@);
    assert(digits =~= field@.subrange(start as int, field@.len() as int));
    if start == field.len() {
        return None;
    }
    let mut value: usize = 0;
    let mut i: usize = start;
    while i < field.len()
        invariant
            digits == unsigned_part(field@),
            digits == field@.subrange(start as int, field@.len() as int),
            start <= i <= field@.len(),
            all_digits(digits.subrange(0, i - start)),
            value == decimal_value(digits.subrange(0, i - start)),
        decreases field@.len() - i,
    {
        let b = field[i];
        let ghost front = digits.subrange(0, i - start + 1);
        proof {
            assert(front.drop_last() =~= digits.subrange(0, i - start));
            assert(front.last() == b);
            lemma_decimal_value_grows(digits, i - start + 1);
        }
        assert(digits[i - start] == b);
        if b < 48 || b > 57 {
            assert(!all_digits(digits));
            return None;
        }
        let digit: usize = (b - 48) as usize;
        assert(decimal_value(front) == value * 10 + digit);
        if value > (usize::MAX - digit) / 10 {
            assert(decimal_value(digits) > usize::MAX);
            return None;
        }
        value = value * 10 + digit;
        i += 1;
    }
    assert(digits.subrange(0, i - start) =~= digits);
    Some(value)
}

/// What one line of the list says.
#[derive(Clone, Copy, Debug, PartialEq, Eq, Structural)]
pub enum Record {
    /// Two coordinates: the cell there starts alive.
    Alive(Position),
    /// Not two fields: the line is passed over with a warning.
    Malformed,
    /// Two fields, one of which writes no coordinate.
    Invalid,
}

/// No byte of `s` is the separator.
pub open spec fn no_separator(s: Seq<u8>) -> bool {
    forall|i: int| 0 <= i < s.len() ==> #[trigger] s[i] != SEPARATOR
}

/// The separator at `i` parts `line` into exactly two fields.
pub open spec fn splits_at(line: Seq<u8>, i: int) -> bool {
    &&& 0 <= i < line.len()
    &&& line[i] == SEPARATOR
    &&& no_separator(line.subrange(0, i))
    &&& no_separator(line.subrange(i + 1, line.len() as int))
}

/// The line has exactly two fields: exactly one separator.
pub open spec fn has_two_fields(line: Seq<u8>) -> bool {
    exists|i: int| splits_at(line, i)
}

/// Where the one separator of a line of two fields stands.
pub open spec fn separator_index(line: Seq<u8>) -> int {
    choose|i: int| splits_at(line, i)
}

/// What `line` says: malformed unless it has exactly two fields, invalid
/// unless both write a coordinate.
pub open spec fn record_of(line: Seq<u8>) -> Record {
    if !has_two_fields(line) {
        Record::Malformed
    } else {
        let i = separator_index(line);
        match (coordinate(line.subrange(0, i)), coordinate(line.subrange(i + 1, line.len() as int))) {
            (Some(x), Some(y)) => Record::Alive(Position { x, y }),
            _ => Record::Invalid,
        }
    }
}

/// A line has at most one place at which a separator parts it in two.
proof fn lemma_split_is_unique(line: Seq<u8>, i: int, k: int)
    requires
        splits_at(line, i),
        splits_at(line, k),
    ensures
        i == k,
{
    if i < k {
        assert(line.subrange(0, k)[i] == SEPARATOR);
    }
    if k < i {
        assert(line.subrange(0, i)[k] == SEPARATOR);
    }
}

/// Reads one line of the list.
pub fn parse_record(line: &[u8]) -> (record: Record)
    ensures
        record == record_of(line@),
{
    let n = line.len();
    let mut i: usize = 0;
    while i < n && line[i] != SEPARATOR
        invariant
            n == line@.len(),
            i <= n,
            forall|k: int| 0 <= k < i ==> line@[k] != SEPARATOR,
        decreases n - i,
    {
        i += 1;
    }
    if i == n {
        assert forall|k: int| !splits_at(line@, k) by {}
        return Record::Malformed;
    }
    let mut j: usize = i + 1;
    while j < n && line[j] != SEPARATOR
        invariant
            n == line@.len(),
            i < j <= n,
            forall|k: int| i < k < j ==> line@[k] != SEPARATOR,
        decreases n - j,
    {
        j += 1;
    }
    if j < n {
        assert forall|k: int| !splits_at(line@, k) by {
            if splits_at(line@, k) {
                if k <= i {
                    assert(line@.subrange(k + 1, n as int)[j - k - 1] == SEPARATOR);
                } else {
                    assert(line@.subrange(0, k)[i as int] == SEPARATOR);
                }
            }
        }
        return Record::Malformed;
    }
    proof {
        assert(splits_at(line@, i as int));
        lemma_split_is_unique(line@, i as int, separator_index(line@));
    }
    let x = parse_coordinate(slice_subrange(line, 0, i));
    let y = parse_coordinate(slice_subrange(line, i + 1, n));
    match (x, y) {
        (Some(x), Some(y)) => Record::Alive(Position { x, y }),
        _ => Record::Invalid,
    }
}

/// The byte that ends a line.
pub const LINE_FEED: u8 = 10;

/// The byte that may stand before the line feed and then belongs to the line's end.
pub const CARRIAGE_RETURN: u8 = 13;

/// Where the line that starts at `from` ends: at the first line feed from
/// there on, or at the end of the text.
pub open spec fn line_end(text: Seq<u8>, from: int) -> int
    decreases text.len() - from,
{
    if from >= text.len() {
        text.len() as int
    } else if text[from] == LINE_FEED {
        from
    } else {
        line_end(text, from + 1)
    }
}

/// Where the content of the line that starts at `from` ends: at the line's
/// end, or one byte earlier where a carriage return stands before the line feed.
pub open spec fn content_end(text: Seq<u8>, from: int) -> int {
    let end = line_end(text, from);
    if end < text.len() && from < end && text[end - 1] == CARRIAGE_RETURN {
        end - 1
    } else {
        end
    }
}

/// Where the line after the one that starts at `from` starts.
pub open spec fn next_line(text: Seq<u8>, from: int) -> int {
    let end = line_end(text, from);
    if end < text.len() {
        end + 1
    } else {
        end
    }
}

/// A line ends at or after its start, within the text.
pub proof fn lemma_line_end_bounds(text: Seq<u8>, from: int)
    requires
        from <= text.len(),
    ensures
        from <= line_end(text, from) <= text.len(),
    decreases text.len() - from,
{
    if from < text.len() && text[from] != LINE_FEED {
        lemma_line_end_bounds(text, from + 1);
    }
}

/// A line that was passed over: its number, counted from 1, and the bytes
/// of the text that hold it, from `start` up to `end`.
#[derive(Clone, Copy, Debug, PartialEq, Eq, Structural)]
pub struct Warning {
    pub line_number: usize,
    pub start: usize,
    pub end: usize,
}

/// Why a list cannot be used at all.
#[derive(Clone, Copy, Debug, PartialEq, Eq, Structural)]
pub enum ConfigError {
    /// A line of two fields, one of which writes no coordinate.
    InvalidCoordinate { line_number: usize },
    /// A cell that lies off the board.
    OutOfBounds { line_number: usize, x: usize, y: usize },
}

/// The model of a reading that an error ended.
pub ghost struct Failing {
    pub error: ConfigError,
    pub warnings: Seq<Warning>,
}

/// A reading that an error ended: the error, and a warning for each line
/// that was passed over before it.
#[derive(Clone, Debug, PartialEq, Eq)]
pub struct Failure {
    pub error: ConfigError,
    pub warnings: Vec<Warning>,
}

impl View for Failure {
    type V = Failing;

    open spec fn view(&self) -> Failing {
        Failing { error: self.error, warnings: self.warnings@ }
    }
}

/// The model of what has been read so far: the flags and the warnings.
pub ghost struct Loading {
    pub flags: Seq<Seq<bool>>,
    pub warnings: Seq<Warning>,
}

/// What a list gives: the flags of the cells that start alive, and a
/// warning for each line that was passed over.
#[derive(Clone, Debug, PartialEq, Eq)]
pub struct Loaded {
    pub alive_board: Vec<Vec<bool>>,
    pub warnings: Vec<Warning>,
}

impl View for Loaded {
    type V = Loading;

    open spec fn view(&self) -> Loading {
        Loading { flags: flags_of(self.alive_board), warnings: self.warnings@ }
    }
}

/// Flags of the given shape, none of them set.
pub open spec fn blank_flags(width: int, height: int) -> Seq<Seq<bool>> {
    Seq::new(width as nat, |x: int| Seq::new(height as nat, |y: int| false))
}

/// The flags are `width` columns of `height` flags each.
pub open spec fn has_shape(flags: Seq<Seq<bool>>, width: int, height: int) -> bool {
    &&& flags.len() == width
    &&& forall|x: int| 0 <= x < width ==> (#[trigger] flags[x]).len() == height
}

/// What the line that starts at `from`, the `line_number`th, adds to what
/// has been read: a flag, a warning, or the error that ends the reading.
pub open spec fn load_step(state: Loading, text: Seq<u8>, from: int, line_number: int) -> Result<
    Loading,
    Failing,
> {
    let stop = content_end(text, from);
    match record_of(text.subrange(from, stop)) {
        Record::Malformed => Ok(
            Loading {
                warnings: state.warnings.push(
                    Warning {
                        line_number: line_number as usize,
                        start: from as usize,
                        end: stop as usize,
                    },
                ),
                ..state
            },
        ),
        Record::Invalid => Err(
            Failing {
                error: ConfigError::InvalidCoordinate { line_number: line_number as usize },
                warnings: state.warnings,
            },
        ),
        Record::Alive(p) => if p.x >= MAX_WIDTH || p.y >= MAX_HEIGHT {
            Err(
                Failing {
                    error: ConfigError::OutOfBounds {
                        line_number: line_number as usize,
                        x: p.x,
                        y: p.y,
                    },
                    warnings: state.warnings,
                },
            )
        } else {
            Ok(
                Loading {
                    flags: state.flags.update(
                        p.x as int,
                        state.flags[p.x as int].update(p.y as int, true),
                    ),
                    ..state
                },
            )
        },
    }
}

/// What reading the lines from `from` on adds to `state`, `lines_read`
/// lines having been read before: the first error ends the reading.
pub open spec fn load_from(state: Loading, text: Seq<u8>, from: int, lines_read: int) -> Result<
    Loading,
    Failing,
>
    decreases text.len() - from,
    via load_from_decreases
{
    if from >= text.len() {
        Ok(state)
    } else {
        match load_step(state, text, from, lines_read + 1) {
            Err(e) => Err(e),
            Ok(next) => load_from(next, text, next_line(text, from), lines_read + 1),
        }
    }
}

/// Each line read brings the reading nearer to the end of the text.
#[via_fn]
proof fn load_from_decreases(state: Loading, text: Seq<u8>, from: int, lines_read: int) {
    if from < text.len() {
        lemma_line_end_bounds(text, from);
    }
}

/// What a whole list gives on a board of the configured size.
pub open spec fn load(text: Seq<u8>) -> Result<Loading, Failing> {
    load_from(
        Loading { flags: blank_flags(MAX_WIDTH as int, MAX_HEIGHT as int), warnings: Seq::empty() },
        text,
        0,
        0,
    )
}

/// Flags of the given shape, none of them set.
pub fn blank_board(width: usize, height: usize) -> (alive_board: Vec<Vec<bool>>)
    ensures
        flags_of(alive_board) == blank_flags(width as int, height as int),
{
    let mut alive_board: Vec<Vec<bool>> = Vec::new();
    let mut x: usize = 0;
    while x < width
        invariant
            x <= width,
            alive_board@.len() == x,
            forall|i: int|
                0 <= i < x ==> (#[trigger] alive_board@[i])@ == Seq::new(
                    height as nat,
                    |y: int| false,
                ),
        decreases width - x,
    {
        let mut column: Vec<bool> = Vec::new();
        let mut y: usize = 0;
        while y < height
            invariant
                y <= height,
                column@.len() == y,
                forall|j: int| 0 <= j < y ==> #[trigger] column@[j] == false,
            decreases height - y,
        {
            column.push(false);
            y += 1;
        }
        assert(column@ =~= Seq::new(height as nat, |y: int| false));
        alive_board.push(column);
        x += 1;
    }
    assert(flags_of(alive_board) =~~= blank_flags(width as int, height as int));
    alive_board
}

/// Sets the flag at `(x, y)`.
pub fn mark_alive(alive_board: &mut Vec<Vec<bool>>, x: usize, y: usize)
    requires
        x < old(alive_board)@.len(),
        y < old(alive_board)@[x as int]@.len(),
    ensures
        flags_of(*final(alive_board)) == flags_of(*old(alive_board)).update(
            x as int,
            flags_of(*old(alive_board))[x as int].update(y as int, true),
        ),
{
    alive_board[x][y] = true;
    assert(flags_of(*alive_board) =~~= flags_of(*old(alive_board)).update(
        x as int,
        flags_of(*old(alive_board))[x as int].update(y as int, true),
    ));
}

/// Reads the list of the cells that start alive, for a board of the
/// configured size. A line that has not exactly two fields is passed over
/// with a warning. A field that writes no coordinate, or a cell off the
/// board, is an error, and the first one ends the reading.
pub fn read_alive_board(text: &[u8]) -> (loaded: Result<Loaded, Failure>)
    ensures
        match loaded {
            Ok(l) => load(text@) == Ok::<Loading, Failing>(l@),
            Err(f) => load(text@) == Err::<Loading, Failing>(f@),
        },
        loaded is Ok ==> has_shape(loaded->Ok_0@.flags, MAX_WIDTH as int, MAX_HEIGHT as int),
{
    let mut alive_board = blank_board(MAX_WIDTH, MAX_HEIGHT);
    let mut warnings: Vec<Warning> = Vec::new();
    let mut line_number: usize = 0;
    let mut pos: usize = 0;
    while pos < text.len()
        invariant
            pos <= text@.len(),
            line_number <= pos,
            has_shape(flags_of(alive_board), MAX_WIDTH as int, MAX_HEIGHT as int),
            load(text@) == load_from(
                Loading { flags: flags_of(alive_board), warnings: warnings@ },
                text@,
                pos as int,
                line_number as int,
            ),
        decreases text@.len() - pos,
    {
        let mut end: usize = pos;
        while end < text.len() && text[end] != LINE_FEED
            invariant
                pos <= end <= text@.len(),
                line_end(text@, end as int) == line_end(text@, pos as int),
            decreases text@.len() - end,
        {
            end += 1;
        }
        let next: usize = if end < text.len() { end + 1 } else { end };
        let stop: usize = if end < text.len() && pos < end && text[end - 1] == CARRIAGE_RETURN {
            end - 1
        } else {
            end
        };
        assert(end == line_end(text@, pos as int));
        assert(stop == content_end(text@, pos as int));
        assert(next == next_line(text@, pos as int));
        let record = parse_record(slice_subrange(text, pos, stop));
        line_number += 1;
        match record {
            Record::Malformed => {
                warnings.push(Warning { line_number, start: pos, end: stop });
            },
            Record::Invalid => {
                return Err(
                    Failure { error: ConfigError::InvalidCoordinate { line_number }, warnings },
                );
            },
            Record::Alive(p) => {
                if p.x >= MAX_WIDTH || p.y >= MAX_HEIGHT {
                    return Err(
                        Failure {
                            error: ConfigError::OutOfBounds { line_number, x: p.x, y: p.y },
                            warnings,
                        },
                    );
                }
                assert(flags_of(alive_board)[p.x as int].len() == MAX_HEIGHT);
                mark_alive(&mut alive_board, p.x, p.y);
            },
        }
        pos = next;
    }
    Ok(Loaded { alive_board, warnings })
}

} // verus!
