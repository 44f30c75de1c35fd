use vstd::prelude::*;

use crate::cell::Cell;
use crate::grid::Grid;
use crate::minefield::{clear_mines, dig, kaboom, Minefield};

verus! {

#[derive(Clone, Copy, Debug, PartialEq, Eq, Structural)]
pub enum Direction {
    Up,
    Down,
    Left,
    Right,
}

/// What the player asks for. `Move` carries whether the move is extended (a
/// modifier key is held).
#[derive(Clone, Copy, Debug, PartialEq, Eq, Structural)]
pub enum Action {
    Move(Direction, bool),
    ToggleFlag,
    Dig,
    DigArea,
    Quit,
}

#[derive(Clone, Copy, Debug, PartialEq, Eq, Structural)]
pub enum Status {
    Playing,
    Won,
    Lost,
    Quit,
}

/// A game in progress: the board, the cursor, and whether the player has dug
/// yet.
pub struct Game {
    pub field: Minefield,
    pub row: usize,
    pub col: usize,
    pub first_move_taken: bool,
    pub status: Status,
}

pub struct GameView {
    pub grid: Grid,
    pub row: int,
    pub col: int,
    pub first_move_taken: bool,
    pub status: Status,
}

/// Whether square `k` of a line of the board (a column when `vertical`, a row
/// otherwise) is revealed.
pub open spec fn line_revealed(g: Grid, vertical: bool, fixed: int, k: int) -> bool {
    if vertical {
        g.cell(k, fixed).is_revealed
    } else {
        g.cell(fixed, k).is_revealed
    }
}

/// A slide along a line from `from` towards higher indices ends at `to`: it
/// goes no further than `limit`, and stops early only on the first square
/// whose revealed state differs from that of `from`.
pub open spec fn slides_forward(g: Grid, vertical: bool, fixed: int, from: int, to: int, limit: int) -> bool {
    &&& from <= to <= limit
    &&& forall|k: int| from < k < to ==> #[trigger] line_revealed(g, vertical, fixed, k) == line_revealed(g, vertical, fixed, from)
    &&& to == limit || line_revealed(g, vertical, fixed, to) != line_revealed(g, vertical, fixed, from)
}

/// The same towards lower indices.
pub open spec fn slides_backward(g: Grid, vertical: bool, fixed: int, from: int, to: int, limit: int) -> bool {
    &&& limit <= to <= from
    &&& forall|k: int| to < k < from ==> #[trigger] line_revealed(g, vertical, fixed, k) == line_revealed(g, vertical, fixed, from)
    &&& to == limit || line_revealed(g, vertical, fixed, to) != line_revealed(g, vertical, fixed, from)
}

pub open spec fn min(a: int, b: int) -> int {
    if a < b {
        a
    } else {
        b
    }
}

pub open spec fn max(a: int, b: int) -> int {
    if a > b {
        a
    } else {
        b
    }
}

impl GameView {
    pub open spec fn wf(self) -> bool {
        &&& self.grid.wf()
        &&& self.grid.rows >= 1
        &&& self.grid.cols >= 1
        &&& self.grid.in_bounds(self.row, self.col)
    }

    /// The cursor after a one-square move, wrapping around at the edges.
    pub open spec fn wrapped(self, dir: Direction) -> (int, int) {
        let rows = self.grid.rows as int;
        let cols = self.grid.cols as int;
        match dir {
            Direction::Up => ((self.row + rows - 1) % rows, self.col),
            Direction::Down => ((self.row + 1) % rows, self.col),
            Direction::Left => (self.row, (self.col + cols - 1) % cols),
            Direction::Right => (self.row, (self.col + 1) % cols),
        }
    }

    /// `next` is this game after the cursor has moved: one square with
    /// wrap-around, or, when `extended`, a slide of at most half the board
    /// that stops at the edge or on the first square whose revealed state
    /// differs from the starting one.
    pub open spec fn moved(self, next: GameView, dir: Direction, extended: bool) -> bool {
        let g = self.grid;
        &&& next.grid == g
        &&& next.first_move_taken == self.first_move_taken
        &&& next.status == self.status
        &&& if !extended {
            (next.row, next.col) == self.wrapped(dir)
        } else {
            match dir {
                Direction::Down => next.col == self.col && slides_forward(g, true, self.col, self.row, next.row,
                    min(self.row + g.rows / 2, g.rows - 1)),
                Direction::Up => next.col == self.col && slides_backward(g, true, self.col, self.row, next.row,
                    max(self.row - g.rows / 2, 0)),
                Direction::Right => next.row == self.row && slides_forward(g, false, self.row, self.col, next.col,
                    min(self.col + g.cols / 2, g.cols - 1)),
                Direction::Left => next.row == self.row && slides_backward(g, false, self.row, self.col, next.col,
                    max(self.col - g.cols / 2, 0)),
            }
        }
    }

    /// The game after a flag toggle under the cursor; a revealed square
    /// cannot be flagged.
    pub open spec fn toggled(self) -> GameView {
        let x = self.grid.cell(self.row, self.col);
        if x.is_revealed {
            self
        } else {
            GameView { grid: self.grid.with_cell(self.row, self.col, Cell { is_flagged: !x.is_flagged, ..x }), ..self }
        }
    }

    /// Before the first dig of a game, the 3x3 block under the cursor is
    /// cleared of mines and the counts recomputed.
    pub open spec fn safe_start(self) -> GameView {
        if self.first_move_taken {
            self
        } else {
            GameView {
                grid: self.grid.cleared_around(self.row, self.col).recounted(),
                first_move_taken: true,
                ..self
            }
        }
    }

    /// The game after a dig at `(r, c)`: digging a mine that is not flagged
    /// loses the game and uncovers every mine.
    pub open spec fn dug_at(self, r: int, c: int) -> GameView {
        let g = self.grid.dug(r, c);
        if self.grid.in_bounds(r, c) && g.cell(r, c).detonates() {
            GameView { grid: g.exploded(), status: Status::Lost, ..self }
        } else {
            GameView { grid: g, ..self }
        }
    }

    /// The game after a dig under the cursor.
    pub open spec fn dug_here(self) -> GameView {
        self.safe_start().dug_at(self.row, self.col)
    }

    /// The squares `k..9` of the 3x3 block under the cursor (row by row) are
    /// dug in turn, up to the first that loses the game.
    pub open spec fn dug_block_from(self, k: nat) -> GameView
        decreases 9 - k,
    {
        if k >= 9 || self.status == Status::Lost {
            self
        } else {
            self.dug_at(self.row + k / 3 - 1, self.col + k % 3 - 1).dug_block_from(k + 1)
        }
    }

    /// The game after a dig of the whole 3x3 block under the cursor.
    pub open spec fn dug_block(self) -> GameView {
        self.dug_block_from(0)
    }

    /// A game still in play whose board is won becomes won.
    pub open spec fn turn_ended(self) -> GameView {
        if self.status == Status::Playing && self.grid.won() {
            GameView { status: Status::Won, ..self }
        } else {
            self
        }
    }
}

impl View for Game {
    type V = GameView;

    open spec fn view(&self) -> GameView {
        GameView {
            grid: self.field@,
            row: self.row as int,
            col: self.col as int,
            first_move_taken: self.first_move_taken,
            status: self.status,
        }
    }
}

/// Slides along a line towards higher indices, from `from` for at most
/// `steps` squares and never past `last`.
fn slide_forward(field: &Minefield, vertical: bool, fixed: usize, from: usize, steps: usize, last: usize) -> (to: usize)
    requires
        field@.wf(),
        from <= last,
        vertical ==> last < field@.rows && fixed < field@.cols,
        !vertical ==> last < field@.cols && fixed < field@.rows,
    ensures
        slides_forward(field@, vertical, fixed as int, from as int, to as int, min(from + steps, last as int)),
{
    let start = revealed_on_line(field, vertical, fixed, from);
    let mut to = from;
    let mut left = steps;
    let mut stop = false;
    while !stop && to < last && left > 0
        invariant
            field@.wf(),
            from <= to <= last,
            vertical ==> last < field@.rows && fixed < field@.cols,
            !vertical ==> last < field@.cols && fixed < field@.rows,
            to - from + left == steps,
            start == line_revealed(field@, vertical, fixed as int, from as int),
            forall|k: int| from < k < to ==> #[trigger] line_revealed(field@, vertical, fixed as int, k) == start,
            stop ==> line_revealed(field@, vertical, fixed as int, to as int) != start,
            !stop ==> to == from || line_revealed(field@, vertical, fixed as int, to as int) == start,
        decreases last - to,
    {
        to += 1;
        left -= 1;
        if revealed_on_line(field, vertical, fixed, to) != start {
            stop = true;
        }
    }
    to
}

/// Slides along a line towards lower indices, from `from` for at most
/// `steps` squares and never below 0.
fn slide_backward(field: &Minefield, vertical: bool, fixed: usize, from: usize, steps: usize) -> (to: usize)
    requires
        field@.wf(),
        vertical ==> from < field@.rows && fixed < field@.cols,
        !vertical ==> from < field@.cols && fixed < field@.rows,
    ensures
        slides_backward(field@, vertical, fixed as int, from as int, to as int, max(from - steps, 0)),
{
    let start = revealed_on_line(field, vertical, fixed, from);
    let mut to = from;
    let mut left = steps;
    let mut stop = false;
    while !stop && to > 0 && left > 0
        invariant
            field@.wf(),
            to <= from,
            vertical ==> from < field@.rows && fixed < field@.cols,
            !vertical ==> from < field@.cols && fixed < field@.rows,
            from - to + left == steps,
            start == line_revealed(field@, vertical, fixed as int, from as int),
            forall|k: int| to < k < from ==> #[trigger] line_revealed(field@, vertical, fixed as int, k) == start,
            stop ==> line_revealed(field@, vertical, fixed as int, to as int) != start,
            !stop ==> to == from || line_revealed(field@, vertical, fixed as int, to as int) == start,
        decreases to,
    {
        to -= 1;
        left -= 1;
        if revealed_on_line(field, vertical, fixed, to) != start {
            stop = true;
        }
    }
    to
}

fn revealed_on_line(field: &Minefield, vertical: bool, fixed: usize, k: usize) -> (r: bool)
    requires
        field@.wf(),
        vertical ==> k < field@.rows && fixed < field@.cols,
        !vertical ==> k < field@.cols && fixed < field@.rows,
    ensures
        r == line_revealed(field@, vertical, fixed as int, k as int),
{
    let cell = if vertical {
        field.get(k, fixed)
    } else {
        field.get(fixed, k)
    };
    match cell {
        Some(x) => x.is_revealed,
        None => false,
    }
}

impl Game {
    /// A game on `field`, with the cursor in the top-left corner and no dig
    /// made yet.
    pub fn new(field: Minefield) -> (r: Game)
        requires
            field@.wf(),
            field@.rows >= 1,
            field@.cols >= 1,
        ensures
            r@ == (GameView { grid: field@, row: 0, col: 0, first_move_taken: false, status: Status::Playing }),
            r@.wf(),
    {
        Game { field, row: 0, col: 0, first_move_taken: false, status: Status::Playing }
    }

    /// Moves the cursor one square, wrapping around at the edges, or, when
    /// `extended`, slides it up to half the board until the revealed state
    /// changes or the edge is reached.
    pub fn move_cursor(&mut self, dir: Direction, extended: bool)
        requires
            old(self)@.wf(),
        ensures
            old(self)@.moved(final(self)@, dir, extended),
            final(self)@.wf(),
    {
        let rows = self.field.rows();
        let cols = self.field.cols();
        if !extended {
            match dir {
                Direction::Up => {
                    self.row = if self.row == 0 { rows - 1 } else { self.row - 1 };
                    proof {
                        let (r, n) = (old(self).row as int, rows as int);
                        assert(self.row == (r + n - 1) % n) by (nonlinear_arith)
                            requires
                                0 <= r < n,
                                self.row == if r == 0 { n - 1 } else { r - 1 },
                        ;
                    }
                },
                Direction::Down => {
                    self.row = if self.row + 1 == rows { 0 } else { self.row + 1 };
                    proof {
                        let (r, n) = (old(self).row as int, rows as int);
                        assert(self.row == (r + 1) % n) by (nonlinear_arith)
                            requires
                                0 <= r < n,
                                self.row == if r + 1 == n { 0 } else { r + 1 },
                        ;
                    }
                },
                Direction::Left => {
                    self.col = if self.col == 0 { cols - 1 } else { self.col - 1 };
                    proof {
                        let (c, n) = (old(self).col as int, cols as int);
                        assert(self.col == (c + n - 1) % n) by (nonlinear_arith)
                            requires
                                0 <= c < n,
                                self.col == if c == 0 { n - 1 } else { c - 1 },
                        ;
                    }
                },
                Direction::Right => {
                    self.col = if self.col + 1 == cols { 0 } else { self.col + 1 };
                    proof {
                        let (c, n) = (old(self).col as int, cols as int);
                        assert(self.col == (c + 1) % n) by (nonlinear_arith)
                            requires
                                0 <= c < n,
                                self.col == if c + 1 == n { 0 } else { c + 1 },
                        ;
                    }
                },
            }
        } else {
            match dir {
                Direction::Down => {
                    self.row = slide_forward(&self.field, true, self.col, self.row, rows / 2, rows - 1);
                },
                Direction::Up => {
                    self.row = slide_backward(&self.field, true, self.col, self.row, rows / 2);
                },
                Direction::Right => {
                    self.col = slide_forward(&self.field, false, self.row, self.col, cols / 2, cols - 1);
                },
                Direction::Left => {
                    self.col = slide_backward(&self.field, false, self.row, self.col, cols / 2);
                },
            }
        }
    }

    /// Flags or unflags the square under the cursor, unless it is revealed.
    pub fn toggle_flag(&mut self)
        requires
            old(self)@.wf(),
        ensures
            final(self)@ == old(self)@.toggled(),
            final(self)@.wf(),
    {
        let ghost g0 = self.field@;
        let ghost x = g0.cell(self.row as int, self.col as int);
        let (row, col) = (self.row, self.col);
        match self.field.get_mut(row, col) {
            Some(cell) => {
                if !cell.is_revealed {
                    cell.is_flagged = !cell.is_flagged;
                }
                assert(*cell == if x.is_revealed { x } else { Cell { is_flagged: !x.is_flagged, ..x } });
            },
            None => {},
        }
        proof {
            if x.is_revealed {
                assert(self.field@ == g0.with_cell(row as int, col as int, x));
                assert(g0.cells[row as int].update(col as int, x) =~= g0.cells[row as int]);
                assert(g0.cells.update(row as int, g0.cells[row as int]) =~= g0.cells);
            }
        }
    }

    /// Before the first dig, clears the 3x3 block under the cursor of mines.
    fn make_safe_start(&mut self)
        requires
            old(self)@.wf(),
        ensures
            final(self)@ == old(self)@.safe_start(),
            final(self)@.wf(),
    {
        if !self.first_move_taken {
            clear_mines(&mut self.field, self.row, self.col);
            self.first_move_taken = true;
        }
    }

    /// Digs at `(row, col)`; an unflagged mine loses the game.
    fn dig_at(&mut self, row: usize, col: usize)
        requires
            old(self)@.wf(),
        ensures
            final(self)@ == old(self)@.dug_at(row as int, col as int),
            final(self)@.wf(),
    {
        match dig(&mut self.field, row, col) {
            Some(cell) => {
                if cell.is_mine && !cell.is_flagged {
                    kaboom(&mut self.field);
                    self.status = Status::Lost;
                }
            },
            None => {},
        }
    }

    /// Digs under the cursor. The first dig of a game first clears the 3x3
    /// block under the cursor of mines, so it never loses.
    pub fn dig(&mut self)
        requires
            old(self)@.wf(),
        ensures
            final(self)@ == old(self)@.dug_here(),
            final(self)@.wf(),
    {
        self.make_safe_start();
        let (row, col) = (self.row, self.col);
        self.dig_at(row, col);
    }

    /// Digs each square of the 3x3 block under the cursor in turn, up to the
    /// first that loses the game. No mines are cleared, and whether the
    /// first plain dig has been made is left as it is.
    pub fn dig_area(&mut self)
        requires
            old(self)@.wf(),
        ensures
            final(self)@ == old(self)@.dug_block(),
            final(self)@.wf(),
    {
        let ghost target = self@.dug_block_from(0);
        let (row, col) = (self.row, self.col);
        let (rows, cols) = (self.field.rows(), self.field.cols());
        let mut k: usize = 0;
        while k < 9 && self.status != Status::Lost
            invariant
                self@.wf(),
                self@.grid.rows == rows,
                self@.grid.cols == cols,
                self.row == row,
                self.col == col,
                k <= 9,
                self@.dug_block_from(k as nat) == target,
            decreases 9 - k,
        {
            let dr = k / 3;
            let dc = k % 3;
            if (row > 0 || dr > 0) && (col > 0 || dc > 0) {
                let i = if dr == 0 { row - 1 } else { row + (dr - 1) };
                let j = if dc == 0 { col - 1 } else { col + (dc - 1) };
                self.dig_at(i, j);
            } else {
                proof {
                    assert(self@.dug_at(row + dr - 1, col + dc - 1) == self@);
                }
            }
            k += 1;
        }
    }

    /// A game still in play whose board is won becomes won.
    pub fn check_end_of_turn(&mut self)
        requires
            old(self)@.wf(),
        ensures
            final(self)@ == old(self)@.turn_ended(),
            final(self)@.wf(),
    {
        if self.status == Status::Playing && self.field.is_won() {
            self.status = Status::Won;
        }
    }

    /// Carries out one player action. A finished game ignores every action;
    /// after a flag or a dig the game is checked for a win.
    pub fn apply(&mut self, action: Action)
        requires
            old(self)@.wf(),
        ensures
            final(self)@.wf(),
            old(self).status != Status::Playing ==> final(self)@ == old(self)@,
            old(self).status == Status::Playing ==> match action {
                Action::Move(dir, extended) => old(self)@.moved(final(self)@, dir, extended),
                Action::ToggleFlag => final(self)@ == old(self)@.toggled().turn_ended(),
                Action::Dig => final(self)@ == old(self)@.dug_here().turn_ended(),
                Action::DigArea => final(self)@ == old(self)@.dug_block().turn_ended(),
                Action::Quit => final(self)@ == (GameView { status: Status::Quit, ..old(self)@ }),
            },
    {
        if self.status != Status::Playing {
            return;
        }
        match action {
            Action::Move(dir, extended) => self.move_cursor(dir, extended),
            Action::ToggleFlag => {
                self.toggle_flag();
                self.check_end_of_turn();
            },
            Action::Dig => {
                self.dig();
                self.check_end_of_turn();
            },
            Action::DigArea => {
                self.dig_area();
                self.check_end_of_turn();
            },
            Action::Quit => self.status = Status::Quit,
        }
    }
}

} // verus!
