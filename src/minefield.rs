use rand::Rng;
use vstd::prelude::*;

use crate::cell::Cell;
use crate::grid::{
    hidden_pred, in_block, lemma_count_rows_none, lemma_count_with_cell, mine_pred, row_major, touching, Grid,
};

verus! {

/// Relies on rand's `thread_rng` and `Rng::gen_range`: a number drawn from
/// `0..bound` (which panics on an empty range).
#[verifier::external_body]
fn random_below(bound: usize) -> (r: usize)
    requires
        bound > 0,
    ensures
        r < bound,
{
    rand::thread_rng().gen_range(0..bound)
}

/// A rectangular board of `rows` x `cols` squares, stored row by row.
#[derive(Clone)]
pub struct Minefield {
    rows: usize,
    cols: usize,
    content: Vec<Vec<Cell>>,
}

impl View for Minefield {
    type V = Grid;

    closed spec fn view(&self) -> Grid {
        Grid {
            rows: self.rows as nat,
            cols: self.cols as nat,
            cells: self.content@.map_values(|row: Vec<Cell>| row@),
        }
    }
}

impl Minefield {
    /// The stored rows have the declared dimensions.
    spec fn wf(&self) -> bool {
        &&& self.content@.len() == self.rows
        &&& forall|r: int| 0 <= r < self.rows ==> #[trigger] self.content@[r]@.len() == self.cols
    }

    /// What the stored rows say about the grid they stand for.
    proof fn lemma_view(&self)
        ensures
            self.wf() <==> self@.wf(),
            self@.rows == self.rows,
            self@.cols == self.cols,
            forall|r: int| 0 <= r < self.content@.len() ==> #[trigger] self@.cells[r] == self.content@[r]@,
            self@.cells.len() == self.content@.len(),
    {
        if self.wf() {
            assert forall|r: int| 0 <= r < self@.rows implies #[trigger] self@.cells[r].len() == self@.cols by {
                assert(self.content@[r]@.len() == self.cols);
            }
        }
        if self@.wf() {
            assert forall|r: int| 0 <= r < self.rows implies #[trigger] self.content@[r]@.len() == self.cols by {
                assert(self@.cells[r].len() == self@.cols);
            }
        }
    }

    /// A board of hidden, unflagged squares without mines.
    fn blank(rows: usize, cols: usize) -> (r: Minefield)
        ensures
            r.wf(),
            r@ == Grid::blank(rows as nat, cols as nat),
    {
        let mut content: Vec<Vec<Cell>> = Vec::new();
        let mut i: usize = 0;
        while i < rows
            invariant
                i <= rows,
                content@.len() == i,
                forall|k: int| 0 <= k < i ==> #[trigger] content@[k]@ == Seq::new(cols as nat, |c: int| Cell::blank()),
            decreases rows - i,
        {
            let mut row: Vec<Cell> = Vec::new();
            let mut j: usize = 0;
            while j < cols
                invariant
                    j <= cols,
                    row@ == Seq::new(j as nat, |c: int| Cell::blank()),
                decreases cols - j,
            {
                row.push(Cell::default());
                j += 1;
                assert(row@ =~= Seq::new(j as nat, |c: int| Cell::blank()));
            }
            content.push(row);
            i += 1;
        }
        let r = Minefield { rows, cols, content };
        proof {
            r.lemma_view();
            assert(r@ =~~= Grid::blank(rows as nat, cols as nat));
        }
        r
    }

    /// A board of `rows` x `cols` hidden, unflagged squares whose mines are
    /// the squares named in `mines` (names off the board are ignored), with
    /// every adjacency count computed.
    pub fn with_mines(rows: usize, cols: usize, mines: &Vec<(usize, usize)>) -> (r: Minefield)
        ensures
            r@ == Grid::mined(rows as nat, cols as nat, mines@).recounted(),
            r@.wf(),
            r@.adjacency_consistent(),
            r@.mine_count() <= mines@.len(),
    {
        let mut field = Minefield::blank(rows, cols);
        let ghost d = mines@;
        proof {
            field.lemma_view();
            lemma_count_rows_none(field@.cells, mine_pred());
        }
        let mut k: usize = 0;
        while k < mines.len()
            invariant
                field.wf(),
                field@.rows == rows,
                field@.cols == cols,
                field.rows == rows,
                field.cols == cols,
                d == mines@,
                k <= mines@.len(),
                field@.mine_count() <= k,
                forall|i: int, j: int| #![trigger field@.cell(i, j)] field@.in_bounds(i, j) ==> field@.cell(i, j) == (Cell {
                    is_mine: d.take(k as int).contains((i as usize, j as usize)),
                    ..Cell::blank()
                }),
            decreases mines@.len() - k,
        {
            let (r, c) = mines[k];
            proof {
                field.lemma_view();
                assert(d.take(k + 1) == d.take(k as int).push((r, c)));
                lemma_push_keeps(d.take(k as int), (r, c));
                assert forall|y: (usize, usize)| d.take(k + 1).contains(y) && y != (r, c) implies #[trigger] d.take(k as int).contains(y) by {
                    let m = choose|m: int| 0 <= m < k + 1 && #[trigger] d.take(k + 1)[m] == y;
                    assert(d.take(k as int)[m] == y);
                }
            }
            if r < rows && c < cols {
                let ghost before = field@;
                field.content[r][c].is_mine = true;
                proof {
                    field.lemma_view();
                    assert(field@ == before.with_cell(r as int, c as int, Cell { is_mine: true, ..before.cell(r as int, c as int) }));
                    lemma_count_with_cell(before, r as int, c as int, Cell { is_mine: true, ..before.cell(r as int, c as int) }, mine_pred());
                    assert forall|i: int, j: int| field@.in_bounds(i, j) && (i != r || j != c) implies #[trigger] field@.cell(i, j) == before.cell(i, j) by {}
                }
            }
            k += 1;
        }
        proof {
            field.lemma_view();
            assert(d.take(d.len() as int) == d);
            let g1 = Grid::mined(rows as nat, cols as nat, d);
            assert forall|i: int| 0 <= i < rows implies #[trigger] field@.cells[i] =~= g1.cells[i] by {
                assert forall|j: int| 0 <= j < cols implies #[trigger] field@.cells[i][j] == g1.cells[i][j] by {
                    assert(field@.cell(i, j) == g1.cell(i, j));
                }
            }
            assert(field@ =~~= g1);
            field@.lemma_recounted_consistent();
        }
        field.calculate_adjacent();
        field
    }

    /// A new board of `rows` x `cols` hidden squares: `rows * cols / 5`
    /// squares are drawn at random and made mines (a square drawn twice is
    /// one mine), and every adjacency count is computed.
    pub fn generate(rows: usize, cols: usize) -> (r: Minefield)
        requires
            rows * cols <= usize::MAX,
        ensures
            r@.wf(),
            r@.rows == rows,
            r@.cols == cols,
            exists|d: Seq<(usize, usize)>| #![trigger Grid::mined(rows as nat, cols as nat, d)]
                d.len() == rows * cols / 5
                && (forall|k: int| 0 <= k < d.len() ==> #[trigger] d[k].0 < rows && d[k].1 < cols)
                && r@ == Grid::mined(rows as nat, cols as nat, d).recounted(),
            r@.adjacency_consistent(),
            r@.mine_count() <= rows * cols / 5,
    {
        let n = rows * cols / 5;
        if n > 0 {
            assert(rows > 0 && cols > 0) by (nonlinear_arith)
                requires
                    n > 0,
                    n == rows * cols / 5,
            ;
        }
        let mut draws: Vec<(usize, usize)> = Vec::new();
        let mut k: usize = 0;
        while k < n
            invariant
                k <= n,
                n > 0 ==> rows > 0 && cols > 0,
                draws@.len() == k,
                forall|m: int| 0 <= m < draws@.len() ==> #[trigger] draws@[m].0 < rows && draws@[m].1 < cols,
            decreases n - k,
        {
            let r = random_below(rows);
            let c = random_below(cols);
            draws.push((r, c));
            k += 1;
        }
        let field = Minefield::with_mines(rows, cols, &draws);
        proof {
            assert(field@ == Grid::mined(rows as nat, cols as nat, draws@).recounted());
        }
        field
    }

    /// The number of rows.
    pub fn rows(&self) -> (r: usize)
        ensures
            r == self@.rows,
    {
        proof { self.lemma_view(); }
        self.rows
    }

    /// The number of columns.
    pub fn cols(&self) -> (r: usize)
        ensures
            r == self@.cols,
    {
        proof { self.lemma_view(); }
        self.cols
    }

    /// The square at `(row, col)`, or `None` off the board.
    pub fn get(&self, row: usize, col: usize) -> (r: Option<&Cell>)
        requires
            self@.wf(),
        ensures
            self@.in_bounds(row as int, col as int) ==> r == Some(&self@.cell(row as int, col as int)),
            !self@.in_bounds(row as int, col as int) ==> r is None,
    {
        proof { self.lemma_view(); }
        if row < self.content.len() && col < self.content[row].len() {
            Some(&self.content[row][col])
        } else {
            None
        }
    }

    /// A mutable reference to the square at `(row, col)`, or `None` off the
    /// board; writing through it changes that square alone.
    pub fn get_mut(&mut self, row: usize, col: usize) -> (r: Option<&mut Cell>)
        requires
            old(self)@.wf(),
        ensures
            old(self)@.in_bounds(row as int, col as int) ==> (r matches Some(x) && *x == old(self)@.cell(row as int, col as int)
                && final(self)@ == old(self)@.with_cell(row as int, col as int, *final(x))),
            !old(self)@.in_bounds(row as int, col as int) ==> r is None && final(self)@ == old(self)@,
    {
        proof { self.lemma_view(); }
        if row < self.content.len() && col < self.content[row].len() {
            Some(&mut self.content[row][col])
        } else {
            None
        }
    }

    /// 1 when the square `(row + dr - 1, col + dc - 1)` is on the board and
    /// holds a mine, 0 otherwise.
    fn mine_near(&self, row: usize, col: usize, dr: usize, dc: usize) -> (r: u8)
        requires
            self@.wf(),
            self@.in_bounds(row as int, col as int),
            dr <= 2,
            dc <= 2,
        ensures
            r == self@.mine_at(row + dr - 1, col + dc - 1),
    {
        proof { self.lemma_view(); }
        if (row == 0 && dr == 0) || (col == 0 && dc == 0) {
            return 0;
        }
        let i = if dr == 0 { row - 1 } else { row + (dr - 1) };
        let j = if dc == 0 { col - 1 } else { col + (dc - 1) };
        match self.get(i, j) {
            Some(cell) => if cell.is_mine { 1 } else { 0 },
            None => 0,
        }
    }

    /// All squares, row after row.
    pub fn iter(&self) -> (r: Vec<Cell>)
        requires
            self@.wf(),
        ensures
            r@ == row_major(self@.cells),
    {
        proof { self.lemma_view(); }
        let mut out: Vec<Cell> = Vec::new();
        let mut i: usize = 0;
        while i < self.rows
            invariant
                self.wf(),
                i <= self.rows,
                out@ == row_major(self@.cells.take(i as int)),
            decreases self.rows - i,
        {
            proof { self.lemma_view(); }
            let mut j: usize = 0;
            while j < self.cols
                invariant
                    self.wf(),
                    i < self.rows,
                    j <= self.cols,
                    out@ == row_major(self@.cells.take(i as int)) + self@.cells[i as int].take(j as int),
                decreases self.cols - j,
            {
                proof { self.lemma_view(); }
                out.push(self.content[i][j]);
                proof {
                    assert(self@.cells[i as int].take(j + 1) == self@.cells[i as int].take(j as int).push(self.content@[i as int]@[j as int]));
                    assert(out@ =~= row_major(self@.cells.take(i as int)) + self@.cells[i as int].take(j + 1));
                }
                j += 1;
            }
            proof {
                self.lemma_view();
                let t = self@.cells.take(i + 1);
                assert(t.drop_last() == self@.cells.take(i as int));
                assert(self@.cells[i as int].take(self.cols as int) == self@.cells[i as int]);
                assert(row_major(t) == row_major(t.drop_last()) + t.last());
            }
            i += 1;
        }
        proof { assert(self@.cells.take(self.rows as int) == self@.cells); }
        out
    }

    /// The squares at which this board differs from `before` (a board of the
    /// same size, such as a copy taken before a move), row by row: the
    /// squares to redraw.
    pub fn changed_since(&self, before: &Minefield) -> (r: Vec<(usize, usize)>)
        requires
            self@.wf(),
            before@.wf(),
            before@.rows == self@.rows,
            before@.cols == self@.cols,
        ensures
            forall|i: usize, j: usize| #[trigger] r@.contains((i, j)) <==> self@.in_bounds(i as int, j as int)
                && self@.cell(i as int, j as int) != before@.cell(i as int, j as int),
    {
        proof {
            self.lemma_view();
            before.lemma_view();
        }
        let mut out: Vec<(usize, usize)> = Vec::new();
        let mut i: usize = 0;
        while i < self.rows
            invariant
                self.wf(),
                before.wf(),
                before.rows == self.rows,
                before.cols == self.cols,
                i <= self.rows,
                forall|a: usize, b: usize| #[trigger] out@.contains((a, b)) <==> a < i && self@.in_bounds(a as int, b as int)
                    && self@.cell(a as int, b as int) != before@.cell(a as int, b as int),
            decreases self.rows - i,
        {
            let mut j: usize = 0;
            while j < self.cols
                invariant
                    self.wf(),
                    before.wf(),
                    before.rows == self.rows,
                    before.cols == self.cols,
                    i < self.rows,
                    j <= self.cols,
                    forall|a: usize, b: usize| #[trigger] out@.contains((a, b)) <==> (a < i || (a == i && b < j))
                        && self@.in_bounds(a as int, b as int) && self@.cell(a as int, b as int) != before@.cell(a as int, b as int),
                decreases self.cols - j,
            {
                proof {
                    self.lemma_view();
                    before.lemma_view();
                }
                if self.content[i][j] != before.content[i][j] {
                    proof { lemma_push_contains(out@, (i, j)); }
                    out.push((i, j));
                }
                j += 1;
            }
            i += 1;
        }
        out
    }

    /// Whether the game is won: every square is revealed or is a flagged mine.
    pub fn is_won(&self) -> (r: bool)
        requires
            self@.wf(),
        ensures
            r == self@.won(),
    {
        proof { self.lemma_view(); }
        let mut i: usize = 0;
        while i < self.rows
            invariant
                self.wf(),
                i <= self.rows,
                forall|r: int, c: int| 0 <= r < i && 0 <= c < self.cols ==> #[trigger] self@.cell(r, c).is_revealed
                    || (self@.cell(r, c).is_mine && self@.cell(r, c).is_flagged),
            decreases self.rows - i,
        {
            let mut j: usize = 0;
            while j < self.cols
                invariant
                    self.wf(),
                    i < self.rows,
                    j <= self.cols,
                    forall|r: int, c: int| (0 <= r < i && 0 <= c < self.cols) || (r == i && 0 <= c < j) ==> #[trigger] self@.cell(r, c).is_revealed
                        || (self@.cell(r, c).is_mine && self@.cell(r, c).is_flagged),
                decreases self.cols - j,
            {
                proof { self.lemma_view(); }
                let cell = self.content[i][j];
                if !(cell.is_revealed || (cell.is_mine && cell.is_flagged)) {
                    proof { assert(self@.cell(i as int, j as int) == cell); }
                    return false;
                }
                j += 1;
            }
            i += 1;
        }
        proof { self.lemma_view(); }
        true
    }

    /// Recomputes the adjacency count of every square that is not a mine;
    /// to be called whenever squares change between mine and no mine.
    pub fn calculate_adjacent(&mut self)
        requires
            old(self)@.wf(),
        ensures
            final(self)@ == old(self)@.recounted(),
            final(self)@.wf(),
    {
        let ghost g0 = self@;
        proof { self.lemma_view(); }
        let mut row: usize = 0;
        while row < self.rows
            invariant
                self.wf(),
                self@.rows == g0.rows,
                self@.cols == g0.cols,
                row <= self.rows,
                forall|r: int, c: int| #![trigger self@.cell(r, c)] g0.in_bounds(r, c) ==> self@.cell(r, c) == if r < row {
                    g0.recounted().cell(r, c)
                } else {
                    g0.cell(r, c)
                },
            decreases self.rows - row,
        {
            let mut col: usize = 0;
            while col < self.cols
                invariant
                    self.wf(),
                    self@.rows == g0.rows,
                    self@.cols == g0.cols,
                    row < self.rows,
                    col <= self.cols,
                    forall|r: int, c: int| #![trigger self@.cell(r, c)] g0.in_bounds(r, c) ==> self@.cell(r, c) == if r < row || (r == row && c < col) {
                        g0.recounted().cell(r, c)
                    } else {
                        g0.cell(r, c)
                    },
                decreases self.cols - col,
            {
                proof {
                    self.lemma_view();
                    g0.lemma_recounted_cell(row as int, col as int);
                }
                let ghost before = self@;
                if !self.content[row][col].is_mine {
                    let adj = self.mine_near(row, col, 0, 0) + self.mine_near(row, col, 0, 1)
                        + self.mine_near(row, col, 0, 2) + self.mine_near(row, col, 1, 0)
                        + self.mine_near(row, col, 1, 2) + self.mine_near(row, col, 2, 0)
                        + self.mine_near(row, col, 2, 1) + self.mine_near(row, col, 2, 2);
                    proof {
                        assert forall|r: int, c: int| #[trigger] self@.mine_at(r, c) == g0.mine_at(r, c) by {
                            if g0.in_bounds(r, c) {
                                assert(self@.cell(r, c).is_mine == g0.cell(r, c).is_mine);
                            }
                        }
                    }
                    self.content[row][col].adjacent = adj;
                    proof {
                        self.lemma_view();
                        assert(self@ == before.with_cell(row as int, col as int, Cell { adjacent: adj, ..before.cell(row as int, col as int) }));
                    }
                }
                proof {
                    self.lemma_view();
                    assert forall|r: int, c: int| g0.in_bounds(r, c) && (r != row || c != col) implies #[trigger] self@.cell(r, c) == before.cell(r, c) by {}
                }
                col += 1;
            }
            row += 1;
        }
        proof {
            self.lemma_view();
            let g1 = g0.recounted();
            assert forall|r: int| 0 <= r < g0.rows implies #[trigger] self@.cells[r] =~= g1.cells[r] by {
                assert forall|c: int| 0 <= c < g0.cols implies #[trigger] self@.cells[r][c] == g1.cells[r][c] by {
                    assert(self@.cell(r, c) == g1.cell(r, c));
                }
            }
            assert(self@ =~~= g1);
        }
    }
}

/// Every element of `s` stays in `s` after a push.
proof fn lemma_push_keeps(s: Seq<(usize, usize)>, x: (usize, usize))
    ensures
        forall|y: (usize, usize)| s.contains(y) ==> #[trigger] s.push(x).contains(y),
        s.push(x).contains(x),
{
    assert forall|y: (usize, usize)| s.contains(y) implies #[trigger] s.push(x).contains(y) by {
        let k = choose|k: int| 0 <= k < s.len() && s[k] == y;
        assert(s.push(x)[k] == y);
    }
    assert(s.push(x)[s.len() as int] == x);
}

/// What a push adds to a sequence is the pushed element alone.
proof fn lemma_push_contains(s: Seq<(usize, usize)>, x: (usize, usize))
    ensures
        forall|y: (usize, usize)| #[trigger] s.push(x).contains(y) <==> s.contains(y) || y == x,
{
    lemma_push_keeps(s, x);
    assert forall|y: (usize, usize)| #[trigger] s.push(x).contains(y) implies s.contains(y) || y == x by {
        let k = choose|k: int| 0 <= k < s.len() + 1 && s.push(x)[k] == y;
        if k < s.len() {
            assert(s[k] == y);
        }
    }
}

/// Every element of `s` but the last stays in `s` when the last is dropped.
proof fn lemma_drop_last_keeps(s: Seq<(usize, usize)>)
    requires
        s.len() > 0,
    ensures
        forall|y: (usize, usize)| s.contains(y) && y != s.last() ==> #[trigger] s.drop_last().contains(y),
{
    assert forall|y: (usize, usize)| s.contains(y) && y != s.last() implies #[trigger] s.drop_last().contains(y) by {
        let k = choose|k: int| 0 <= k < s.len() && s[k] == y;
        assert(s.drop_last()[k] == y);
    }
}

/// Pushes the square `(row + dr - 1, col + dc - 1)` onto `stack` when it is
/// on the board and still hidden.
fn push_if_hidden(field: &Minefield, stack: &mut Vec<(usize, usize)>, row: usize, col: usize, dr: usize, dc: usize)
    requires
        field@.wf(),
        field@.in_bounds(row as int, col as int),
        dr <= 2,
        dc <= 2,
    ensures
        final(stack)@ == old(stack)@ || final(stack)@ == old(stack)@.push(
            ((row + dr - 1) as usize, (col + dc - 1) as usize),
        ),
        final(stack)@ != old(stack)@ ==> field@.in_bounds(row + dr - 1, col + dc - 1),
        field@.in_bounds(row + dr - 1, col + dc - 1) ==> field@.cell(row + dr - 1, col + dc - 1).is_revealed
            || final(stack)@.contains(((row + dr - 1) as usize, (col + dc - 1) as usize)),
{
    if (row == 0 && dr == 0) || (col == 0 && dc == 0) {
        return;
    }
    let i = if dr == 0 { row - 1 } else { row + (dr - 1) };
    let j = if dc == 0 { col - 1 } else { col + (dc - 1) };
    if let Some(cell) = field.get(i, j) {
        if !cell.is_revealed {
            stack.push((i, j));
            proof { lemma_push_keeps(old(stack)@, (i, j)); }
        }
    }
}

/// Pushes onto `stack` each square touching `(row, col)` that is on the
/// board and still hidden; what was on the stack stays below.
fn push_hidden_neighbors(field: &Minefield, stack: &mut Vec<(usize, usize)>, row: usize, col: usize)
    requires
        field@.wf(),
        field@.in_bounds(row as int, col as int),
    ensures
        final(stack)@.len() >= old(stack)@.len(),
        forall|k: int| 0 <= k < old(stack)@.len() ==> #[trigger] final(stack)@[k] == old(stack)@[k],
        forall|k: int| old(stack)@.len() <= k < final(stack)@.len() ==> field@.in_bounds(#[trigger] final(stack)@[k].0 as int, final(stack)@[k].1 as int)
            && touching(row as int, col as int, final(stack)@[k].0 as int, final(stack)@[k].1 as int),
        forall|i: int, j: int| #![trigger touching(row as int, col as int, i, j)]
            touching(row as int, col as int, i, j) && field@.in_bounds(i, j)
            ==> field@.cell(i, j).is_revealed || final(stack)@.contains((i as usize, j as usize)),
{
    let ghost s0 = stack@;
    let mut dr: usize = 0;
    while dr < 3
        invariant
            field@.wf(),
            field@.in_bounds(row as int, col as int),
            dr <= 3,
            stack@.len() >= s0.len(),
            forall|k: int| 0 <= k < s0.len() ==> #[trigger] stack@[k] == s0[k],
            forall|k: int| s0.len() <= k < stack@.len() ==> field@.in_bounds(#[trigger] stack@[k].0 as int, stack@[k].1 as int)
                && touching(row as int, col as int, stack@[k].0 as int, stack@[k].1 as int),
            forall|i: int, j: int| #![trigger touching(row as int, col as int, i, j)]
                touching(row as int, col as int, i, j) && field@.in_bounds(i, j) && i - row + 1 < dr
                ==> field@.cell(i, j).is_revealed || stack@.contains((i as usize, j as usize)),
        decreases 3 - dr,
    {
        let mut dc: usize = 0;
        while dc < 3
            invariant
                field@.wf(),
                field@.in_bounds(row as int, col as int),
                dr < 3,
                dc <= 3,
                stack@.len() >= s0.len(),
                forall|k: int| 0 <= k < s0.len() ==> #[trigger] stack@[k] == s0[k],
                forall|k: int| s0.len() <= k < stack@.len() ==> field@.in_bounds(#[trigger] stack@[k].0 as int, stack@[k].1 as int)
                    && touching(row as int, col as int, stack@[k].0 as int, stack@[k].1 as int),
                forall|i: int, j: int| #![trigger touching(row as int, col as int, i, j)]
                    touching(row as int, col as int, i, j) && field@.in_bounds(i, j)
                    && (i - row + 1 < dr || (i - row + 1 == dr && j - col + 1 < dc))
                    ==> field@.cell(i, j).is_revealed || stack@.contains((i as usize, j as usize)),
            decreases 3 - dc,
        {
            if dr != 1 || dc != 1 {
                let ghost s1 = stack@;
                push_if_hidden(field, stack, row, col, dr, dc);
                proof {
                    lemma_push_keeps(s1, ((row + dr - 1) as usize, (col + dc - 1) as usize));
                }
            }
            dc += 1;
        }
        dr += 1;
    }
}

/// Reveals, from `(row, col)` on, the square and, around every square so
/// revealed that is no mine and has no mine around it, all the hidden
/// squares that touch it, and so on: the connected empty region with its
/// border of numbered squares. Revealed squares lose their flags.
pub fn reveal_empty(field: &mut Minefield, row: usize, col: usize)
    requires
        old(field)@.wf(),
    ensures
        final(field)@ == old(field)@.flooded(row as int, col as int),
        final(field)@.wf(),
{
    let ghost g0 = field@;
    let ghost r0 = row as int;
    let ghost c0 = col as int;
    if !(row < field.rows() && col < field.cols()) {
        proof { g0.lemma_flooded_off_board(r0, c0); }
        return;
    }
    let mut stack: Vec<(usize, usize)> = Vec::new();
    stack.push((row, col));
    proof {
        lemma_push_keeps(Seq::empty(), (row, col));
        assert(g0.is_path(seq![(r0, c0)], r0, c0));
        assert(seq![(r0, c0)].last() == (r0, c0));
    }
    while stack.len() > 0
        invariant
            field@.wf(),
            field@.rows == g0.rows,
            field@.cols == g0.cols,
            g0.wf(),
            r0 == row,
            c0 == col,
            g0.in_bounds(r0, c0),
            forall|r: int, c: int| #![trigger field@.cell(r, c)] g0.in_bounds(r, c) ==> field@.cell(r, c) == g0.cell(r, c)
                || (!g0.cell(r, c).is_revealed && g0.reaches(r0, c0, r, c) && field@.cell(r, c) == g0.cell(r, c).uncovered()),
            forall|k: int| 0 <= k < stack@.len() ==> g0.in_bounds(#[trigger] stack@[k].0 as int, stack@[k].1 as int)
                && g0.reaches(r0, c0, stack@[k].0 as int, stack@[k].1 as int),
            field@.cell(r0, c0).is_revealed || stack@.contains((row, col)),
            forall|r1: int, c1: int, r2: int, c2: int| #![trigger touching(r1, c1, r2, c2)]
                g0.in_bounds(r1, c1) && field@.cell(r1, c1).is_revealed && g0.cell(r1, c1).opens_region()
                && touching(r1, c1, r2, c2) && g0.in_bounds(r2, c2)
                ==> field@.cell(r2, c2).is_revealed || stack@.contains((r2 as usize, c2 as usize)),
        decreases field@.hidden_count(), stack@.len(),
    {
        let ghost s0 = stack@;
        let ghost before = field@;
        let (r, c) = stack.pop().unwrap();
        proof {
            lemma_drop_last_keeps(s0);
            assert(s0.last() == (r, c));
            assert(stack@ == s0.drop_last());
            assert(g0.in_bounds(s0[s0.len() - 1].0 as int, s0[s0.len() - 1].1 as int));
        }
        proof { field.lemma_view(); }
        let cell = field.content[r][c];
        proof {
            assert(cell == field@.cell(r as int, c as int));
        }
        if cell.is_revealed {
            proof {
                assert forall|r1: int, c1: int, r2: int, c2: int| #![trigger touching(r1, c1, r2, c2)]
                    g0.in_bounds(r1, c1) && field@.cell(r1, c1).is_revealed && g0.cell(r1, c1).opens_region()
                    && touching(r1, c1, r2, c2) && g0.in_bounds(r2, c2)
                    implies field@.cell(r2, c2).is_revealed || stack@.contains((r2 as usize, c2 as usize)) by {
                    if r2 == r && c2 == c {
                    } else {
                        assert((r2 as usize, c2 as usize) != (r, c));
                    }
                }
                if row != r || col != c {
                    assert(s0.contains((row, col)) ==> stack@.contains((row, col)));
                } else {
                    assert(field@.cell(r0, c0) == cell);
                }
            }
            continue;
        }
        let ghost s1 = stack@;
        field.content[r][c] = Cell { is_revealed: true, is_flagged: false, ..cell };
        proof {
            field.lemma_view();
            assert(field@ == before.with_cell(r as int, c as int, cell.uncovered()));
            assert(cell == g0.cell(r as int, c as int));
            lemma_count_with_cell(before, r as int, c as int, cell.uncovered(), hidden_pred());
            assert forall|i: int, j: int| g0.in_bounds(i, j) && (i != r || j != c) implies #[trigger] field@.cell(i, j) == before.cell(i, j) by {}
        }
        if cell.adjacent == 0 && !cell.is_mine {
            push_hidden_neighbors(field, &mut stack, r, c);
            proof {
                assert forall|k: int| 0 <= k < stack@.len() implies g0.in_bounds(#[trigger] stack@[k].0 as int, stack@[k].1 as int)
                    && g0.reaches(r0, c0, stack@[k].0 as int, stack@[k].1 as int) by {
                    if k >= s1.len() {
                        let p = choose|p: Seq<(int, int)>| #[trigger] g0.is_path(p, r0, c0) && p.last() == (r as int, c as int);
                        assert(g0.cell(r as int, c as int).opens_region());
                        g0.lemma_path_extend(p, r0, c0, stack@[k].0 as int, stack@[k].1 as int);
                    } else {
                        assert(stack@[k] == s1[k]);
                    }
                }
                assert forall|y: (usize, usize)| s1.contains(y) implies #[trigger] stack@.contains(y) by {
                    let k = choose|k: int| 0 <= k < s1.len() && s1[k] == y;
                    assert(stack@[k] == y);
                }
            }
        }
        proof {
            assert forall|r1: int, c1: int, r2: int, c2: int| #![trigger touching(r1, c1, r2, c2)]
                g0.in_bounds(r1, c1) && field@.cell(r1, c1).is_revealed && g0.cell(r1, c1).opens_region()
                && touching(r1, c1, r2, c2) && g0.in_bounds(r2, c2)
                implies field@.cell(r2, c2).is_revealed || stack@.contains((r2 as usize, c2 as usize)) by {
                if r1 == r && c1 == c {
                } else {
                    assert(before.cell(r1, c1) == field@.cell(r1, c1));
                    if r2 == r && c2 == c {
                    } else {
                        assert(before.cell(r2, c2) == field@.cell(r2, c2));
                        assert((r2 as usize, c2 as usize) != (r, c));
                    }
                }
            }
            if row != r || col != c {
                assert(r0 != r as int || c0 != c as int);
                assert(before.cell(r0, c0) == field@.cell(r0, c0));
                assert(s0.contains((row, col)) ==> s1.contains((row, col)));
            }
        }
    }
    proof {
        g0.lemma_cascade_complete(field@, r0, c0);
        let f = g0.flooded(r0, c0);
        assert forall|i: int| 0 <= i < g0.rows implies #[trigger] field@.cells[i] =~= f.cells[i] by {
            assert forall|j: int| 0 <= j < g0.cols implies #[trigger] field@.cells[i][j] == f.cells[i][j] by {
                assert(field@.cell(i, j) == f.cell(i, j));
            }
        }
        assert(field@ =~~= f);
    }
}

/// Digs the square at `(row, col)`: a flagged square is left alone; a square
/// that is no mine and has no mine around it starts a cascade; any other
/// square is revealed alone. Returns the square as it is afterwards, or
/// `None` off the board.
pub fn dig(field: &mut Minefield, row: usize, col: usize) -> (r: Option<Cell>)
    requires
        old(field)@.wf(),
    ensures
        final(field)@ == old(field)@.dug(row as int, col as int),
        final(field)@.wf(),
        r == if old(field)@.in_bounds(row as int, col as int) {
            Some(final(field)@.cell(row as int, col as int))
        } else {
            None::<Cell>
        },
{
    let cell = match field.get(row, col) {
        Some(c) => *c,
        None => return None,
    };
    if !cell.is_flagged {
        if cell.adjacent == 0 && !cell.is_mine {
            reveal_empty(field, row, col);
        } else {
            proof { field.lemma_view(); }
            field.content[row][col].is_revealed = true;
            proof { field.lemma_view(); }
        }
    }
    proof { field.lemma_view(); }
    Some(field.content[row][col])
}

/// Makes sure that the 3x3 block centred on `(row, col)` holds no mine, then
/// recomputes the adjacency counts.
pub fn clear_mines(field: &mut Minefield, row: usize, col: usize)
    requires
        old(field)@.wf(),
    ensures
        final(field)@ == old(field)@.cleared_around(row as int, col as int).recounted(),
        final(field)@.wf(),
{
    let ghost g0 = field@;
    let ghost r0 = row as int;
    let ghost c0 = col as int;
    let mut dr: usize = 0;
    while dr < 3
        invariant
            field@.wf(),
            field@.rows == g0.rows,
            field@.cols == g0.cols,
            r0 == row,
            c0 == col,
            dr <= 3,
            forall|i: int, j: int| #![trigger field@.cell(i, j)] g0.in_bounds(i, j) ==> field@.cell(i, j) == if in_block(r0, c0, i, j) && i - r0 + 1 < dr {
                Cell { is_mine: false, ..g0.cell(i, j) }
            } else {
                g0.cell(i, j)
            },
        decreases 3 - dr,
    {
        let mut dc: usize = 0;
        while dc < 3
            invariant
                field@.wf(),
                field@.rows == g0.rows,
                field@.cols == g0.cols,
                r0 == row,
                c0 == col,
                dr < 3,
                dc <= 3,
                forall|i: int, j: int| #![trigger field@.cell(i, j)] g0.in_bounds(i, j) ==> field@.cell(i, j) == if in_block(r0, c0, i, j)
                    && (i - r0 + 1 < dr || (i - r0 + 1 == dr && j - c0 + 1 < dc)) {
                    Cell { is_mine: false, ..g0.cell(i, j) }
                } else {
                    g0.cell(i, j)
                },
            decreases 3 - dc,
        {
            proof { field.lemma_view(); }
            if (row > 0 || dr > 0) && (col > 0 || dc > 0) && (row < usize::MAX || dr < 2) && (col < usize::MAX || dc < 2) {
                let i = if dr == 0 { row - 1 } else { row + (dr - 1) };
                let j = if dc == 0 { col - 1 } else { col + (dc - 1) };
                if i < field.rows && j < field.cols {
                    let ghost before = field@;
                    proof { assert(before.cell(i as int, j as int) == g0.cell(i as int, j as int)); }
                    field.content[i][j].is_mine = false;
                    proof {
                        field.lemma_view();
                        assert(field@.cell(i as int, j as int) == Cell { is_mine: false, ..g0.cell(i as int, j as int) });
                        assert(in_block(r0, c0, i as int, j as int));
                        assert forall|a: int, b: int| g0.in_bounds(a, b) && (a != i || b != j) implies #[trigger] field@.cell(a, b) == before.cell(a, b) by {}
                    }
                }
            }
            dc += 1;
        }
        dr += 1;
    }
    proof {
        let g1 = g0.cleared_around(r0, c0);
        assert forall|i: int| 0 <= i < g0.rows implies #[trigger] field@.cells[i] =~= g1.cells[i] by {
            assert forall|j: int| 0 <= j < g0.cols implies #[trigger] field@.cells[i][j] == g1.cells[i][j] by {
                assert(field@.cell(i, j) == g1.cell(i, j));
            }
        }
        assert(field@ =~~= g1);
    }
    field.calculate_adjacent();
}

/// Ends a lost game on the board: every flag is removed and every mine is
/// revealed.
pub fn kaboom(field: &mut Minefield)
    requires
        old(field)@.wf(),
    ensures
        final(field)@ == old(field)@.exploded(),
        final(field)@.wf(),
{
    let ghost g0 = field@;
    proof { field.lemma_view(); }
    let mut row: usize = 0;
    while row < field.rows
        invariant
            field.wf(),
            field@.rows == g0.rows,
            field@.cols == g0.cols,
            row <= field.rows,
            forall|r: int, c: int| #![trigger field@.cell(r, c)] g0.in_bounds(r, c) ==> field@.cell(r, c) == if r < row {
                g0.exploded().cell(r, c)
            } else {
                g0.cell(r, c)
            },
        decreases field.rows - row,
    {
        let mut col: usize = 0;
        while col < field.cols
            invariant
                field.wf(),
                field@.rows == g0.rows,
                field@.cols == g0.cols,
                row < field.rows,
                col <= field.cols,
                forall|r: int, c: int| #![trigger field@.cell(r, c)] g0.in_bounds(r, c) ==> field@.cell(r, c) == if r < row || (r == row && c < col) {
                    g0.exploded().cell(r, c)
                } else {
                    g0.cell(r, c)
                },
            decreases field.cols - col,
        {
            proof {
                field.lemma_view();
                g0.lemma_exploded_cell(row as int, col as int);
            }
            let ghost before = field@;
            let cell = field.content[row][col];
            proof { assert(cell == before.cell(row as int, col as int)); }
            field.content[row][col] = Cell { is_flagged: false, is_revealed: cell.is_revealed || cell.is_mine, ..cell };
            proof {
                field.lemma_view();
                assert(cell == g0.cell(row as int, col as int));
                assert(field@.cell(row as int, col as int) == cell.after_loss());
                assert forall|r: int, c: int| g0.in_bounds(r, c) && (r != row || c != col) implies #[trigger] field@.cell(r, c) == before.cell(r, c) by {}
            }
            col += 1;
        }
        row += 1;
    }
    proof {
        field.lemma_view();
        let g1 = g0.exploded();
        assert forall|r: int| 0 <= r < g0.rows implies #[trigger] field@.cells[r] =~= g1.cells[r] by {
            assert forall|c: int| 0 <= c < g0.cols implies #[trigger] field@.cells[r][c] == g1.cells[r][c] by {
                assert(field@.cell(r, c) == g1.cell(r, c));
            }
        }
        assert(field@ =~~= g1);
    }
}

} // verus!
