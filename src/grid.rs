use vstd::prelude::*;

use crate::cell::Cell;

verus! {

/// The mathematical picture of a board: `cells[r][c]` is the square in row
/// `r` and column `c`.
#[verifier::ext_equal]
pub struct Grid {
    pub rows: nat,
    pub cols: nat,
    pub cells: Seq<Seq<Cell>>,
}

/// Two distinct squares that share an edge or a corner.
pub open spec fn touching(r1: int, c1: int, r2: int, c2: int) -> bool {
    &&& (r1 != r2 || c1 != c2)
    &&& -1 <= r1 - r2 <= 1
    &&& -1 <= c1 - c2 <= 1
}

/// A square of the 3x3 block centred on `(r, c)`, the centre included.
pub open spec fn in_block(r: int, c: int, i: int, j: int) -> bool {
    -1 <= i - r <= 1 && -1 <= j - c <= 1
}

pub open spec fn mine_pred() -> spec_fn(Cell) -> bool {
    |x: Cell| x.is_mine
}

pub open spec fn hidden_pred() -> spec_fn(Cell) -> bool {
    |x: Cell| !x.is_revealed
}

/// How many squares of one row satisfy `p`.
pub open spec fn count_row(s: Seq<Cell>, p: spec_fn(Cell) -> bool) -> nat
    decreases s.len(),
{
    if s.len() == 0 {
        0
    } else {
        count_row(s.drop_last(), p) + if p(s.last()) {
            1nat
        } else {
            0nat
        }
    }
}

/// How many squares of all rows satisfy `p`.
pub open spec fn count_rows(g: Seq<Seq<Cell>>, p: spec_fn(Cell) -> bool) -> nat
    decreases g.len(),
{
    if g.len() == 0 {
        0
    } else {
        count_rows(g.drop_last(), p) + count_row(g.last(), p)
    }
}

/// All squares, row after row.
pub open spec fn row_major(g: Seq<Seq<Cell>>) -> Seq<Cell>
    decreases g.len(),
{
    if g.len() == 0 {
        Seq::empty()
    } else {
        row_major(g.drop_last()) + g.last()
    }
}

impl Grid {
    /// A board of hidden, unflagged squares without mines.
    pub open spec fn blank(rows: nat, cols: nat) -> Grid {
        Grid { rows, cols, cells: Seq::new(rows, |r: int| Seq::new(cols, |c: int| Cell::blank())) }
    }

    /// A board of hidden, unflagged squares whose mines are the squares that
    /// `d` names (adjacency counts not yet computed).
    pub open spec fn mined(rows: nat, cols: nat, d: Seq<(usize, usize)>) -> Grid {
        Grid::blank(rows, cols).map_cells(
            |i: int, j: int, x: Cell| Cell { is_mine: d.contains((i as usize, j as usize)), ..x },
        )
    }

    pub open spec fn wf(self) -> bool {
        &&& self.cells.len() == self.rows
        &&& forall|r: int| 0 <= r < self.rows ==> #[trigger] self.cells[r].len() == self.cols
    }

    pub open spec fn in_bounds(self, r: int, c: int) -> bool {
        0 <= r < self.rows && 0 <= c < self.cols
    }

    pub open spec fn cell(self, r: int, c: int) -> Cell {
        self.cells[r][c]
    }

    /// The grid of the same size whose square `(r, c)` is `f(r, c, old square)`.
    pub open spec fn map_cells(self, f: spec_fn(int, int, Cell) -> Cell) -> Grid {
        Grid {
            rows: self.rows,
            cols: self.cols,
            cells: Seq::new(
                self.rows,
                |r: int| Seq::new(self.cols, |c: int| f(r, c, self.cells[r][c])),
            ),
        }
    }

    /// A square of a mapped grid is the map applied to the old square.
    pub proof fn lemma_map_cells_cell(self, f: spec_fn(int, int, Cell) -> Cell, r: int, c: int)
        requires
            self.in_bounds(r, c),
        ensures
            #[trigger] self.map_cells(f).cell(r, c) == f(r, c, self.cell(r, c)),
    {
    }

    /// A square after recounting: mines unchanged, others with their count.
    pub proof fn lemma_recounted_cell(self, r: int, c: int)
        requires
            self.in_bounds(r, c),
        ensures
            #[trigger] self.recounted().cell(r, c) == (if self.cell(r, c).is_mine {
                self.cell(r, c)
            } else {
                Cell { adjacent: self.adjacent_mines(r, c) as u8, ..self.cell(r, c) }
            }),
    {
    }

    /// A square after a loss.
    pub proof fn lemma_exploded_cell(self, r: int, c: int)
        requires
            self.in_bounds(r, c),
        ensures
            #[trigger] self.exploded().cell(r, c) == self.cell(r, c).after_loss(),
    {
    }

    /// Recounting leaves the mines where they are and makes every count exact.
    pub proof fn lemma_recounted_consistent(self)
        requires
            self.wf(),
        ensures
            self.recounted().wf(),
            self.recounted().adjacency_consistent(),
            forall|r: int, c: int| self.in_bounds(r, c) ==> #[trigger] self.recounted().cell(r, c).is_mine == self.cell(r, c).is_mine,
            forall|r: int, c: int| #[trigger] self.recounted().mine_at(r, c) == self.mine_at(r, c),
            self.recounted().mine_count() == self.mine_count(),
    {
        let g = self.recounted();
        assert forall|r: int, c: int| self.in_bounds(r, c) implies #[trigger] g.cell(r, c).is_mine == self.cell(r, c).is_mine by {
            self.lemma_recounted_cell(r, c);
        }
        assert forall|r: int, c: int| #[trigger] g.mine_at(r, c) == self.mine_at(r, c) by {
            if self.in_bounds(r, c) {
                self.lemma_recounted_cell(r, c);
            }
        }
        assert forall|r: int, c: int| g.in_bounds(r, c) && !#[trigger] g.cell(r, c).is_mine implies g.cell(r, c).adjacent == g.adjacent_mines(r, c) by {
            self.lemma_recounted_cell(r, c);
            assert(g.adjacent_mines(r, c) == self.adjacent_mines(r, c));
        }
        assert forall|k: int, l: int| 0 <= k < self.cells.len() && 0 <= l < self.cells[k].len() implies mine_pred()(#[trigger] self.cells[k][l]) == mine_pred()(g.cells[k][l]) by {
            self.lemma_recounted_cell(k, l);
        }
        lemma_count_rows_agree(self.cells, g.cells, mine_pred());
    }

    pub open spec fn with_cell(self, r: int, c: int, x: Cell) -> Grid {
        Grid { cells: self.cells.update(r, self.cells[r].update(c, x)), ..self }
    }

    /// 1 where `(r, c)` is on the board and holds a mine, 0 elsewhere.
    pub open spec fn mine_at(self, r: int, c: int) -> nat {
        if self.in_bounds(r, c) && self.cell(r, c).is_mine {
            1
        } else {
            0
        }
    }

    /// The number of mines among the (up to) eight squares touching `(r, c)`;
    /// squares off the board count for nothing.
    pub open spec fn adjacent_mines(self, r: int, c: int) -> nat {
        self.mine_at(r - 1, c - 1) + self.mine_at(r - 1, c) + self.mine_at(r - 1, c + 1)
            + self.mine_at(r, c - 1) + self.mine_at(r, c + 1) + self.mine_at(r + 1, c - 1)
            + self.mine_at(r + 1, c) + self.mine_at(r + 1, c + 1)
    }

    /// Every square that is not a mine holds the count of its neighbouring mines.
    pub open spec fn adjacency_consistent(self) -> bool {
        forall|r: int, c: int|
            self.in_bounds(r, c) && !#[trigger] self.cell(r, c).is_mine ==> self.cell(
                r,
                c,
            ).adjacent == self.adjacent_mines(r, c)
    }

    /// The grid with the adjacency count of every square that is not a mine
    /// recomputed; mines are left as they are.
    pub open spec fn recounted(self) -> Grid {
        self.map_cells(
            |r: int, c: int, x: Cell|
                if x.is_mine {
                    x
                } else {
                    Cell { adjacent: self.adjacent_mines(r, c) as u8, ..x }
                },
        )
    }

    /// The grid with no mine left in the 3x3 block centred on `(r, c)`
    /// (adjacency counts not yet recomputed).
    pub open spec fn cleared_around(self, r: int, c: int) -> Grid {
        self.map_cells(
            |i: int, j: int, x: Cell|
                if in_block(r, c, i, j) {
                    Cell { is_mine: false, ..x }
                } else {
                    x
                },
        )
    }

    /// `p` is a walk over the board that starts at `(r, c)`, steps between
    /// touching squares, and passes only through squares that open a region
    /// (its last square may be any square).
    pub open spec fn is_path(self, p: Seq<(int, int)>, r: int, c: int) -> bool {
        &&& p.len() > 0
        &&& p[0] == (r, c)
        &&& forall|k: int| 0 <= k < p.len() ==> self.in_bounds(#[trigger] p[k].0, p[k].1)
        &&& forall|k: int|
            0 <= k < p.len() - 1 ==> #[trigger] self.cell(p[k].0, p[k].1).opens_region()
                && touching(p[k].0, p[k].1, p[k + 1].0, p[k + 1].1)
    }

    /// A cascade started at `(r, c)` gets to `(i, j)`.
    pub open spec fn reaches(self, r: int, c: int, i: int, j: int) -> bool {
        exists|p: Seq<(int, int)>| #[trigger] self.is_path(p, r, c) && p.last() == (i, j)
    }

    /// The grid after the cascade started at `(r, c)`: every hidden square it
    /// reaches is revealed and loses its flag; nothing else changes.
    pub open spec fn flooded(self, r: int, c: int) -> Grid {
        self.map_cells(
            |i: int, j: int, x: Cell|
                if !x.is_revealed && self.reaches(r, c, i, j) {
                    x.uncovered()
                } else {
                    x
                },
        )
    }

    /// A cascade started off the board changes nothing.
    pub proof fn lemma_flooded_off_board(self, r: int, c: int)
        requires
            self.wf(),
            !self.in_bounds(r, c),
        ensures
            self.flooded(r, c) == self,
    {
        assert forall|i: int, j: int| !#[trigger] self.reaches(r, c, i, j) by {
            if self.reaches(r, c, i, j) {
                let p = choose|p: Seq<(int, int)>| #[trigger] self.is_path(p, r, c) && p.last() == (i, j);
                assert(self.in_bounds(p[0].0, p[0].1));
            }
        }
        let f = self.flooded(r, c);
        assert forall|i: int| 0 <= i < self.rows implies #[trigger] f.cells[i] =~= self.cells[i] by {}
        assert(f =~~= self);
    }

    /// A walk that ends on a square opening a region goes on to any square
    /// on the board that touches it.
    pub proof fn lemma_path_extend(self, p: Seq<(int, int)>, r: int, c: int, i: int, j: int)
        requires
            self.is_path(p, r, c),
            self.cell(p.last().0, p.last().1).opens_region(),
            touching(p.last().0, p.last().1, i, j),
            self.in_bounds(i, j),
        ensures
            self.is_path(p.push((i, j)), r, c),
            self.reaches(r, c, i, j),
    {
        let q = p.push((i, j));
        assert(q[0] == p[0]);
        assert forall|m: int| 0 <= m < q.len() implies self.in_bounds(#[trigger] q[m].0, q[m].1) by {
            if m < p.len() {
                assert(q[m] == p[m]);
            }
        }
        assert forall|m: int| 0 <= m < q.len() - 1 implies #[trigger] self.cell(q[m].0, q[m].1).opens_region()
            && touching(q[m].0, q[m].1, q[m + 1].0, q[m + 1].1) by {
            assert(q[m] == p[m]);
            if m < p.len() - 1 {
                assert(q[m + 1] == p[m + 1]);
            }
        }
        assert(q.last() == (i, j));
    }

    /// Once the revealed squares of `g` contain `(r, c)` and every hidden
    /// square touching a square of `self` that opens a region and is revealed
    /// in `g`, every square that the cascade reaches is revealed in `g`.
    pub proof fn lemma_path_revealed(self, g: Grid, r: int, c: int, p: Seq<(int, int)>)
        requires
            self.is_path(p, r, c),
            g.cell(r, c).is_revealed,
            forall|r1: int, c1: int, r2: int, c2: int| #![trigger touching(r1, c1, r2, c2)]
                self.in_bounds(r1, c1) && g.cell(r1, c1).is_revealed && self.cell(r1, c1).opens_region()
                && touching(r1, c1, r2, c2) && self.in_bounds(r2, c2) ==> g.cell(r2, c2).is_revealed,
        ensures
            g.cell(p.last().0, p.last().1).is_revealed,
        decreases p.len(),
    {
        if p.len() > 1 {
            let q = p.drop_last();
            assert(self.is_path(q, r, c)) by {
                assert forall|k: int| 0 <= k < q.len() implies self.in_bounds(#[trigger] q[k].0, q[k].1) by {
                    assert(q[k] == p[k]);
                }
                assert forall|k: int| 0 <= k < q.len() - 1 implies #[trigger] self.cell(q[k].0, q[k].1).opens_region()
                    && touching(q[k].0, q[k].1, q[k + 1].0, q[k + 1].1) by {
                    assert(q[k] == p[k] && q[k + 1] == p[k + 1]);
                }
            }
            self.lemma_path_revealed(g, r, c, q);
            let k = p.len() - 2;
            assert(self.cell(p[k].0, p[k].1).opens_region());
            assert(touching(p[k].0, p[k].1, p[k + 1].0, p[k + 1].1));
            assert(self.in_bounds(p[k + 1].0, p[k + 1].1));
        }
    }

    /// A board that differs from `self` only by squares that the cascade from
    /// `(r, c)` reaches, revealed, and that is closed under the cascade, is
    /// the flooded board.
    pub proof fn lemma_cascade_complete(self, g: Grid, r: int, c: int)
        requires
            self.wf(),
            g.wf(),
            g.rows == self.rows,
            g.cols == self.cols,
            self.in_bounds(r, c),
            g.cell(r, c).is_revealed,
            forall|i: int, j: int| #![trigger g.cell(i, j)] self.in_bounds(i, j) ==> g.cell(i, j) == self.cell(i, j)
                || (!self.cell(i, j).is_revealed && self.reaches(r, c, i, j) && g.cell(i, j) == self.cell(i, j).uncovered()),
            forall|r1: int, c1: int, r2: int, c2: int| #![trigger touching(r1, c1, r2, c2)]
                self.in_bounds(r1, c1) && g.cell(r1, c1).is_revealed && self.cell(r1, c1).opens_region()
                && touching(r1, c1, r2, c2) && self.in_bounds(r2, c2) ==> g.cell(r2, c2).is_revealed,
        ensures
            forall|i: int, j: int| self.in_bounds(i, j) ==> #[trigger] g.cell(i, j) == self.flooded(r, c).cell(i, j),
    {
        assert forall|i: int, j: int| self.in_bounds(i, j) implies #[trigger] g.cell(i, j) == self.flooded(r, c).cell(i, j) by {
            if !self.cell(i, j).is_revealed && self.reaches(r, c, i, j) {
                let p = choose|p: Seq<(int, int)>| #[trigger] self.is_path(p, r, c) && p.last() == (i, j);
                self.lemma_path_revealed(g, r, c, p);
            }
        }
    }

    /// The grid after a dig at `(r, c)`: nothing happens off the board or on
    /// a flagged square; a square that is no mine and has no mine around it
    /// starts a cascade; any other square is revealed alone.
    pub open spec fn dug(self, r: int, c: int) -> Grid {
        if !self.in_bounds(r, c) || self.cell(r, c).is_flagged {
            self
        } else if self.cell(r, c).adjacent == 0 && !self.cell(r, c).is_mine {
            self.flooded(r, c)
        } else {
            self.with_cell(r, c, Cell { is_revealed: true, ..self.cell(r, c) })
        }
    }

    /// The grid once the game is lost: every flag is removed and every mine
    /// is revealed.
    pub open spec fn exploded(self) -> Grid {
        self.map_cells(|i: int, j: int, x: Cell| x.after_loss())
    }

    /// Every square is revealed, or is a flagged mine.
    pub open spec fn won(self) -> bool {
        forall|r: int, c: int|
            self.in_bounds(r, c) ==> #[trigger] self.cell(r, c).is_revealed || (self.cell(
                r,
                c,
            ).is_mine && self.cell(r, c).is_flagged)
    }

    pub open spec fn mine_count(self) -> nat {
        count_rows(self.cells, mine_pred())
    }

    pub open spec fn hidden_count(self) -> nat {
        count_rows(self.cells, hidden_pred())
    }
}

/// Changing one square of a row changes its count by at most that square.
pub proof fn lemma_count_row_update(s: Seq<Cell>, i: int, x: Cell, p: spec_fn(Cell) -> bool)
    requires
        0 <= i < s.len(),
    ensures
        count_row(s.update(i, x), p) + (if p(s[i]) {
            1nat
        } else {
            0nat
        }) == count_row(s, p) + (if p(x) {
            1nat
        } else {
            0nat
        }),
    decreases s.len(),
{
    let t = s.update(i, x);
    if i < s.len() - 1 {
        assert(t.drop_last() =~= s.drop_last().update(i, x));
        lemma_count_row_update(s.drop_last(), i, x, p);
    } else {
        assert(t.drop_last() =~= s.drop_last());
    }
}

/// Replacing one row changes the count by the difference of the two rows.
pub proof fn lemma_count_rows_update(g: Seq<Seq<Cell>>, i: int, row: Seq<Cell>, p: spec_fn(Cell) -> bool)
    requires
        0 <= i < g.len(),
    ensures
        count_rows(g.update(i, row), p) + count_row(g[i], p) == count_rows(g, p) + count_row(row, p),
    decreases g.len(),
{
    let t = g.update(i, row);
    if i < g.len() - 1 {
        assert(t.drop_last() =~= g.drop_last().update(i, row));
        lemma_count_rows_update(g.drop_last(), i, row, p);
    } else {
        assert(t.drop_last() =~= g.drop_last());
    }
}

/// Changing one square changes a count by at most the one square.
pub proof fn lemma_count_with_cell(g: Grid, r: int, c: int, x: Cell, p: spec_fn(Cell) -> bool)
    requires
        g.wf(),
        g.in_bounds(r, c),
    ensures
        count_rows(g.with_cell(r, c, x).cells, p) + (if p(g.cell(r, c)) {
            1nat
        } else {
            0nat
        }) == count_rows(g.cells, p) + (if p(x) {
            1nat
        } else {
            0nat
        }),
{
    lemma_count_row_update(g.cells[r], c, x, p);
    lemma_count_rows_update(g.cells, r, g.cells[r].update(c, x), p);
}

/// Two rows whose squares agree on `p` have the same count.
pub proof fn lemma_count_row_agree(a: Seq<Cell>, b: Seq<Cell>, p: spec_fn(Cell) -> bool)
    requires
        a.len() == b.len(),
        forall|k: int| 0 <= k < a.len() ==> p(#[trigger] a[k]) == p(b[k]),
    ensures
        count_row(a, p) == count_row(b, p),
    decreases a.len(),
{
    if a.len() > 0 {
        lemma_count_row_agree(a.drop_last(), b.drop_last(), p);
    }
}

/// Grids whose squares agree on `p` have the same count.
pub proof fn lemma_count_rows_agree(a: Seq<Seq<Cell>>, b: Seq<Seq<Cell>>, p: spec_fn(Cell) -> bool)
    requires
        a.len() == b.len(),
        forall|k: int| 0 <= k < a.len() ==> (#[trigger] a[k]).len() == b[k].len(),
        forall|k: int, l: int| 0 <= k < a.len() && 0 <= l < a[k].len() ==> p(#[trigger] a[k][l]) == p(b[k][l]),
    ensures
        count_rows(a, p) == count_rows(b, p),
    decreases a.len(),
{
    if a.len() > 0 {
        let k = a.len() - 1;
        assert forall|l: int| 0 <= l < a[k].len() implies p(#[trigger] a[k][l]) == p(b[k][l]) by {}
        lemma_count_row_agree(a[k], b[k], p);
        lemma_count_rows_agree(a.drop_last(), b.drop_last(), p);
    }
}

/// A count over squares none of which satisfies `p` is zero.
pub proof fn lemma_count_rows_none(g: Seq<Seq<Cell>>, p: spec_fn(Cell) -> bool)
    requires
        forall|k: int, l: int| 0 <= k < g.len() && 0 <= l < g[k].len() ==> !p(#[trigger] g[k][l]),
    ensures
        count_rows(g, p) == 0,
    decreases g.len(),
{
    if g.len() > 0 {
        let k = g.len() - 1;
        assert forall|l: int| 0 <= l < g[k].len() implies !p(#[trigger] g[k][l]) by {}
        lemma_count_row_none(g[k], p);
        lemma_count_rows_none(g.drop_last(), p);
    }
}

/// A row none of whose squares satisfies `p` counts zero.
pub proof fn lemma_count_row_none(s: Seq<Cell>, p: spec_fn(Cell) -> bool)
    requires
        forall|l: int| 0 <= l < s.len() ==> !p(#[trigger] s[l]),
    ensures
        count_row(s, p) == 0,
    decreases s.len(),
{
    if s.len() > 0 {
        lemma_count_row_none(s.drop_last(), p);
    }
}

} // verus!
