use vstd::prelude::*;

use crate::cell::Cell;
use crate::game::{Direction, GameView, Status};
use crate::grid::{touching, Grid};

verus! {

/// On every board that `Minefield::generate` can produce (mines at the drawn
/// squares, counts computed), each square that is not a mine holds the exact
/// number of mines among its neighbours, which is at most 8.
pub proof fn generated_counts_exact(rows: nat, cols: nat, d: Seq<(usize, usize)>)
    ensures
        forall|r: int, c: int| #![trigger Grid::mined(rows, cols, d).recounted().cell(r, c)]
            Grid::mined(rows, cols, d).recounted().in_bounds(r, c)
            && !Grid::mined(rows, cols, d).recounted().cell(r, c).is_mine
            ==> Grid::mined(rows, cols, d).recounted().cell(r, c).adjacent == Grid::mined(rows, cols, d).recounted().adjacent_mines(r, c)
                && Grid::mined(rows, cols, d).recounted().cell(r, c).adjacent <= 8,
{
    let g = Grid::mined(rows, cols, d);
    g.lemma_recounted_consistent();
    let h = g.recounted();
    assert forall|r: int, c: int| #![trigger h.cell(r, c)] h.in_bounds(r, c) && !h.cell(r, c).is_mine implies h.cell(r, c).adjacent
        == h.adjacent_mines(r, c) && h.cell(r, c).adjacent <= 8 by {
        assert(h.adjacent_mines(r, c) <= 8);
    }
}

/// A square that is no mine and touches a mine has a non-zero count on a
/// board whose counts are exact.
proof fn lemma_touching_mine(g: Grid, a: int, b: int, i: int, j: int)
    requires
        g.adjacency_consistent(),
        g.in_bounds(a, b),
        !g.cell(a, b).is_mine,
        g.cell(a, b).adjacent == 0,
        touching(a, b, i, j),
        g.in_bounds(i, j),
    ensures
        !g.cell(i, j).is_mine,
{
    assert(g.cell(a, b).adjacent == g.adjacent_mines(a, b));
    if g.cell(i, j).is_mine {
        assert(g.mine_at(i, j) == 1);
    }
}

/// On a board with exact counts, a cascade started on a square that is not
/// a mine never reveals a mine; every square it reveals is reached from the
/// start through empty squares; and the revealed region is closed: each
/// empty square it newly reveals has all its neighbours revealed.
pub proof fn flood_reveals_no_mine(g: Grid, r: int, c: int)
    requires
        g.wf(),
        g.adjacency_consistent(),
        g.in_bounds(r, c),
        !g.cell(r, c).is_mine,
    ensures
        forall|i: int, j: int| #![trigger g.flooded(r, c).cell(i, j)]
            g.in_bounds(i, j) && g.flooded(r, c).cell(i, j).is_revealed && !g.cell(i, j).is_revealed
            ==> !g.cell(i, j).is_mine && g.reaches(r, c, i, j),
        forall|i: int, j: int, k: int, l: int| #![trigger g.flooded(r, c).cell(i, j), touching(i, j, k, l)]
            g.in_bounds(i, j) && g.flooded(r, c).cell(i, j).is_revealed && g.cell(i, j).opens_region()
            && touching(i, j, k, l) && g.in_bounds(k, l) ==> g.flooded(r, c).cell(k, l).is_revealed,
{
    let f = g.flooded(r, c);
    assert forall|i: int, j: int| #![trigger f.cell(i, j)]
        g.in_bounds(i, j) && f.cell(i, j).is_revealed && !g.cell(i, j).is_revealed
        implies !g.cell(i, j).is_mine && g.reaches(r, c, i, j) by {
        assert(g.reaches(r, c, i, j));
        let p = choose|p: Seq<(int, int)>| #[trigger] g.is_path(p, r, c) && p.last() == (i, j);
        if p.len() > 1 {
            let m = p.len() - 2;
            assert(g.cell(p[m].0, p[m].1).opens_region());
            assert(touching(p[m].0, p[m].1, p[m + 1].0, p[m + 1].1));
            lemma_touching_mine(g, p[m].0, p[m].1, i, j);
        }
    }
    assert forall|i: int, j: int, k: int, l: int| #![trigger f.cell(i, j), touching(i, j, k, l)]
        g.in_bounds(i, j) && f.cell(i, j).is_revealed && g.cell(i, j).opens_region()
        && touching(i, j, k, l) && g.in_bounds(k, l) implies f.cell(k, l).is_revealed by {
        assert(g.reaches(r, c, i, j));
        let p = choose|p: Seq<(int, int)>| #[trigger] g.is_path(p, r, c) && p.last() == (i, j);
        g.lemma_path_extend(p, r, c, k, l);
        assert(f.cell(k, l) == (if !g.cell(k, l).is_revealed && g.reaches(r, c, k, l) {
            g.cell(k, l).uncovered()
        } else {
            g.cell(k, l)
        }));
    }
}

/// The first dig of a game never loses: after the safety clear the 3x3
/// block under the cursor holds no mine and every count on the board is
/// exact.
pub proof fn first_dig_is_safe(v: GameView)
    requires
        v.wf(),
        !v.first_move_taken,
        v.status == Status::Playing,
    ensures
        forall|i: int, j: int| #![trigger v.safe_start().grid.cell(i, j)]
            v.grid.in_bounds(i, j) && -1 <= i - v.row <= 1 && -1 <= j - v.col <= 1
            ==> !v.safe_start().grid.cell(i, j).is_mine,
        v.safe_start().grid.adjacency_consistent(),
        v.dug_here().status == Status::Playing,
{
    let g0 = v.grid.cleared_around(v.row, v.col);
    g0.lemma_recounted_consistent();
    let g1 = g0.recounted();
    assert forall|i: int, j: int| #![trigger g1.cell(i, j)]
        v.grid.in_bounds(i, j) && -1 <= i - v.row <= 1 && -1 <= j - v.col <= 1 implies !g1.cell(i, j).is_mine by {
        v.grid.lemma_map_cells_cell(
            |a: int, b: int, x: Cell|
                if crate::grid::in_block(v.row, v.col, a, b) {
                    Cell { is_mine: false, ..x }
                } else {
                    x
                },
            i,
            j,
        );
    }
    assert(!g1.cell(v.row, v.col).is_mine);
    let g2 = g1.dug(v.row, v.col);
    if !g1.cell(v.row, v.col).is_flagged {
        if g1.cell(v.row, v.col).adjacent == 0 && !g1.cell(v.row, v.col).is_mine {
            g1.lemma_map_cells_cell(
                |a: int, b: int, x: Cell|
                    if !x.is_revealed && g1.reaches(v.row, v.col, a, b) {
                        x.uncovered()
                    } else {
                        x
                    },
                v.row,
                v.col,
            );
        }
    }
    assert(!g2.cell(v.row, v.col).is_mine);
}

/// Flagging a revealed square changes nothing; a square that is flagged and
/// then dug stays hidden and flagged, and the dig does not lose the game.
pub proof fn flag_protects(v: GameView)
    requires
        v.wf(),
    ensures
        v.grid.cell(v.row, v.col).is_revealed ==> v.toggled() == v,
        !v.grid.cell(v.row, v.col).is_revealed && !v.grid.cell(v.row, v.col).is_flagged ==> {
            let w = v.toggled().dug_here();
            &&& !w.grid.cell(v.row, v.col).is_revealed
            &&& w.grid.cell(v.row, v.col).is_flagged
            &&& w.status == v.status
        },
{
    let x = v.grid.cell(v.row, v.col);
    if x.is_revealed {
        assert(v.grid.cells[v.row].update(v.col, x) =~= v.grid.cells[v.row]);
        assert(v.grid.cells.update(v.row, v.grid.cells[v.row]) =~= v.grid.cells);
        assert(v.toggled().grid =~~= v.grid);
    }
    if !x.is_revealed && !x.is_flagged {
        let t = v.toggled();
        let s = t.safe_start();
        assert(t.grid.cell(v.row, v.col).is_flagged && !t.grid.cell(v.row, v.col).is_revealed);
        if !t.first_move_taken {
            let g0 = t.grid.cleared_around(v.row, v.col);
            t.grid.lemma_map_cells_cell(
                |a: int, b: int, y: Cell|
                    if crate::grid::in_block(v.row, v.col, a, b) {
                        Cell { is_mine: false, ..y }
                    } else {
                        y
                    },
                v.row,
                v.col,
            );
            g0.lemma_recounted_cell(v.row, v.col);
        }
        assert(s.grid.cell(v.row, v.col).is_flagged && !s.grid.cell(v.row, v.col).is_revealed);
        assert(s.grid.dug(v.row, v.col) == s.grid);
    }
}

/// A board where every square that is no mine is revealed and every mine is
/// flagged is won; a board with a hidden square that is no mine, or a hidden
/// mine without a flag, is not.
pub proof fn win_condition(g: Grid)
    ensures
        (forall|r: int, c: int| #![trigger g.cell(r, c)] g.in_bounds(r, c) ==> (!g.cell(r, c).is_mine ==> g.cell(r, c).is_revealed)
            && (g.cell(r, c).is_mine ==> g.cell(r, c).is_flagged)) ==> g.won(),
        forall|r: int, c: int| #![trigger g.cell(r, c)] g.in_bounds(r, c) && !g.cell(r, c).is_revealed && !g.cell(r, c).is_mine ==> !g.won(),
        forall|r: int, c: int| #![trigger g.cell(r, c)] g.in_bounds(r, c) && !g.cell(r, c).is_revealed && g.cell(r, c).is_mine && !g.cell(r, c).is_flagged ==> !g.won(),
{
}

/// One-square cursor moves wrap around: left from the first column lands on
/// the last, down from the last row lands on the first (and the same for
/// right and up).
pub proof fn cursor_wraps(v: GameView, next: GameView)
    requires
        v.wf(),
    ensures
        v.col == 0 && v.moved(next, Direction::Left, false) ==> next.col == v.grid.cols - 1 && next.row == v.row,
        v.col == v.grid.cols - 1 && v.moved(next, Direction::Right, false) ==> next.col == 0 && next.row == v.row,
        v.row == v.grid.rows - 1 && v.moved(next, Direction::Down, false) ==> next.row == 0 && next.col == v.col,
        v.row == 0 && v.moved(next, Direction::Up, false) ==> next.row == v.grid.rows - 1 && next.col == v.col,
        v.moved(next, Direction::Left, false) || v.moved(next, Direction::Right, false)
            || v.moved(next, Direction::Up, false) || v.moved(next, Direction::Down, false) ==> next.wf(),
{
    let rows = v.grid.rows as int;
    let cols = v.grid.cols as int;
    assert((cols - 1 + cols - 1) % cols == cols - 2 || cols == 1) by (nonlinear_arith)
        requires
            cols >= 1,
    ;
    assert((0 + cols - 1) % cols == cols - 1) by (nonlinear_arith)
        requires
            cols >= 1,
    ;
    assert((cols - 1 + 1) % cols == 0) by (nonlinear_arith)
        requires
            cols >= 1,
    ;
    assert((rows - 1 + 1) % rows == 0) by (nonlinear_arith)
        requires
            rows >= 1,
    ;
    assert((0 + rows - 1) % rows == rows - 1) by (nonlinear_arith)
        requires
            rows >= 1,
    ;
    assert(0 <= (v.row + rows - 1) % rows < rows && 0 <= (v.row + 1) % rows < rows) by (nonlinear_arith)
        requires
            rows >= 1,
    ;
    assert(0 <= (v.col + cols - 1) % cols < cols && 0 <= (v.col + 1) % cols < cols) by (nonlinear_arith)
        requires
            cols >= 1,
    ;
}

} // verus!
