use minesweeper::{clear_mines, dig, kaboom, reveal_empty, Cell, Color, Minefield};

fn board(rows: usize, cols: usize, mines: &[(usize, usize)]) -> Minefield {
    Minefield::with_mines(rows, cols, &mines.to_vec())
}

fn revealed_count(field: &Minefield) -> usize {
    field.iter().iter().filter(|c| c.is_revealed).count()
}

fn mine_count(field: &Minefield) -> usize {
    field.iter().iter().filter(|c| c.is_mine).count()
}

fn neighbour_mines(field: &Minefield, row: usize, col: usize) -> u8 {
    let mut n = 0;
    for dr in 0..3usize {
        for dc in 0..3usize {
            if dr == 1 && dc == 1 {
                continue;
            }
            let (Some(r), Some(c)) = ((row + dr).checked_sub(1), (col + dc).checked_sub(1)) else {
                continue;
            };
            if field.get(r, c).is_some_and(|x| x.is_mine) {
                n += 1;
            }
        }
    }
    n
}

#[test]
fn dig_numbered_square_reveals_only_it() {
    let mut field = board(3, 3, &[(0, 0), (2, 2)]);
    assert_eq!(field.get(1, 1).unwrap().adjacent, 2);
    let cell = dig(&mut field, 1, 1).unwrap();
    assert!(cell.is_revealed);
    assert_eq!(cell.glyph(), '2');
    assert_eq!(revealed_count(&field), 1);
    for r in 0..3 {
        for c in 0..3 {
            assert_eq!(field.get(r, c).unwrap().is_revealed, r == 1 && c == 1);
        }
    }
}

#[test]
fn dig_empty_corner_floods_whole_board() {
    let mut field = board(5, 5, &[(4, 4)]);
    for r in 0..5 {
        for c in 0..5 {
            let near = (r >= 3 && c >= 3) && !(r == 4 && c == 4);
            if !(r == 4 && c == 4) {
                assert_eq!(field.get(r, c).unwrap().adjacent, if near { 1 } else { 0 });
            }
        }
    }
    dig(&mut field, 0, 0);
    assert_eq!(revealed_count(&field), 24);
    assert!(!field.get(4, 4).unwrap().is_revealed);
    assert!(!field.is_won());
    field.get_mut(4, 4).unwrap().is_flagged = true;
    assert!(field.is_won());
}

#[test]
fn flood_stops_at_numbers_and_never_reveals_mines() {
    // A wall of mines down the middle column.
    let mut field = board(4, 5, &[(0, 2), (1, 2), (2, 2), (3, 2)]);
    dig(&mut field, 0, 0);
    for r in 0..4 {
        for c in 0..5 {
            let cell = field.get(r, c).unwrap();
            assert_eq!(cell.is_revealed, c < 2, "square ({r}, {c})");
            assert!(!(cell.is_revealed && cell.is_mine));
        }
    }
}

#[test]
fn flood_clears_flags_it_passes() {
    let mut field = board(3, 3, &[]);
    field.get_mut(2, 2).unwrap().is_flagged = true;
    reveal_empty(&mut field, 0, 0);
    assert_eq!(revealed_count(&field), 9);
    assert!(!field.get(2, 2).unwrap().is_flagged);
}

#[test]
fn reveal_empty_off_board_changes_nothing() {
    let mut field = board(2, 2, &[]);
    reveal_empty(&mut field, 5, 0);
    assert_eq!(revealed_count(&field), 0);
}

#[test]
fn dig_flagged_square_does_nothing() {
    let mut field = board(3, 3, &[(1, 1)]);
    field.get_mut(1, 1).unwrap().is_flagged = true;
    let cell = dig(&mut field, 1, 1).unwrap();
    assert!(!cell.is_revealed);
    assert!(cell.is_flagged);
    assert_eq!(revealed_count(&field), 0);
}

#[test]
fn dig_mine_reveals_it() {
    let mut field = board(3, 3, &[(1, 1)]);
    let cell = dig(&mut field, 1, 1).unwrap();
    assert!(cell.is_revealed && cell.is_mine);
    assert_eq!(cell.glyph(), '@');
    assert_eq!(revealed_count(&field), 1);
}

#[test]
fn dig_off_board_is_none() {
    let mut field = board(2, 3, &[]);
    assert!(dig(&mut field, 2, 0).is_none());
    assert!(dig(&mut field, 0, 3).is_none());
    assert_eq!(revealed_count(&field), 0);
}

#[test]
fn accessors_reject_off_board() {
    let mut field = board(2, 3, &[(1, 2)]);
    assert_eq!(field.rows(), 2);
    assert_eq!(field.cols(), 3);
    assert!(field.get(2, 0).is_none());
    assert!(field.get(0, 3).is_none());
    assert!(field.get(usize::MAX, 0).is_none());
    assert!(field.get_mut(0, 3).is_none());
    assert!(field.get(1, 2).unwrap().is_mine);
    assert_eq!(field.iter().len(), 6);
    assert!(field.iter()[5].is_mine);
}

#[test]
fn with_mines_counts_neighbours() {
    let field = board(3, 4, &[(0, 0), (0, 1), (2, 3), (0, 0), (7, 7)]);
    assert_eq!(mine_count(&field), 3);
    assert_eq!(field.get(1, 0).unwrap().adjacent, 2);
    assert_eq!(field.get(1, 1).unwrap().adjacent, 2);
    assert_eq!(field.get(1, 2).unwrap().adjacent, 2);
    assert_eq!(field.get(1, 3).unwrap().adjacent, 1);
    assert_eq!(field.get(2, 0).unwrap().adjacent, 0);
    assert_eq!(field.get(0, 2).unwrap().adjacent, 1);
}

#[test]
fn calculate_adjacent_follows_mine_changes() {
    let mut field = board(3, 3, &[(0, 0)]);
    assert_eq!(field.get(1, 1).unwrap().adjacent, 1);
    field.get_mut(2, 2).unwrap().is_mine = true;
    field.calculate_adjacent();
    assert_eq!(field.get(1, 1).unwrap().adjacent, 2);
    field.get_mut(0, 0).unwrap().is_mine = false;
    field.calculate_adjacent();
    assert_eq!(field.get(1, 1).unwrap().adjacent, 1);
    assert_eq!(field.get(0, 0).unwrap().adjacent, 0);
}

#[test]
fn clear_mines_empties_block_and_recounts() {
    let all: Vec<(usize, usize)> = (0..4).flat_map(|r| (0..4).map(move |c| (r, c))).collect();
    let mut field = board(4, 4, &all);
    clear_mines(&mut field, 0, 0);
    assert_eq!(mine_count(&field), 12);
    assert!(!field.get(0, 0).unwrap().is_mine);
    assert!(!field.get(1, 1).unwrap().is_mine);
    assert!(field.get(2, 2).unwrap().is_mine);
    assert_eq!(field.get(0, 0).unwrap().adjacent, 0);
    assert_eq!(field.get(1, 1).unwrap().adjacent, 5);
    assert_eq!(field.get(0, 1).unwrap().adjacent, 2);
}

#[test]
fn clear_mines_at_far_corner() {
    let mut field = board(3, 3, &[(2, 2), (0, 0)]);
    clear_mines(&mut field, 2, 2);
    assert_eq!(mine_count(&field), 1);
    assert_eq!(field.get(1, 1).unwrap().adjacent, 1);
    assert_eq!(field.get(2, 2).unwrap().adjacent, 0);
}

#[test]
fn kaboom_reveals_mines_and_drops_flags() {
    let mut field = board(2, 2, &[(0, 0), (1, 1)]);
    field.get_mut(0, 0).unwrap().is_flagged = true;
    field.get_mut(0, 1).unwrap().is_flagged = true;
    kaboom(&mut field);
    assert!(field.iter().iter().all(|c| !c.is_flagged));
    assert!(field.get(0, 0).unwrap().is_revealed);
    assert!(field.get(1, 1).unwrap().is_revealed);
    assert!(!field.get(0, 1).unwrap().is_revealed);
    assert!(!field.get(1, 0).unwrap().is_revealed);
}

#[test]
fn win_needs_revealed_squares_and_flagged_mines() {
    let mut field = board(2, 2, &[(0, 0)]);
    for (r, c) in [(0, 1), (1, 0), (1, 1)] {
        field.get_mut(r, c).unwrap().is_revealed = true;
    }
    assert!(!field.is_won());
    field.get_mut(0, 0).unwrap().is_flagged = true;
    assert!(field.is_won());
    field.get_mut(1, 1).unwrap().is_revealed = false;
    assert!(!field.is_won());
}

#[test]
fn generate_counts_are_exact() {
    for _ in 0..20 {
        let field = Minefield::generate(9, 13);
        assert_eq!(field.rows(), 9);
        assert_eq!(field.cols(), 13);
        for r in 0..9 {
            for c in 0..13 {
                let cell = field.get(r, c).unwrap();
                assert!(!cell.is_revealed && !cell.is_flagged);
                if !cell.is_mine {
                    assert!(cell.adjacent <= 8);
                    assert_eq!(cell.adjacent, neighbour_mines(&field, r, c));
                }
            }
        }
    }
}

#[test]
fn generate_mine_density_bounded() {
    for _ in 0..20 {
        let field = Minefield::generate(10, 10);
        let mines = mine_count(&field);
        assert!(mines >= 1, "twenty draws on the board make at least one mine");
        assert!(mines <= 20);
    }
    let field = Minefield::generate(2, 2);
    assert_eq!(mine_count(&field), 0);
    let field = Minefield::generate(0, 7);
    assert_eq!(field.iter().len(), 0);
}

#[test]
fn glyphs_and_colours() {
    let mut cell = Cell::default();
    assert_eq!(cell.glyph(), '?');
    assert_eq!(cell.color(), Color::Plain);
    cell.is_flagged = true;
    assert_eq!(cell.glyph(), '%');
    assert_eq!(cell.color(), Color::Yellow);
    cell.is_flagged = false;
    cell.is_revealed = true;
    assert_eq!(cell.glyph(), ' ');
    for (n, g, col) in [
        (1u8, '1', Color::Blue),
        (2, '2', Color::Green),
        (3, '3', Color::Red),
        (4, '4', Color::Purple),
        (5, '5', Color::Yellow),
        (8, '8', Color::Yellow),
    ] {
        cell.adjacent = n;
        assert_eq!(cell.glyph(), g);
        assert_eq!(cell.color(), col);
    }
    cell.is_mine = true;
    assert_eq!(cell.glyph(), '@');
    assert_eq!(cell.color(), Color::Red);
    assert_eq!(Color::Blue.ansi_code(), 94);
    assert_eq!(Color::Green.ansi_code(), 92);
    assert_eq!(Color::Red.ansi_code(), 91);
    assert_eq!(Color::Purple.ansi_code(), 95);
    assert_eq!(Color::Yellow.ansi_code(), 93);
    assert_eq!(Color::Plain.ansi_code(), 0);
}

#[test]
fn changed_since_lists_touched_squares() {
    let mut field = board(3, 3, &[(2, 2)]);
    let before = field.clone();
    assert!(field.changed_since(&before).is_empty());
    dig(&mut field, 2, 1);
    field.get_mut(0, 2).unwrap().is_flagged = true;
    assert_eq!(field.changed_since(&before), vec![(0, 2), (2, 1)]);
    let before = field.clone();
    dig(&mut field, 0, 0);
    let changed = field.changed_since(&before);
    assert_eq!(changed.len(), 7);
    assert!(changed.contains(&(0, 2)));
    assert!(!changed.contains(&(2, 1)));
    assert!(!changed.contains(&(2, 2)));
}
