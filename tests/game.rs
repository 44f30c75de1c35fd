use minesweeper::{Action, Direction, Game, Minefield, Status};

fn game(rows: usize, cols: usize, mines: &[(usize, usize)]) -> Game {
    Game::new(Minefield::with_mines(rows, cols, &mines.to_vec()))
}

fn uncover(g: &mut Game, r: usize, c: usize) {
    g.field.get_mut(r, c).unwrap().is_revealed = true;
}

#[test]
fn cursor_wraps_at_edges() {
    let mut g = game(4, 6, &[]);
    assert_eq!((g.row, g.col), (0, 0));
    g.apply(Action::Move(Direction::Left, false));
    assert_eq!((g.row, g.col), (0, 5));
    g.apply(Action::Move(Direction::Right, false));
    assert_eq!((g.row, g.col), (0, 0));
    g.apply(Action::Move(Direction::Up, false));
    assert_eq!((g.row, g.col), (3, 0));
    g.apply(Action::Move(Direction::Down, false));
    assert_eq!((g.row, g.col), (0, 0));
    g.apply(Action::Move(Direction::Down, false));
    assert_eq!((g.row, g.col), (1, 0));
    assert_eq!(g.status, Status::Playing);
}

#[test]
fn cursor_wraps_on_single_square() {
    let mut g = game(1, 1, &[]);
    for d in [Direction::Up, Direction::Down, Direction::Left, Direction::Right] {
        g.apply(Action::Move(d, false));
        assert_eq!((g.row, g.col), (0, 0));
    }
}

#[test]
fn extended_move_goes_half_the_board() {
    let mut g = game(10, 8, &[]);
    g.apply(Action::Move(Direction::Down, true));
    assert_eq!(g.row, 5);
    g.apply(Action::Move(Direction::Down, true));
    assert_eq!(g.row, 9);
    g.apply(Action::Move(Direction::Down, true));
    assert_eq!(g.row, 9);
    g.apply(Action::Move(Direction::Up, true));
    assert_eq!(g.row, 4);
    g.apply(Action::Move(Direction::Right, true));
    assert_eq!(g.col, 4);
    g.apply(Action::Move(Direction::Left, true));
    assert_eq!(g.col, 0);
    g.apply(Action::Move(Direction::Left, true));
    assert_eq!(g.col, 0);
}

#[test]
fn extended_move_stops_where_revealed_state_changes() {
    let mut g = game(10, 10, &[]);
    uncover(&mut g, 0, 3);
    g.apply(Action::Move(Direction::Right, true));
    assert_eq!(g.col, 3);
    uncover(&mut g, 0, 4);
    uncover(&mut g, 0, 5);
    g.apply(Action::Move(Direction::Right, true));
    assert_eq!(g.col, 6);
    g.apply(Action::Move(Direction::Left, true));
    assert_eq!(g.col, 5);
}

#[test]
fn flagging_revealed_square_is_no_op() {
    let mut g = game(3, 3, &[(2, 2)]);
    uncover(&mut g, 0, 0);
    g.apply(Action::ToggleFlag);
    assert!(!g.field.get(0, 0).unwrap().is_flagged);
    assert!(g.field.get(0, 0).unwrap().is_revealed);
}

#[test]
fn flag_toggles_and_protects_from_dig() {
    let mut g = game(3, 3, &[(0, 0), (2, 2)]);
    g.apply(Action::ToggleFlag);
    assert!(g.field.get(0, 0).unwrap().is_flagged);
    g.apply(Action::Dig);
    let cell = *g.field.get(0, 0).unwrap();
    assert!(!cell.is_revealed);
    assert!(cell.is_flagged);
    assert_eq!(g.status, Status::Playing);
    g.apply(Action::ToggleFlag);
    assert!(!g.field.get(0, 0).unwrap().is_flagged);
}

#[test]
fn first_dig_never_loses() {
    let all: Vec<(usize, usize)> = (0..5).flat_map(|r| (0..5).map(move |c| (r, c))).collect();
    let mut g = Game::new(Minefield::with_mines(5, 5, &all));
    g.apply(Action::Move(Direction::Down, false));
    g.apply(Action::Move(Direction::Down, false));
    g.apply(Action::Move(Direction::Right, false));
    g.apply(Action::Move(Direction::Right, false));
    g.apply(Action::Dig);
    assert_eq!(g.status, Status::Playing);
    assert!(g.first_move_taken);
    for r in 1..4 {
        for c in 1..4 {
            assert!(!g.field.get(r, c).unwrap().is_mine);
        }
    }
    assert_eq!(g.field.get(2, 2).unwrap().adjacent, 0);
    assert_eq!(g.field.get(1, 1).unwrap().adjacent, 5);
    assert_eq!(g.field.get(1, 2).unwrap().adjacent, 3);
    assert_eq!(g.field.iter().iter().filter(|c| c.is_revealed).count(), 9);
}

#[test]
fn later_dig_on_mine_loses() {
    let mut g = game(3, 3, &[(0, 0), (2, 2)]);
    g.first_move_taken = true;
    g.field.get_mut(2, 2).unwrap().is_flagged = true;
    g.apply(Action::Dig);
    assert_eq!(g.status, Status::Lost);
    assert!(g.field.get(0, 0).unwrap().is_revealed);
    assert!(g.field.get(2, 2).unwrap().is_revealed);
    assert!(g.field.iter().iter().all(|c| !c.is_flagged));
    g.apply(Action::Move(Direction::Down, false));
    assert_eq!((g.row, g.col), (0, 0));
}

#[test]
fn dig_and_flag_to_win() {
    let mut g = game(5, 5, &[(4, 4)]);
    g.apply(Action::Dig);
    assert_eq!(g.status, Status::Playing);
    assert_eq!(g.field.iter().iter().filter(|c| c.is_revealed).count(), 24);
    for _ in 0..4 {
        g.apply(Action::Move(Direction::Down, false));
        g.apply(Action::Move(Direction::Right, false));
    }
    assert_eq!((g.row, g.col), (4, 4));
    g.apply(Action::ToggleFlag);
    assert_eq!(g.status, Status::Won);
}

#[test]
fn dig_area_reveals_block() {
    let mut g = game(4, 4, &[(3, 3), (0, 3)]);
    g.first_move_taken = true;
    g.apply(Action::Move(Direction::Down, false));
    g.apply(Action::Move(Direction::Right, false));
    g.apply(Action::DigArea);
    assert_eq!(g.status, Status::Playing);
    for r in 0..3 {
        for c in 0..3 {
            assert!(g.field.get(r, c).unwrap().is_revealed);
        }
    }
    assert!(!g.field.get(3, 3).unwrap().is_revealed);
}

#[test]
fn dig_area_on_mine_loses() {
    let mut g = game(3, 3, &[(1, 1)]);
    g.first_move_taken = true;
    g.apply(Action::DigArea);
    assert_eq!(g.status, Status::Lost);
    assert!(g.field.get(1, 1).unwrap().is_revealed);
}

#[test]
fn first_dig_area_does_not_clear_mines() {
    let mut g = game(3, 3, &[(1, 1), (0, 0)]);
    g.apply(Action::DigArea);
    assert_eq!(g.status, Status::Lost);
    assert!(!g.first_move_taken);
    assert!(g.field.get(0, 0).unwrap().is_mine);
    assert!(g.field.get(0, 0).unwrap().is_revealed);
}

#[test]
fn plain_dig_after_dig_area_still_clears() {
    let mut g = game(3, 3, &[(2, 2)]);
    g.apply(Action::DigArea);
    assert_eq!(g.status, Status::Playing);
    assert!(!g.first_move_taken);
    g.apply(Action::Move(Direction::Down, false));
    g.apply(Action::Move(Direction::Down, false));
    g.apply(Action::Move(Direction::Right, false));
    g.apply(Action::Move(Direction::Right, false));
    g.apply(Action::Dig);
    assert!(g.first_move_taken);
    assert!(!g.field.get(2, 2).unwrap().is_mine);
    assert_eq!(g.status, Status::Won);
}

#[test]
fn quit_ends_the_game() {
    let mut g = game(3, 3, &[(1, 1)]);
    g.apply(Action::Quit);
    assert_eq!(g.status, Status::Quit);
    g.apply(Action::Dig);
    assert_eq!(g.status, Status::Quit);
    assert!(g.field.iter().iter().all(|c| !c.is_revealed));
}
