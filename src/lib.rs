//! Minesweeper: a grid of cells with hidden mines, adjacency counts, the
//! cascading reveal of empty regions, and a game controller that turns
//! player actions into moves on the grid.

mod cell;
mod game;
mod grid;
mod laws;
mod minefield;

pub use cell::{Cell, Color};
pub use game::{Action, Direction, Game, GameView, Status};
pub use grid::Grid;
pub use laws::{cursor_wraps, first_dig_is_safe, flag_protects, flood_reveals_no_mine, generated_counts_exact, win_condition};
pub use minefield::{clear_mines, dig, kaboom, reveal_empty, Minefield};
