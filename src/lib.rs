//! Rule engine of a Minesweeper game: board state, mine placement, adjacency
//! counts, flood-fill reveal, flags and question marks, win and loss.
pub mod board_model;
mod counting;
pub mod display;
pub mod events;
pub mod game;
pub mod game_board;
pub mod guarantees;
pub mod tile;
pub mod timer;
