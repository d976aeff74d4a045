//! Rules engine of a Minesweeper game: a rectangular board of cells, the two
//! player moves (`open` and `toggle_flag`), and the sampler that picks where
//! the mines go. Every function carries a contract over the ghost model
//! [`grid::Grid`].

pub mod error;
pub mod text;
pub mod size;
pub mod field;
pub mod grid;
pub mod board;
pub mod random;
