//! Rule engine of the 4x4 sliding-tile merging puzzle: the board, moves that
//! slide and merge tiles, tile spawning and the classification of a board.

pub mod keys;
pub mod logic;
pub mod render;
pub mod state;
