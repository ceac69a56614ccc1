//! The rules of a minesweeper board: tiles, flags, flood opening, mine
//! placement and the handling of clicks, with their contracts.

pub mod constants;
pub mod tile;
pub mod model;
pub mod random;
pub mod board;
pub mod input;
pub mod game;
pub mod visual;
pub mod laws;
