//! Minesweeper: the field, the neighbourhood of a cell, the cascade of
//! uncovered cells, mine placement, the player's moves and the game they
//! make up, each with a contract proved by Verus.

pub mod cascade;
pub mod cells;
pub mod flags;
pub mod game;
pub mod grid;
pub mod input;
pub mod mines;
pub mod placement;
pub mod play;
pub mod render;
