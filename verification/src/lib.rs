//! Rules engine and computer opponent for Tic Tac Toe.
//!
//! The `game` module enforces the rules of the game and tracks its state,
//! the `board` module holds the grid of marks, and the `ai` module searches
//! the game tree to pick moves for a computer opponent.

pub mod ai;
pub mod board;
pub mod game;
