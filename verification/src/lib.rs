//! Tic-tac-toe on a 3x3 grid, with a Monte Carlo tree search that picks moves.
//!
//! - `board`: the position, its legal moves, its end and its value.
//! - `node`, `tree`, `search`: the nodes of the search tree, the tree in its
//!   arena, and the rounds of the search with its final choice.
//! - `agent`, `environment`, `entry`: the players, the run of games between
//!   two of them, and the lines that a person types.
//! - `chance`, `clock`, `text`: random draws, time, and numbers in decimal.

pub mod agent;
pub mod board;
pub mod chance;
pub mod clock;
pub mod entry;
pub mod environment;
pub mod node;
pub mod search;
pub mod text;
pub mod tree;
