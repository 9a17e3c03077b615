//! Rules and search for a territory game on a grid.
//!
//! `board` holds the grid, who claims each cell, which cells are still open to
//! play, the scores and the end of the game; `game` adds whose turn it is and
//! the transition by an action; `mcts` chooses actions by Monte-Carlo tree
//! search over those states.

pub mod board;
pub mod game;
pub mod mcts;
