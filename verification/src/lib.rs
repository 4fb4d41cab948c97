//! A Monte-Carlo Tree Search engine with PUCT selection, a bit-board rules
//! engine for ultimate tic-tac-toe, and a self-play data-generation pipeline
//! that turns finished games into labeled training examples.

pub mod data;
pub mod game;
pub mod mcts;
pub mod policies;
pub mod policy;
pub mod selfplay;
pub mod board;
pub mod small_board;
pub mod xo_game;
