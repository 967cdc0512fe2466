//! A headless Tetris engine with a player and a trainer: the board and
//! its line clears, the piece catalog, the search for the landings a
//! piece can reach, game states with their statistics, the features of a
//! board with a weighted evaluator, a simulator that plays by them, and
//! the learning of the weights from generations of such games.
//!
//! Weights and scores are whole numbers of thousandths.

pub mod board;
pub mod error;
pub mod feature;
pub mod game;
pub mod learn;
pub mod moves;
pub mod numeric;
pub mod piece;
pub mod rng;
pub mod search;
pub mod simulator;
pub mod state;
pub mod train;
