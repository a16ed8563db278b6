//! Othello rules engine: board geometry, legal move generation, move
//! application, transcript replay, and a family of computer opponents.
use vstd::prelude::*;

pub mod board;
pub mod disc;
pub mod game;
pub mod laws;
pub mod position;
pub mod rules;
pub mod solvers;
pub mod strategies;

pub use board::Board;
pub use disc::Disc;
pub use game::{Game, Play, ValidMove};
pub use position::Position;
