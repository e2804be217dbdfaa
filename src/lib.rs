//! Move-selection strategies for a connection game on a triangular board,
//! where a player wins by joining all three sides with one group of pieces.
//!
//! The board itself (`GameY`) is kept here too, with its placement rules and
//! win detection, so that every strategy's contract can speak of it.

pub mod board;
pub mod coords;
pub mod distance;
pub mod group_expansion;
pub mod monte_carlo;
pub mod priority_block;
mod random;
pub mod shortest_path;
pub mod simple_blocker;
pub mod strategy;
pub mod triangle_attack;

pub use board::{GameStatus, GameY, GameYError, Movement};
pub use coords::{Coordinates, PlayerId};
pub use group_expansion::GroupExpansionBot;
pub use monte_carlo::MonteCarloBot;
pub use priority_block::PriorityBlockBot;
pub use shortest_path::ShortestPathBot;
pub use simple_blocker::SimpleBlockerBot;
pub use strategy::YBot;
pub use triangle_attack::TriangleAttackBot;
