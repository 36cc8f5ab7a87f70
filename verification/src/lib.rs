//! A snake that plays itself: a Hamiltonian tour over a square grid, a
//! simulation of the growing snake, and a per-tick decision that follows the
//! tour or leaves it for a shortcut that cannot trap the snake at once.
//!
//! `tour` says what a closed tour is and checks a table by replay,
//! `base_path` builds the back-and-forth tour and `search` loosens it at
//! random. `model` is the game as mathematics, `snake` the game that runs,
//! and `laws` states what holds of every game.

pub mod base_path;
pub mod counting;
pub mod direction;
pub mod laws;
pub mod model;
mod random;
pub mod search;
pub mod snake;
pub mod tour;

pub use direction::Direction;
pub use snake::Snake;
