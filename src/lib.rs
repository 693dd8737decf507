//! A grid-reveal puzzle engine: a square board of hidden hazards that the
//! player uncovers cell by cell, with flood reveal of empty regions.

mod board;
mod flood;
mod game;
mod grid;
mod neighbors;
mod placement;

pub use board::{Board, State, SIZE};
pub use neighbors::adjacent;
pub use game::{toggled, Command, Signal};
pub use flood::listed;
