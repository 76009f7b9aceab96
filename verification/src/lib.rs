//! A mine sweeping game engine with verified game rules.
//!
//! The board defers mine placement until the first move, so the first
//! visited coordinate can never detonate, and reveals connected safe
//! regions through a work-list traversal.

pub mod action;
pub mod board;
pub mod coordinate;
pub mod error;
pub mod field;
pub mod game;
pub mod grid;
pub mod header;
pub mod move_result;
pub mod neighbors_iterator;
mod sample;
pub mod outcome;
pub mod state;
pub mod time;
pub mod view;

pub use action::Action;
pub use board::Board;
pub use coordinate::Coordinate;
pub use coordinate::CoordinateParseError;
pub use error::Error;
pub use field::Field;
pub use field::VisitResult;
pub use game::Game;
pub use header::Header;
pub use move_result::MoveResult;
pub use neighbors_iterator::SafeNeighbors;
pub use outcome::Outcome;
pub use state::State;
pub use view::View;
