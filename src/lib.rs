//! Text drawings of sparse boards of hexagonal cells.
use vstd::prelude::*;

pub mod board;
pub mod grid;
pub mod layout;

pub use board::HexagonalBoard;
pub use grid::render_char_map;
pub use layout::{LEFT_BRACKET, RIGHT_BRACKET};

verus! {

/// An empty marker type, kept so that the crate's public items stay as they were.
pub struct ReadmeDoctests;

} // verus!
