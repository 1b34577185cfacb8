//! Move generation and legality checking for an 8x8 chess board.

pub mod board;
pub mod layout;
pub mod moves;
pub mod theorems;

pub use board::{Game, MoveError, Owner, Piece, Tile};
pub use layout::text_is;
