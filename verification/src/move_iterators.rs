//! Enumerators for the pieces that move along diagonals or leap.

pub mod bishop;
pub mod knight;
pub mod primitive;

pub use bishop::BishopMoveIterator;
pub use knight::KnightMoveIterator;
pub use primitive::{DiagonalIter, LMoveIter};
