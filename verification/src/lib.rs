//! Generalized chess on an N-dimensional board that is eight cells wide along
//! every axis.
//!
//! - [`position`]: coordinate vectors and their arithmetic.
//! - [`enumerate`], [`odometer`], [`move_iterators`]: the offset enumerators,
//!   one family per pattern of movement.
//! - [`board`]: which occupant stands where, and the pending capture.
//! - [`rules`]: the destinations of each kind of piece, as functions of the
//!   board, and what holds of them.
//! - [`pieces`]: the kinds and teams, and move generation itself.
//! - [`setup`]: the starting position and the order in which the board is
//!   built.
//! - [`camera`]: the places from which the board is looked at.
//! - [`n_vec`]: arrays whose length is a constant.

pub mod position;
pub mod board;
pub mod enumerate;
pub mod odometer;
pub mod move_iterators;
pub mod pieces;
pub mod rules;
pub mod setup;
pub mod camera;
pub mod n_vec;
