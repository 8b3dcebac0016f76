//! A minesweeper board engine.
//!
//! A [`Field`] is a rectangular grid of [`Dot`]s with a parallel grid that
//! records which cells have been opened. A field is made with its mines at
//! random places, and the player opens cells and toggles flags on it. Every
//! operation is specified against [`Board`], the mathematical view of a
//! field, and [`laws`] proves what holds of every board that a game can
//! reach. [`score`] reads and extends the record of earlier games.

pub mod board;
pub mod dot;
pub mod field;
pub mod flood;
pub mod laws;
pub mod point;
pub mod region;
pub mod score;
mod shuffle;
pub mod tally;

pub use board::Board;
pub use dot::Dot;
pub use field::Field;
pub use point::Point;
