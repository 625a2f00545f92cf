//! A single-player Minesweeper engine.
//!
//! A [`Grid`] is a square board of [`Cell`]s. It is built for a
//! [`Difficulty`], or from a fixed list of mine positions, and is then
//! driven by [`Grid::open`] and [`Grid::flag`], each of which answers with a
//! [`Status`]. Every contract is stated over [`Board`], the mathematical
//! model of a grid.
//!
//! - [`board`] defines the model: which boards are valid and what a move
//!   does to one; [`cascade`] proves how opening spreads.
//! - [`grid`] holds the board in memory, lays it out and carries out the
//!   moves.
//! - [`theorems`] states what holds of every valid board.
//! - [`input`], [`turn`] and [`render`] serve a game at the terminal: they
//!   read the player's lines, play a turn and write the board as text.

pub mod status;
pub mod difficulty;
pub mod cell;
pub mod board;
pub mod cascade;
pub mod grid;
pub mod input;
pub mod render;
pub mod theorems;
pub mod turn;
mod random;

pub use crate::board::Board;
pub use crate::cell::{Cell, Visibility};
pub use crate::difficulty::Difficulty;
pub use crate::grid::Grid;
pub use crate::status::Status;
