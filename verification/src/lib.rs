//! A chess engine's foundations, verified: the board and its rules, the evaluation, and the
//! platform services around the search.

pub mod board;
pub mod eval;
pub mod platform;

pub use board::position::Position;
pub use board::types::{Color, Move, Piece, PieceType, Square, Value};
