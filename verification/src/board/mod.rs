//! The board: value types, bitboards, attacks, hashing, positions and move generation.

pub mod attacks;
pub mod bits;
pub mod bitboard;
pub mod complete;
pub mod consequences;
pub mod cuckoo;
pub mod distinct_moves;
pub mod exchange;
pub mod fen;
pub mod games;
pub mod legal_moves;
pub mod legality;
pub mod magics;
pub mod mirror;
pub mod movegen;
pub mod notation;
pub mod partition;
pub mod perft;
pub mod placement;
pub mod position;
pub mod soundness;
pub mod recording;
pub mod records;
pub mod render;
pub mod reprise;
pub mod safety;
pub mod setup;
pub mod spans;
pub mod startpos;
pub mod state;
pub mod tally;
pub mod text;
pub mod threats;
pub mod trades;
pub mod transition;
pub mod types;
pub mod zobrist;
