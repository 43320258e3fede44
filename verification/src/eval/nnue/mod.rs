//! The NNUE evaluation: the network file, its encodings and the forward pass.

pub mod aligned;
pub mod blocks;
pub mod common;
pub mod distinct;
pub mod features;
pub mod forward;
pub mod header;
pub mod heads;
pub mod layers;
pub mod network;
pub mod orders;
pub mod pawn_pairs;
pub mod recorded_line;
pub mod stack;
pub mod stream;
pub mod threat_balance;
pub mod threat_features;
pub mod threat_total;
pub mod transformer;
pub mod weights;
