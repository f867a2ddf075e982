//! Verified core of a DF-PN+ solver for atomic chess.
//!
//! Board mechanics (FEN parsing, move generation, making and unmaking moves)
//! come from the `atomic-movegen` crate through the trusted layer in
//! [`movegen`]; everything built on top of it is verified here.

pub mod movegen;
pub mod nn;
pub mod moves;
pub mod notation;
pub mod position;
pub mod proof_event;
pub mod proof_tree;
pub mod reconstruct;
pub mod search;
pub mod text;
pub mod tt_snapshot;
pub mod zobrist;
