//! The proof tree: the nodes of the final proof, built from the search's
//! events, serialised to a compact binary form and checked by replay.

pub mod binary;
pub mod node;
pub mod validate;
pub mod worker;
