//! Events the search sends to whoever builds the proof tree.

use vstd::prelude::*;

use crate::moves::Move;
use crate::position::Outcome;

verus! {

/// One message from the search to the proof-tree builder.
#[derive(Debug, Clone)]
pub enum ProofEvent {
    /// Forget everything received so far.
    Clear,
    /// A node on a path from the root was proven.
    NodeProven(NodeProven),
}

/// The node reached by `path` from the root, with key `hash`, was proven
/// `outcome` (side-to-move view) at `depth` plies.
#[derive(Debug, Clone)]
pub struct NodeProven {
    pub path: Vec<Move>,
    /// The last move of `path`, or the sentinel for the root.
    pub mv: Move,
    pub hash: u64,
    pub outcome: Outcome,
    pub depth: u32,
}

/// The last move of a path, or the sentinel for the empty path.
pub open spec fn spec_last_move(path: Seq<Move>) -> Move {
    if path.len() > 0 {
        path.last()
    } else {
        Move::spec_none()
    }
}

impl NodeProven {
    pub fn new(path: Vec<Move>, hash: u64, outcome: Outcome, depth: u32) -> (r: NodeProven)
        ensures
            r.path@ == path@,
            r.mv == spec_last_move(path@),
            r.hash == hash,
            r.outcome == outcome,
            r.depth == depth,
    {
        let mv = if path.len() > 0 {
            path[path.len() - 1]
        } else {
            Move::none()
        };
        NodeProven { path, mv, hash, outcome, depth }
    }
}

} // verus!
