//! A bounded pre-phase that decides small positions exactly, before the
//! DF-PN search would run.
//!
//! On a root with at most three men, no pawns and no castling rights, the
//! pre-phase closes the reachable region, solves its AND/OR values with
//! exact distances, and claims:
//! - a draw when the root is drawn in the closed region (no certificate,
//!   empty line);
//! - a win or loss when the distance fits under the fifty-move clock
//!   (`clock + rank <= 99`) and under the caller's bound, the winner's
//!   strategy replays as a cycle-free forced win from the real root, and
//!   the principal line converts into real moves of exactly that length.
//!
//! Anything else defers with a reason: `detector`, `eval-budget`,
//! `region-budget`, `stop`, `rank-guard`, `bound`, `cert-fail` or
//! `internal`. The pre-phase never touches a transposition table and
//! emits no proof events.

pub mod certificate;
pub mod region;

use std::sync::atomic::AtomicBool;
use std::sync::Arc;

use vstd::prelude::*;

use crate::moves::{Color, Move};
use crate::position::{lemma_listed_is_legal, Outcome, Position};
use crate::movegen::spec_side;
use crate::search::preflight::certificate::{spec_evals_ok, spec_strategy_wins, verify_certificate};
use crate::search::preflight::region::{
    analyze, build_strategy, detector_applies, principal_line, region_key, spec_contents_region_key, spec_detector_applies,
};

verus! {

/// Most positions the closure may hold before it gives up.
pub const REGION_BUDGET: usize = 1_000_000;

/// What the pre-phase did, for reporting.
#[derive(Debug, Clone, Copy, PartialEq, Eq)]
pub struct PreflightReport {
    pub decided: bool,
    /// `""` for a decision, otherwise the reason it deferred.
    pub reason: &'static str,
    pub evals: u64,
    pub region: usize,
    pub outcome: Option<Outcome>,
    pub rank: u32,
}

impl PreflightReport {
    pub fn deferred(reason: &'static str, evals: u64, region: usize) -> (r: PreflightReport)
        ensures
            !r.decided && r.reason == reason && r.evals == evals && r.region == region && r.outcome is None && r.rank == 0,
    {
        PreflightReport { decided: false, reason, evals, region, outcome: None, rank: 0 }
    }

    pub fn decided(outcome: Outcome, evals: u64, region: usize, rank: u32) -> (r: PreflightReport)
        ensures
            r.decided && r.reason@ == ""@ && r.evals == evals && r.region == region && r.outcome == Some(outcome)
                && r.rank == rank,
    {
        PreflightReport { decided: true, reason: "", evals, region, outcome: Some(outcome), rank }
    }
}

/// A claimed outcome with its line.
#[derive(Debug)]
pub struct PreflightClaim {
    pub outcome: Outcome,
    pub pv: Vec<Move>,
    pub evals: u64,
    pub region: usize,
    pub rank: u32,
}

/// The pre-phase's result.
#[derive(Debug)]
pub enum PreflightExit {
    Claimed(PreflightClaim),
    Deferred { reason: &'static str, evals: u64, region: usize },
}

/// The reasons a pre-phase defers.
pub open spec fn spec_defer_reason(reason: Seq<char>) -> bool {
    ||| reason == "detector"@
    ||| reason == "eval-budget"@
    ||| reason == "region-budget"@
    ||| reason == "stop"@
    ||| reason == "rank-guard"@
    ||| reason == "bound"@
    ||| reason == "cert-fail"@
    ||| reason == "internal"@
}

/// Replay the principal line's keys from `pos` as real moves (one child
/// evaluation per move tried); `None` when a key is not reached or the
/// budget runs out.
fn line_to_moves(pos: &Position, line: &Vec<u32>, evals: &mut u64, eval_budget: u64) -> (r: Option<Vec<Move>>)
    requires
        pos.wf(),
        spec_evals_ok(*old(evals), eval_budget),
    ensures
        *final(evals) >= *old(evals),
        r is Some ==> spec_evals_ok(*final(evals), eval_budget),
        r matches Some(pv) ==> pv.len() == line.len(),
        line.len() == 0 ==> (r is Some && *final(evals) == *old(evals)),
{
    let mut cur = pos.clone();
    let mut pv: Vec<Move> = Vec::new();
    let mut k: usize = 0;
    while k < line.len()
        invariant
            k <= line.len(),
            pv.len() == k,
            cur.wf(),
            *evals >= *old(evals),
            spec_evals_ok(*evals, eval_budget),
            k == 0 ==> *evals == *old(evals),
        decreases line.len() - k,
    {
        let target = line[k];
        let moves = cur.legal_moves_vec();
        let ghost start = cur;
        let mut found: Option<Move> = None;
        let mut i: usize = 0;
        while i < moves.len()
            invariant
                cur.wf(),
                *evals >= *old(evals),
                spec_evals_ok(*evals, eval_budget),
                k < line.len(),
                i <= moves.len(),
                cur.contents() == start.contents(),
                cur.history() == start.history(),
                cur.board_history() == start.board_history(),
                moves.len() == start.legal_codes().len(),
                forall|j: int| 0 <= j < moves.len() ==> #[trigger] moves@[j]@ == start.legal_codes()[j],
                found matches Some(f) ==> start.is_legal(f),
            decreases moves.len() - i,
        {
            *evals = *evals + 1;
            if *evals >= eval_budget {
                return None;
            }
            let m = moves[i];
            proof {
                lemma_listed_is_legal(start, moves@, i as int);
            }
            let ghost before = cur;
            cur.do_move(m);
            let key = region_key(&cur);
            cur.undo_move(m);
            proof {
                assert(before.board_history().push(before.contents()).drop_last() =~= before.board_history());
                assert(before.history().push(before.keys()).drop_last() =~= before.history());
            }
            if key == Some(target) {
                found = Some(m);
                break;
            }
            i += 1;
        }
        let m = match found {
            Some(m) => m,
            None => {
                return None;
            },
        };
        cur.do_move(m);
        pv.push(m);
        k += 1;
    }
    Some(pv)
}

/// The side that wins a position with contents `c` whose side to move has
/// decisive outcome `o`.
pub open spec fn spec_winner(c: Seq<u64>, o: Outcome) -> Color {
    if o == Outcome::Win {
        spec_side(c)
    } else {
        spec_side(c).spec_flip()
    }
}

/// Some strategy forces the winner of outcome `o` to win from a board with
/// contents `c` within `rank` plies, starting a line at its region key.
pub open spec fn spec_claim_certified(c: Seq<u64>, o: Outcome, rank: u32) -> bool {
    &&& spec_contents_region_key(c) is Some
    &&& exists|strategy: Map<u32, u32>|
        #[trigger] spec_strategy_wins(c, strategy, spec_winner(c, o), rank as nat, seq![spec_contents_region_key(c)->0])
}

/// Run the pre-phase on the root `pos`. `bound` limits a decisive line's
/// length (`None` for no limit). A claim is returned only for a verified
/// decision; everything else defers with its reason and the child
/// evaluations spent.
pub fn run(pos: &Position, bound: Option<u32>, eval_budget: u64, stop: &Option<Arc<AtomicBool>>) -> (r: PreflightExit)
    requires
        pos.wf(),
    ensures
        r matches PreflightExit::Claimed(c) ==> (c.outcome == Outcome::Draw ==> c.pv.len() == 0 && c.rank == 0),
        r matches PreflightExit::Claimed(c) ==> (c.outcome != Outcome::Draw ==> {
            &&& c.pv.len() == c.rank
            &&& pos.clock() + c.rank <= 99
            &&& (bound matches Some(b) ==> c.rank <= b)
        }),
        r matches PreflightExit::Claimed(c) ==> (c.outcome != Outcome::Draw ==> spec_claim_certified(pos.contents(), c.outcome, c.rank)),
        r matches PreflightExit::Deferred { reason, .. } ==> spec_defer_reason(reason@),
        !spec_detector_applies(pos.contents()) ==> (r matches PreflightExit::Deferred { reason, evals, region } && reason@ == "detector"@
            && evals == 0 && region == 0),
        r matches PreflightExit::Deferred { reason, .. } ==> (reason@ == "detector"@ <==> !spec_detector_applies(pos.contents())),
        r matches PreflightExit::Deferred { reason, .. } ==> (reason@ == "stop"@ ==> stop is Some),
        r matches PreflightExit::Deferred { reason, evals, .. } ==> (reason@ == "eval-budget"@ ==> evals >= eval_budget),
{
    proof {
        reveal_strlit("detector");
        reveal_strlit("internal");
        reveal_strlit("eval-budget");
        reveal_strlit("region-budget");
        reveal_strlit("stop");
        reveal_strlit("rank-guard");
        reveal_strlit("bound");
        reveal_strlit("cert-fail");
        assert("internal"@[0] != "detector"@[0]);
        assert("eval-budget"@[0] != "detector"@[0]);
        assert("region-budget"@[0] != "detector"@[0]);
        assert("stop"@[0] != "detector"@[0]);
        assert("rank-guard"@[0] != "detector"@[0]);
        assert("bound"@[0] != "detector"@[0]);
        assert("cert-fail"@[0] != "detector"@[0]);
    }
    if !detector_applies(pos) {
        return PreflightExit::Deferred { reason: "detector", evals: 0, region: 0 };
    }
    if region_key(pos).is_none() {
        return PreflightExit::Deferred { reason: "internal", evals: 0, region: 0 };
    }
    let analysis = match analyze(pos, eval_budget, stop, REGION_BUDGET) {
        Ok(a) => a,
        Err(abort) => {
            return PreflightExit::Deferred { reason: abort.reason, evals: abort.evals, region: abort.region };
        },
    };
    let region = analysis.region;
    let mut evals = analysis.evals;
    let outcome = analysis.root_outcome();
    if outcome == Outcome::Draw {
        return PreflightExit::Claimed(PreflightClaim { outcome: Outcome::Draw, pv: Vec::new(), evals, region, rank: 0 });
    }
    let rank = analysis.root_rank();
    if (pos.rule50() as u64) + (rank as u64) > 99 {
        return PreflightExit::Deferred { reason: "rank-guard", evals, region };
    }
    if let Some(b) = bound {
        if rank > b {
            return PreflightExit::Deferred { reason: "bound", evals, region };
        }
    }
    let winner = if outcome == Outcome::Win {
        pos.side_to_move()
    } else {
        pos.side_to_move().flip()
    };
    let strategy = match build_strategy(&analysis) {
        Some(s) => s,
        None => {
            return PreflightExit::Deferred { reason: "cert-fail", evals, region };
        },
    };
    let (ok, stats) = verify_certificate(pos, &strategy, winner, rank, &mut evals, eval_budget, stop);
    let ghost strategy_map = strategy@;
    if !ok {
        let reason = if stats.aborted {
            if evals >= eval_budget {
                "eval-budget"
            } else {
                "stop"
            }
        } else {
            "cert-fail"
        };
        return PreflightExit::Deferred { reason, evals, region };
    }
    let line = match principal_line(&analysis) {
        Some(l) => l,
        None => {
            return PreflightExit::Deferred { reason: "cert-fail", evals, region };
        },
    };
    let pv = match line_to_moves(pos, &line, &mut evals, eval_budget) {
        Some(p) => p,
        None => {
            return PreflightExit::Deferred { reason: "cert-fail", evals, region };
        },
    };
    if pv.len() != rank as usize {
        return PreflightExit::Deferred { reason: "cert-fail", evals, region };
    }
    proof {
        assert(winner == spec_winner(pos.contents(), outcome));
        assert(spec_strategy_wins(
            pos.contents(),
            strategy_map,
            spec_winner(pos.contents(), outcome),
            rank as nat,
            seq![spec_contents_region_key(pos.contents())->0],
        ));
        assert(spec_claim_certified(pos.contents(), outcome, rank));
    }
    PreflightExit::Claimed(PreflightClaim { outcome, pv, evals, region, rank })
}

} // verus!
