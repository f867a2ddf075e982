//! Replay check of a winning strategy from the real root position.
//!
//! A decisive pre-phase claim stands only when its strategy replays with
//! the solver's own move generator as a cycle-free forced win within the
//! bound: at the winner's nodes the strategy's move is played, at the
//! loser's nodes every legal reply is covered, every line ends in a
//! terminal win for the winner within `bound` plies, and no position
//! repeats on a line.

use std::collections::HashMap;
use std::sync::atomic::AtomicBool;
use std::sync::Arc;

use vstd::prelude::*;

use crate::movegen::{spec_after_move, spec_legal_moves, spec_side};
use crate::moves::{Color, Move};
use crate::position::{lemma_listed_is_legal, lemma_undo_reverts_do, Outcome, Position};
use crate::search::preflight::region::{classify_terminal, region_key, spec_classify, spec_contents_region_key};
use crate::search::signals::flag_raised;

verus! {

broadcast use vstd::std_specs::hash::group_hash_axioms;

/// Counters of one replay.
#[derive(Debug, Clone, Copy, PartialEq, Eq, Structural)]
pub struct CertStats {
    pub lines: u64,
    pub mates: u64,
    pub repeats: u64,
    pub budget_exits: u64,
    pub bad_strategy: u64,
    pub nodes: u64,
    pub max_plies: u32,
    /// The evaluation budget or the stop flag ended the replay early.
    pub aborted: bool,
}

impl CertStats {
    /// All counters zero.
    pub fn new() -> (r: CertStats)
        ensures
            r == (CertStats {
                lines: 0,
                mates: 0,
                repeats: 0,
                budget_exits: 0,
                bad_strategy: 0,
                nodes: 0,
                max_plies: 0,
                aborted: false,
            }),
    {
        CertStats { lines: 0, mates: 0, repeats: 0, budget_exits: 0, bad_strategy: 0, nodes: 0, max_plies: 0, aborted: false }
    }
}

/// One more, stopping at the largest count.
fn bump(x: u64) -> (r: u64)
    ensures
        r == (if x < u64::MAX { x + 1 } else { x as int }),
{
    if x < u64::MAX {
        x + 1
    } else {
        x
    }
}

/// Whether `key` is on `path`.
pub fn path_has(path: &Vec<u32>, key: u32) -> (r: bool)
    ensures
        r == path@.contains(key),
{
    let mut i: usize = 0;
    while i < path.len()
        invariant
            i <= path.len(),
            forall|j: int| 0 <= j < i ==> path@[j] != key,
        decreases path.len() - i,
    {
        if path[i] == key {
            return true;
        }
        i += 1;
    }
    false
}

/// The evaluation count is within the budget (or nothing was counted yet).
pub open spec fn spec_evals_ok(evals: u64, budget: u64) -> bool {
    evals == 0 || evals < budget
}

/// The first of the legal moves of `c`, from index `i` on, whose result
/// packs to the region key `k`.
pub open spec fn spec_first_to_key(c: Seq<u64>, k: u32, i: int) -> Option<int>
    decreases spec_legal_moves(c).len() - i,
{
    if i < 0 || i >= spec_legal_moves(c).len() {
        None
    } else if spec_contents_region_key(spec_after_move(c, spec_legal_moves(c)[i])) == Some(k) {
        Some(i)
    } else {
        spec_first_to_key(c, k, i + 1)
    }
}

/// From a board with contents `c`, with the region keys of the line so far
/// on `path`, the `strategy` forces `winner` to win within `n` plies: the
/// position is terminal and won by `winner`; or, with plies left and a
/// region key, `winner` to move plays the first legal move onto the key the
/// strategy names for this one, a key not yet on the line, and the strategy
/// wins from there; or every legal reply of the other side leads to a key not on the
/// line (or to no key) from which it wins.
pub open spec fn spec_strategy_wins(c: Seq<u64>, strategy: Map<u32, u32>, winner: Color, n: nat, path: Seq<u32>) -> bool
    decreases n,
{
    let us = spec_side(c);
    match spec_classify(c) {
        Some(t) => (us == winner && t == Outcome::Win) || (us != winner && t == Outcome::Loss),
        None => n > 0 && match spec_contents_region_key(c) {
            None => false,
            Some(k) => if us == winner {
                strategy.contains_key(k) && !path.contains(strategy[k]) && match spec_first_to_key(c, strategy[k], 0) {
                    Some(j) => spec_strategy_wins(
                        spec_after_move(c, spec_legal_moves(c)[j]),
                        strategy,
                        winner,
                        (n - 1) as nat,
                        path.push(strategy[k]),
                    ),
                    None => false,
                }
            } else {
                forall|m: Move|
                    #![trigger spec_legal_moves(c).contains(m@)]
                    spec_legal_moves(c).contains(m@) ==> match spec_contents_region_key(spec_after_move(c, m@)) {
                        Some(ck) => !path.contains(ck) && spec_strategy_wins(
                            spec_after_move(c, m@),
                            strategy,
                            winner,
                            (n - 1) as nat,
                            path.push(ck),
                        ),
                        None => spec_strategy_wins(spec_after_move(c, m@), strategy, winner, (n - 1) as nat, path),
                    }
            },
        },
    }
}

/// The reply `m` of the losing side keeps the strategy winning.
pub open spec fn spec_reply_covered(c: Seq<u64>, strategy: Map<u32, u32>, winner: Color, n: nat, path: Seq<u32>, m: Move) -> bool {
    match spec_contents_region_key(spec_after_move(c, m@)) {
        Some(ck) => !path.contains(ck) && spec_strategy_wins(spec_after_move(c, m@), strategy, winner, n, path.push(ck)),
        None => spec_strategy_wins(spec_after_move(c, m@), strategy, winner, n, path),
    }
}

/// Replay the strategy from `pos`, `plies` moves into the line, with the
/// keys of the line so far on `path`. One child evaluation per move tried;
/// the stop flag is read every 4096 nodes. The position and the path are
/// restored; `true` only for a forced, cycle-free win within `bound` plies
/// on every line below.
#[allow(clippy::too_many_arguments)]
pub fn replay_walk(
    pos: &mut Position,
    plies: u32,
    path: &mut Vec<u32>,
    strategy: &HashMap<u32, u32>,
    winner: Color,
    bound: u32,
    evals: &mut u64,
    eval_budget: u64,
    stop: &Option<Arc<AtomicBool>>,
    stats: &mut CertStats,
) -> (ok: bool)
    requires
        old(pos).wf(),
        spec_evals_ok(*old(evals), eval_budget),
        plies <= bound,
    ensures
        final(pos).wf(),
        final(pos).keys() == old(pos).keys(),
        final(pos).history() == old(pos).history(),
        final(pos).contents() == old(pos).contents(),
        final(pos).board_history() == old(pos).board_history(),
        final(path)@ == old(path)@,
        *final(evals) >= *old(evals),
        ok ==> spec_evals_ok(*final(evals), eval_budget),
        ok ==> final(stats).aborted == old(stats).aborted,
        ok ==> spec_strategy_wins(old(pos).contents(), strategy@, winner, (bound - plies) as nat, old(path)@),
        !ok ==> final(stats).aborted || !spec_strategy_wins(old(pos).contents(), strategy@, winner, (bound - plies) as nat, old(path)@),
        final(stats).aborted ==> old(stats).aborted || stop is Some || *final(evals) >= eval_budget,
    decreases bound - plies,
{
    stats.nodes = bump(stats.nodes);
    if stats.nodes % 4096 == 0 && flag_raised(stop) {
        stats.aborted = true;
        return false;
    }
    let us = pos.side_to_move();
    if let Some(t) = classify_terminal(pos) {
        let winner_won = (us == winner && t == Outcome::Win) || (us != winner && t == Outcome::Loss);
        if winner_won {
            stats.lines = bump(stats.lines);
            stats.mates = bump(stats.mates);
            if plies > stats.max_plies {
                stats.max_plies = plies;
            }
            return true;
        }
        stats.bad_strategy = bump(stats.bad_strategy);
        return false;
    }
    if plies >= bound {
        stats.budget_exits = bump(stats.budget_exits);
        return false;
    }
    let key = match region_key(pos) {
        Some(k) => k,
        None => {
            stats.bad_strategy = bump(stats.bad_strategy);
            return false;
        },
    };
    let moves = pos.legal_moves_vec();
    if us == winner {
        let chosen = match strategy.get(&key) {
            Some(c) => *c,
            None => {
                stats.bad_strategy = bump(stats.bad_strategy);
                return false;
            },
        };
        let mut found: Option<Move> = None;
        let ghost c0 = old(pos).contents();
        let ghost mut fi: int = 0;
        let mut i: usize = 0;
        while i < moves.len()
            invariant_except_break
                found is None,
                spec_first_to_key(c0, chosen, 0) == spec_first_to_key(c0, chosen, i as int),
            invariant
                c0 == old(pos).contents(),
                found matches Some(f) ==> spec_first_to_key(c0, chosen, 0) == Some(fi) && 0 <= fi < moves.len() && moves@[fi] == f,
                pos.wf(),
                pos.keys() == old(pos).keys(),
                pos.history() == old(pos).history(),
                pos.contents() == old(pos).contents(),
                pos.board_history() == old(pos).board_history(),
                i <= moves.len(),
                moves.len() == old(pos).legal_codes().len(),
                forall|j: int| 0 <= j < moves.len() ==> #[trigger] moves@[j]@ == old(pos).legal_codes()[j],
                *evals >= *old(evals),
                spec_evals_ok(*evals, eval_budget),
                stats.aborted == old(stats).aborted,
                plies < bound,
                found matches Some(f) ==> old(pos).is_legal(f) && spec_contents_region_key(spec_after_move(old(pos).contents(), f@))
                    == Some(chosen),
            ensures
                found is None ==> spec_first_to_key(c0, chosen, 0) is None,
            decreases moves.len() - i,
        {
            *evals = *evals + 1;
            if *evals >= eval_budget {
                stats.aborted = true;
                return false;
            }
            let m = moves[i];
            proof {
                lemma_listed_is_legal(*old(pos), moves@, i as int);
            }
            let ghost before = *pos;
            pos.do_move(m);
            let ghost mid = *pos;
            let child_key = region_key(pos);
            pos.undo_move(m);
            proof {
                lemma_undo_reverts_do(before, mid, *pos);
            }
            if child_key == Some(chosen) {
                found = Some(m);
                proof {
                    fi = i as int;
                }
                break;
            }
            i += 1;
        }
        let m = match found {
            Some(m) => m,
            None => {
                stats.bad_strategy = bump(stats.bad_strategy);
                return false;
            },
        };
        if path_has(path, chosen) {
            stats.repeats = bump(stats.repeats);
            return false;
        }
        path.push(chosen);
        let ghost before = *pos;
        pos.do_move(m);
        let ghost mid = *pos;
        let ok = replay_walk(pos, plies + 1, path, strategy, winner, bound, evals, eval_budget, stop, stats);
        let ghost after_walk = *pos;
        pos.undo_move(m);
        proof {
            lemma_undo_reverts_do(before, after_walk, *pos);
            if ok {
                let c = old(pos).contents();
                assert(spec_legal_moves(c).contains(m@));
                assert(spec_strategy_wins(c, strategy@, winner, (bound - plies) as nat, old(path)@));
            }
        }
        path.pop();
        proof {
            assert(path@ =~= old(path)@);
        }
        ok
    } else {
        let mut i: usize = 0;
        while i < moves.len()
            invariant
                pos.wf(),
                pos.keys() == old(pos).keys(),
                pos.history() == old(pos).history(),
                pos.contents() == old(pos).contents(),
                pos.board_history() == old(pos).board_history(),
                i <= moves.len(),
                moves.len() == old(pos).legal_codes().len(),
                forall|j: int| 0 <= j < moves.len() ==> #[trigger] moves@[j]@ == old(pos).legal_codes()[j],
                path@ == old(path)@,
                *evals >= *old(evals),
                spec_evals_ok(*evals, eval_budget),
                stats.aborted == old(stats).aborted,
                plies < bound,
                spec_classify(old(pos).contents()) is None,
                spec_contents_region_key(old(pos).contents()) is Some,
                spec_side(old(pos).contents()) != winner,
                forall|j: int| 0 <= j < i ==> spec_reply_covered(
                    old(pos).contents(),
                    strategy@,
                    winner,
                    (bound - plies - 1) as nat,
                    old(path)@,
                    #[trigger] moves@[j],
                ),
            decreases moves.len() - i,
        {
            *evals = *evals + 1;
            if *evals >= eval_budget {
                stats.aborted = true;
                return false;
            }
            let m = moves[i];
            proof {
                lemma_listed_is_legal(*old(pos), moves@, i as int);
            }
            let ghost before = *pos;
            pos.do_move(m);
            let ghost mid = *pos;
            let child_key = region_key(pos);
            let pushed = match child_key {
                Some(ck) => {
                    if path_has(path, ck) {
                        pos.undo_move(m);
                        stats.repeats = bump(stats.repeats);
                        proof {
                            let c = old(pos).contents();
                            assert(spec_legal_moves(c).contains(moves@[i as int]@));
                            assert(spec_contents_region_key(spec_after_move(c, moves@[i as int]@)) == Some(ck));
                            assert(!spec_reply_covered(c, strategy@, winner, (bound - plies - 1) as nat, old(path)@, moves@[i as int]));
                        }
                        return false;
                    }
                    path.push(ck);
                    true
                },
                None => false,
            };
            let ok = replay_walk(pos, plies + 1, path, strategy, winner, bound, evals, eval_budget, stop, stats);
            let ghost after_walk = *pos;
            pos.undo_move(m);
            proof {
                lemma_undo_reverts_do(before, after_walk, *pos);
            }
            if pushed {
                path.pop();
            }
            proof {
                assert(path@ =~= old(path)@);
            }
            if !ok {
                proof {
                    let c = old(pos).contents();
                    assert(spec_legal_moves(c).contains(moves@[i as int]@));
                    assert(spec_contents_region_key(spec_after_move(c, moves@[i as int]@)) == child_key);
                    assert(stats.aborted || !spec_reply_covered(c, strategy@, winner, (bound - plies - 1) as nat, old(path)@, moves@[i as int]));
                }
                return false;
            }
            proof {
                assert(spec_reply_covered(old(pos).contents(), strategy@, winner, (bound - plies - 1) as nat, old(path)@, moves@[i as int]));
            }
            i += 1;
        }
        proof {
            let c = old(pos).contents();
            assert forall|m: Move| #![trigger spec_legal_moves(c).contains(m@)] spec_legal_moves(c).contains(m@) implies spec_reply_covered(
                c,
                strategy@,
                winner,
                (bound - plies - 1) as nat,
                old(path)@,
                m,
            ) by {
                let j = choose|j: int| 0 <= j < spec_legal_moves(c).len() && spec_legal_moves(c)[j] == m@;
                assert(moves@[j]@ == m@);
                assert(moves@[j] == m);
            }
            assert(spec_strategy_wins(c, strategy@, winner, (bound - plies) as nat, old(path)@));
        }
        stats.lines = bump(stats.lines);
        true
    }
}

/// Check a claimed win of `winner` from `root` within `bound` plies by
/// replaying `strategy`: `(ok, stats)`, where a failure with
/// `stats.aborted` means the budget or the stop flag ran out and any other
/// failure a defective strategy.
pub fn verify_certificate(
    root: &Position,
    strategy: &HashMap<u32, u32>,
    winner: Color,
    bound: u32,
    evals: &mut u64,
    eval_budget: u64,
    stop: &Option<Arc<AtomicBool>>,
) -> (r: (bool, CertStats))
    requires
        root.wf(),
        spec_evals_ok(*old(evals), eval_budget),
    ensures
        *final(evals) >= *old(evals),
        r.0 ==> spec_evals_ok(*final(evals), eval_budget) && !r.1.aborted,
        r.0 ==> spec_contents_region_key(root.contents()) is Some && spec_strategy_wins(
            root.contents(),
            strategy@,
            winner,
            bound as nat,
            seq![spec_contents_region_key(root.contents())->0],
        ),
        !r.0 && !r.1.aborted && spec_contents_region_key(root.contents()) is Some ==> !spec_strategy_wins(
            root.contents(),
            strategy@,
            winner,
            bound as nat,
            seq![spec_contents_region_key(root.contents())->0],
        ),
        r.1.aborted ==> stop is Some || *final(evals) >= eval_budget,
{
    let mut stats = CertStats::new();
    let mut path: Vec<u32> = Vec::new();
    match region_key(root) {
        Some(key) => {
            path.push(key);
            proof {
                assert(path@ =~= seq![key]);
            }
        },
        None => {
            stats.bad_strategy = 1;
            return (false, stats);
        },
    }
    let mut pos = root.clone();
    let ok = replay_walk(&mut pos, 0, &mut path, strategy, winner, bound, evals, eval_budget, stop, &mut stats);
    (ok, stats)
}

} // verus!
