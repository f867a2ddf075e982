use std::cell::Cell;

use atomic_solver::moves::{Color, Move};
use atomic_solver::notation::{move_to_uci, uci_to_move};
use atomic_solver::position::{Outcome, Position};
use atomic_solver::search::dfpn::{ExitReason, PvStatus, Search};
use atomic_solver::search::ordering::{nearest_commoner_map, MoveScorer, StaticAtomicScorer};
use atomic_solver::zobrist::INF;

fn sq(name: &str) -> u16 {
    let b = name.as_bytes();
    ((b[0] - b'a') as u16) + 8 * ((b[1] - b'1') as u16)
}

fn mv(from: &str, to: &str) -> Move {
    Move::make_move(sq(from), sq(to))
}

fn find_move(pos: &Position, uci: &str) -> Move {
    for m in pos.legal_moves_vec() {
        if move_to_uci(m) == uci {
            return m;
        }
    }
    panic!("move {uci} not found");
}

#[test]
fn local_repetition_in_prefix_returns_draw() {
    let mut pos = Position::from_fen("8/8/8/8/2k5/8/8/4KR2 w - - 0 1").unwrap();
    pos.do_move(mv("f1", "g1"));
    pos.do_move(mv("c4", "b4"));
    pos.do_move(mv("g1", "f1"));
    pos.do_move(mv("b4", "c4"));

    let rep_key = pos.repetition_key();
    let mut search = Search::new(64);
    search.set_timeout(5);
    let (outcome, depth, _nodes) = search.search_depth_with_prefix(&mut pos, u32::MAX, &[rep_key]);
    assert_eq!(outcome, Outcome::Draw);
    assert_eq!(depth, 0);
}

#[test]
fn set_timeout_zero_causes_immediate_exit() {
    let mut pos = Position::from_fen("4k3/8/8/8/8/8/8/4R1K1 w - - 0 1").unwrap();
    let mut search = Search::new(64);
    search.set_timeout(0);
    let (outcome, _pv, _nodes) = search.solve(&mut pos);
    assert_eq!(outcome, Outcome::Draw, "timeout 0 should return Draw");
    assert!(search.time_exceeded(), "time should be exceeded after timeout 0");
    assert_eq!(search.exit_reason(), ExitReason::Timeout);
}

#[test]
fn first_outcome_only_skips_refinement() {
    let mut pos = Position::from_fen("4k3/8/8/8/8/8/8/4KRR1 w - - 0 1").unwrap();
    let mut search = Search::new(64);
    search.set_timeout(5);
    search.set_first_outcome_only(true);
    let (outcome, pv, _nodes) = search.solve(&mut pos);
    assert_eq!(outcome, Outcome::Win);
    assert!(!pv.is_empty(), "first-outcome mode should still return a winning PV");
    assert_eq!(search.refinement_rounds(), 0);
}

#[test]
fn solve_with_progress_calls_closure() {
    let mut pos = Position::from_fen("4k3/8/8/8/8/8/8/4R1K1 w - - 0 1").unwrap();
    let mut search = Search::new(64);
    search.set_timeout(5);
    let calls = Cell::new(0u32);
    let (outcome, _pv, _nodes) = search.solve_with_progress(&mut pos, |_o, _pv| {
        calls.set(calls.get() + 1);
    });
    assert_eq!(outcome, Outcome::Win);
    assert!(calls.get() > 0, "progress closure should be invoked at least once");
}

#[test]
fn exit_reason_reports_complete() {
    let mut pos = Position::from_fen("4k3/8/8/8/8/8/8/4R1K1 w - - 0 1").unwrap();
    let mut search = Search::new(64);
    search.set_timeout(5);
    let _ = search.solve(&mut pos);
    assert_eq!(search.exit_reason(), ExitReason::Complete, "a solved position should report Complete");
    assert_eq!(search.exit_reason().as_str(), "Complete");
}

#[test]
fn mate_in_one_is_proven_shortest() {
    let mut pos = Position::from_fen("4k3/8/8/8/8/8/8/4R1K1 w - - 0 1").unwrap();
    let mut search = Search::new(16);
    let (outcome, pv, _nodes) = search.solve(&mut pos);
    assert_eq!(outcome, Outcome::Win);
    assert_eq!(pv, vec![mv("e1", "e8")]);
    assert_eq!(search.pv_status(), PvStatus::ProvenShortest);
    assert!(Search::validate_pv(&pv, &pos, Outcome::Win, Some(1)));
}

#[test]
fn child_eval_budget_zero_causes_immediate_exit() {
    let mut pos = Position::from_fen("4k3/PP6/8/8/8/8/8/4K3 w - - 0 1").unwrap();
    let mut search = Search::new(64);
    search.set_timeout(5);
    search.set_child_eval_budget(0);

    let (outcome, pv, _nodes) = search.solve(&mut pos);
    assert_eq!(outcome, Outcome::Draw, "budget 0 should return Draw");
    assert!(pv.is_empty(), "expected an empty PV after immediate budget cutoff, got {pv:?}");
    assert!(search.child_eval_budget_exceeded(), "budget should be exceeded");
    assert!(!search.time_exceeded(), "budget exhaustion must not be reported as a timeout");
    assert_eq!(search.exit_reason(), ExitReason::BudgetExhausted);
    let (_buckets, live_entries, solved_entries, _unsolved, _generation) = search.tt_stats();
    assert_eq!(live_entries, 0, "a budget-0 search must not store anything");
    assert_eq!(solved_entries, 0, "a budget-0 search must not cache a proven entry");
}

#[test]
fn child_eval_budget_generous_still_solves() {
    let mut pos = Position::from_fen("4k3/PP6/8/8/8/8/8/4K3 w - - 0 1").unwrap();
    let mut search = Search::new(64);
    search.set_timeout(5);
    search.set_child_eval_budget(5_000_000);
    let (outcome, pv, _nodes) = search.solve(&mut pos);
    assert_eq!(outcome, Outcome::Win, "generous budget should still solve");
    assert!(!pv.is_empty(), "solved search should return a PV");
    assert!(!search.child_eval_budget_exceeded());
    assert_eq!(search.exit_reason(), ExitReason::Complete);
}

#[test]
fn child_eval_budget_fraction_does_not_solve() {
    let mut pos = Position::from_fen("4k3/PP6/8/8/8/8/8/4K3 w - - 0 1").unwrap();
    let mut search = Search::new(64);
    search.set_timeout(5);
    search.set_child_eval_budget(5_000);

    let (outcome, _pv, _nodes) = search.solve(&mut pos);
    assert_eq!(outcome, Outcome::Draw, "a budget below the solve effort must return Draw");
    assert!(search.child_eval_budget_exceeded());
    assert!(!search.time_exceeded(), "budget exhaustion must not be reported as a timeout");
    assert_eq!(search.exit_reason(), ExitReason::BudgetExhausted);

    search.set_child_eval_budget(u64::MAX);
    let (outcome, _pv, _nodes) = search.solve(&mut pos);
    assert_eq!(outcome, Outcome::Win, "a budget-cut search must not cache a proven result that hides the win");
}

#[test]
fn budget_exhausted_pv_is_empty_or_valid() {
    let mut pos = Position::from_fen("4k3/8/8/8/8/8/8/4KRR1 w - - 0 1").unwrap();
    let mut search = Search::new(64);
    search.set_timeout(5);
    search.set_child_eval_budget(5);
    let (outcome, pv, _nodes) = search.solve(&mut pos);
    assert_eq!(outcome, Outcome::Draw);
    assert!(search.child_eval_budget_exceeded());
    let mut current = pos.clone();
    for m in &pv {
        assert!(current.try_do_move(*m), "PV move must be legal in a budget-exhausted search");
    }
}

const REFINE_FIXTURE_FEN: &str = "r7/1Rp4k/4P2B/6p1/3P2P1/p6p/P6K/8 b - - 0 35";

#[test]
fn refinement_counters_accumulate() {
    let mut pos = Position::from_fen(REFINE_FIXTURE_FEN).unwrap();
    let mut search = Search::new(64);
    search.set_timeout(5);
    let (outcome, pv, _nodes) = search.solve(&mut pos);
    assert_eq!(outcome, Outcome::Loss);
    assert!(!pv.is_empty());
    assert!(search.first_outcome_evaluations() > 0);
    assert!(search.refinement_rounds() >= 1);
    assert!(search.child_evaluations() >= search.first_outcome_evaluations());
    assert_eq!(search.refinement_evaluations(), search.child_evaluations() - search.first_outcome_evaluations());
}

#[test]
fn refine_cap_zero_disables_capping() {
    let mut pos = Position::from_fen(REFINE_FIXTURE_FEN).unwrap();
    let mut search = Search::new(64);
    search.set_timeout(5);
    search.set_refine_cap_fraction(0, 1);
    let (outcome, pv, _nodes) = search.solve(&mut pos);
    assert_eq!(outcome, Outcome::Loss);
    assert!(!pv.is_empty());
    assert!(search.refinement_rounds() >= 1);
}

#[test]
fn solve_twice_identical_counts() {
    let mut results = Vec::new();
    for _ in 0..2 {
        let mut pos = Position::from_fen(REFINE_FIXTURE_FEN).unwrap();
        let mut search = Search::new(64);
        search.set_timeout(5);
        let (outcome, pv, nodes) = search.solve(&mut pos);
        results.push((outcome, pv.len(), nodes, search.child_evaluations()));
    }
    assert_eq!(results[0], results[1], "identical solve, identical counters");
}

#[test]
fn default_refine_cap_leaves_improving_rounds() {
    let mut pos = Position::from_fen(REFINE_FIXTURE_FEN).unwrap();
    let mut search = Search::new(64);
    search.set_timeout(5);
    let (outcome, pv, _nodes) = search.solve(&mut pos);
    assert_eq!(outcome, Outcome::Loss);
    assert_eq!(pv.len(), 48, "the converged shortest PV is 48 plies");
    assert!(search.refinement_rounds() >= 1);
}

#[test]
fn validate_pv_accepts_valid_win() {
    let pos = Position::from_fen("4k3/8/8/8/8/8/8/4R1K1 w - - 0 1").unwrap();
    let pv = vec![mv("e1", "e8")];
    assert!(Search::validate_pv(&pv, &pos, Outcome::Win, Some(1)));
    assert!(!Search::validate_pv(&pv, &pos, Outcome::Win, Some(2)));
    assert!(!Search::validate_pv(&pv, &pos, Outcome::Loss, Some(1)));
}

#[test]
fn validate_pv_rejects_illegal_move() {
    let pos = Position::from_fen("4k3/8/8/8/8/8/8/4K3 w - - 0 1").unwrap();
    let pv = vec![mv("e1", "e8")];
    assert!(!Search::validate_pv(&pv, &pos, Outcome::Win, None));
}

#[test]
fn validate_pv_rejects_wrong_terminal_outcome() {
    let pos = Position::from_fen("4k3/8/8/8/8/8/8/4K3 w - - 0 1").unwrap();
    let pv = vec![];
    assert!(Search::validate_pv(&pv, &pos, Outcome::Draw, None));
    assert!(!Search::validate_pv(&pv, &pos, Outcome::Win, None));
}

#[test]
fn pv_truncation_warns_and_keeps_outcome() {
    let mut pos = Position::from_fen("4k3/8/8/8/8/8/8/4KRR1 w - - 0 1").unwrap();
    let mut search = Search::new(64);
    search.set_timeout(5);
    search.set_max_ply(2);
    let (outcome, pv, _nodes) = search.solve(&mut pos);
    assert_eq!(outcome, Outcome::Win, "truncation must not change the outcome");
    assert_eq!(pv.len(), 2, "PV should be truncated to max_ply");
}

#[test]
fn validate_pv_accepts_three_ply_mate() {
    let pos = Position::from_fen("4k3/8/8/8/8/8/8/4KRR1 w - - 0 1").unwrap();
    let mut replay = pos.clone();
    let mut pv = Vec::new();
    for s in ["f1f7", "e8d8", "g1g8"] {
        let m = uci_to_move(s, &replay).expect("legal move");
        replay.do_move(m);
        pv.push(m);
    }
    assert!(Search::validate_pv(&pv, &pos, Outcome::Win, None));
    assert!(Search::validate_pv_prefix(&pv, &pos).is_some());
}

fn seeded_mate_in_one() -> (Search, Position, Move) {
    let mut search = Search::new(1);
    let pos = Position::from_fen("4k3/8/8/8/8/8/8/4R1K1 w - - 0 1").unwrap();
    let m = mv("e1", "e8");
    search.tt_store(pos.hash(), m, 0, 0, Some(Outcome::Win), 0, INF, 1, u32::MAX);
    let mut child = pos.clone();
    child.do_move(m);
    search.tt_store(child.hash(), Move::none(), u8::MAX, 0, Some(Outcome::Loss), INF, 0, 0, u32::MAX);
    (search, pos, m)
}

#[test]
fn extract_pv_follows_tt_entries() {
    let (search, pos, m) = seeded_mate_in_one();
    let pv = search.extract_pv(&pos);
    assert_eq!(pv, vec![m], "extract_pv should follow the TT to the terminal");
}

#[test]
fn extract_pv_checked_rejects_wrong_depth() {
    let (search, pos, _m) = seeded_mate_in_one();
    assert!(search.extract_pv_checked(&pos, Outcome::Win, Some(1)).is_some(), "depth 1 should match the stored PV");
    assert!(search.extract_pv_checked(&pos, Outcome::Win, Some(2)).is_none(), "depth 2 should not match the stored PV");
}

#[test]
fn seeded_entry_resolves_the_search() {
    let (mut search, mut pos, m) = seeded_mate_in_one();
    let (outcome, depth, _nodes) = search.search_depth_with_prefix(&mut pos, 8, &[]);
    assert_eq!(outcome, Outcome::Win);
    assert_eq!(depth, 1);
    assert_eq!(search.tt().probe(pos.hash()).unwrap().best_move, m);
}

#[test]
fn winning_capture_scores_highest() {
    let pos = Position::from_fen("rnbq1bnr/pppkpQ1p/3p1pp1/8/8/4P3/PPPP1PPP/RNB1KBNR w KQ - 2 5").unwrap();
    let scorer = StaticAtomicScorer::new();
    assert_eq!(scorer.score(&pos, find_move(&pos, "f7e7"), true), 100_000_000);
}

#[test]
fn promotion_scores_above_threat_and_center() {
    let pos = Position::from_fen("4k3/1P6/8/8/8/8/8/4K3 w - - 0 1").unwrap();
    let scorer = StaticAtomicScorer::new();
    let promotion = scorer.score(&pos, find_move(&pos, "b7b8q"), true);
    let quiet = scorer.score(&pos, find_move(&pos, "e1d1"), true);
    assert!(promotion > quiet, "promotion should be preferred to a quiet king move");
}

#[test]
fn capture_scores_above_quiet_moves() {
    let pos = Position::from_fen("rnbqkbnr/pppp1ppp/8/4p3/8/5N2/PPPPPPPP/RNBQKB1R w KQkq - 0 3").unwrap();
    let scorer = StaticAtomicScorer::new();
    let capture = scorer.score(&pos, find_move(&pos, "f3e5"), true);
    let quiet = scorer.score(&pos, find_move(&pos, "f3d4"), true);
    assert!(capture > quiet, "capture should score above quiet development");
}

#[test]
fn score_is_deterministic() {
    let pos = Position::new();
    let scorer = StaticAtomicScorer::new();
    for m in pos.legal_moves_vec() {
        assert_eq!(scorer.score(&pos, m, true), scorer.score(&pos, m, true), "score should be deterministic");
    }
}

#[test]
fn score_with_no_commoners_is_max_distance() {
    let pos = Position::from_fen("8/8/8/8/8/8/8/4K3 w - - 0 1").unwrap();
    let map = nearest_commoner_map(&pos, Color::Black);
    assert_eq!(map.len(), 64);
    assert!(map.iter().all(|&d| d == i8::MAX));
}

#[test]
fn nearest_commoner_map_counts_king_steps() {
    let pos = Position::from_fen("8/8/8/8/8/8/8/4K3 w - - 0 1").unwrap();
    let map = nearest_commoner_map(&pos, Color::White);
    assert_eq!(map[sq("e1") as usize], 0);
    assert_eq!(map[sq("e2") as usize], 1);
    assert_eq!(map[sq("a8") as usize], 7);
    assert_eq!(map[sq("h4") as usize], 3);
}

#[test]
fn kamikaze_landing_adjacent_to_lone_commoner() {
    let pos = Position::from_fen("8/8/8/8/4k3/8/2N5/4K3 w - - 0 1").unwrap();
    let scorer = StaticAtomicScorer::new();
    let kamikaze = scorer.score(&pos, find_move(&pos, "c2e3"), true);
    let other = scorer.score(&pos, find_move(&pos, "c2a3"), true);
    assert!(kamikaze > other, "kamikaze move c2e3 should score above a non-kamikaze jump");
}

#[test]
fn capture_with_blasted_rook_scores_higher() {
    let pos = Position::from_fen("4k3/8/8/2p1pr2/3Q4/8/8/4K3 w - - 0 1").unwrap();
    let scorer = StaticAtomicScorer::new();
    let rook_blast = scorer.score(&pos, find_move(&pos, "d4e5"), true);
    let pawn_only = scorer.score(&pos, find_move(&pos, "d4c5"), true);
    assert!(rook_blast > pawn_only, "capture that also blasts a rook should score higher");
}

#[test]
fn move_order_breakdown_is_sorted_by_total() {
    let pos = Position::new();
    let search = Search::new(1);
    let rows = search.move_order_breakdown(&pos, true);
    assert_eq!(rows.len(), 20);
    assert!(rows.windows(2).all(|w| w[0].4 >= w[1].4));
}

#[test]
fn losing_capture_scores_below_direct_commoner_threat() {
    // The queen capturing the e5 pawn loses the queen for a pawn; the quiet
    // bishop move to c6 attacks the black commoner on e8.
    let pos = Position::from_fen("4k3/8/8/1B2p3/8/8/4Q3/4K3 w - - 0 1").unwrap();
    let scorer = StaticAtomicScorer::new();
    let capture = scorer.score(&pos, find_move(&pos, "e2e5"), true);
    let threat = scorer.score(&pos, find_move(&pos, "b5c6"), true);
    assert!(threat > capture, "direct commoner threat should score above a losing capture");
}

#[test]
fn capture_promotion_is_not_scored_as_promotion() {
    // a7xb8 promoting is judged as a capture: the promoted piece is blasted.
    let pos = Position::from_fen("1n2k3/P7/8/8/8/8/8/4K3 w - - 0 1").unwrap();
    let scorer = StaticAtomicScorer::new();
    let capture_score = scorer.score(&pos, find_move(&pos, "a7b8q"), true);
    let promo_score = scorer.score(&pos, find_move(&pos, "a7a8q"), true);
    assert!(
        capture_score < scorer.params().score_promotion,
        "capture-promotion should not receive the promotion bonus"
    );
    assert!(promo_score > capture_score, "non-capture promotion should score above capture-promotion here");
}

const M22_FEN: &str = "4r2k/3p4/2pB2p1/p6p/5pPP/2N1PP2/P1PP4/1R4RK w - - 0 22";

#[test]
fn m22_g4g5_scores_above_d6e5() {
    let pos = Position::from_fen(M22_FEN).unwrap();
    let scorer = StaticAtomicScorer::new();
    let pawn_storm = scorer.score(&pos, find_move(&pos, "g4g5"), true);
    let bishop_probe = scorer.score(&pos, find_move(&pos, "d6e5"), true);
    assert!(pawn_storm > bishop_probe, "g4g5 pawn storm should score above d6e5 bishop probe");
}

#[test]
fn m22_rg1e1_scores_above_quiet_pawn_moves() {
    let pos = Position::from_fen(M22_FEN).unwrap();
    let scorer = StaticAtomicScorer::new();
    let rook_lift = scorer.score(&pos, find_move(&pos, "g1e1"), true);
    let quiet_pawn = scorer.score(&pos, find_move(&pos, "a2a3"), true);
    assert!(rook_lift > quiet_pawn, "Rg1e1 rook lift should score above quiet a-pawn push");
}

#[test]
fn m22_pawn_storm_does_not_overvalue_distant_pawn_pushes() {
    let pos = Position::from_fen(M22_FEN).unwrap();
    let scorer = StaticAtomicScorer::new();
    assert_eq!(scorer.score(&pos, find_move(&pos, "a2a3"), true), 0, "a2a3 should not get a pawn-storm bonus");
    assert_eq!(scorer.score(&pos, find_move(&pos, "a2a4"), true), 0, "a2a4 should not get a pawn-storm bonus");
}

#[test]
fn pawn_storm_is_lower_at_and_node() {
    let pos = Position::from_fen(M22_FEN).unwrap();
    let scorer = StaticAtomicScorer::new();
    let g4g5 = find_move(&pos, "g4g5");
    let or = scorer.score(&pos, g4g5, true);
    let and = scorer.score(&pos, g4g5, false);
    assert!(and < or, "AND-node pawn storm should score below OR-node pawn storm");
}

#[test]
fn direct_commoner_threat_stays_high_at_and_node() {
    let pos = Position::from_fen(M22_FEN).unwrap();
    let scorer = StaticAtomicScorer::new();
    let d6e5 = find_move(&pos, "d6e5");
    let or = scorer.score(&pos, d6e5, true);
    let and = scorer.score(&pos, d6e5, false);
    assert!(and > 0, "direct commoner threat should stay positive at an AND node");
    assert!(and >= or / 2, "direct commoner threat should not collapse at an AND node");
}

#[test]
fn and_profile_shrinks_gap_between_pawn_storm_and_quiet_move() {
    let pos = Position::from_fen(M22_FEN).unwrap();
    let scorer = StaticAtomicScorer::new();
    let g4g5 = find_move(&pos, "g4g5");
    let e3e4 = find_move(&pos, "e3e4");
    let gap_or = scorer.score(&pos, g4g5, true) - scorer.score(&pos, e3e4, true);
    let gap_and = scorer.score(&pos, g4g5, false) - scorer.score(&pos, e3e4, false);
    assert!(gap_and < gap_or, "AND profile should reduce the gap between pawn storm and quiet central move");
}

#[test]
fn static_scorer_serves_as_a_move_scorer() {
    let pos = Position::from_fen("4k3/8/8/1B2p3/8/8/4Q3/4K3 w - - 0 1").unwrap();
    let scorer = StaticAtomicScorer::new();
    let as_trait: &dyn MoveScorer = &scorer;
    for m in pos.legal_moves_vec() {
        assert_eq!(as_trait.score(&pos, m, true), scorer.score(&pos, m, true));
        assert_eq!(as_trait.score(&pos, m, false), scorer.score(&pos, m, false));
    }
}

#[test]
fn solve_of_a_terminal_root_returns_its_outcome() {
    let mut pos = Position::from_fen("4k3/8/8/8/8/8/8/4P3 w - - 0 1").unwrap();
    let mut search = Search::new(1);
    let (o, pv, _) = search.solve(&mut pos);
    assert_eq!(o, Outcome::Loss);
    assert!(pv.is_empty());
    let mut stalemate = Position::from_fen("7k/8/8/8/8/8/2q5/K7 w - - 0 1").unwrap();
    let (o, _, _) = Search::new(1).solve(&mut stalemate);
    assert_eq!(o, Outcome::Draw);
}
