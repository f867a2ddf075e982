use std::collections::HashMap;

use atomic_solver::moves::{Color, Move};
use atomic_solver::position::{Outcome, Position};
use atomic_solver::search::ordering::board_snapshot;
use atomic_solver::search::preflight::certificate::{replay_walk, verify_certificate, CertStats};
use atomic_solver::search::preflight::region::{
    analyze, board_from_key, classify_terminal, detector_applies, key_fen, principal_line, region_key,
};
use atomic_solver::search::preflight::{run, PreflightExit, PreflightReport, REGION_BUDGET};

const WIN_ROOT_FEN: &str = "8/8/8/8/8/1K6/1Q6/k7 w - - 0 1";
const MATED_ROOT_FEN: &str = "7K/8/8/8/8/8/1Q6/k7 b - - 0 1";

fn pos(fen: &str) -> Position {
    Position::from_fen(fen).unwrap()
}

fn legal_move(p: &Position, from: u16, to: u16) -> Move {
    p.legal_moves_vec()
        .into_iter()
        .find(|m| m.from_sq() == from && m.to_sq() == to)
        .unwrap_or_else(|| panic!("move {from}->{to} must be legal"))
}

fn child_key_after(p: &Position, from: u16, to: u16) -> u32 {
    let mut cur = p.clone();
    cur.do_move(legal_move(p, from, to));
    region_key(&cur).expect("three men")
}

fn valid_strategy(p: &Position) -> HashMap<u32, u32> {
    let root_key = region_key(p).unwrap();
    let b1_child = child_key_after(p, 9, 1);
    let mut strategy = HashMap::new();
    strategy.insert(root_key, b1_child);
    strategy
}

#[test]
fn detector_fires_on_three_men_without_pawns_or_castling() {
    assert!(detector_applies(&pos("8/2K5/k7/8/8/8/8/4Q3 w - - 0 1")));
    assert!(detector_applies(&pos("8/8/8/8/8/8/8/K6k w - - 0 1")), "two men");
    assert!(detector_applies(&pos("8/8/8/8/8/8/8/4K3 w - - 0 1")), "one man");
}

#[test]
fn detector_skips_pawns_and_castling_rights() {
    assert!(!detector_applies(&pos("4k3/PP6/8/8/8/8/8/4K3 w - - 0 1")), "pawns");
    assert!(!detector_applies(&pos("rnbqkbnr/pppppppp/8/8/8/8/PPPPPPPP/RNBQKBNR w KQkq - 0 1")), "castling rights");
    assert!(detector_applies(&pos("8/2K5/k7/8/8/8/8/4Q3 w - - 0 21")), "the halfmove clock is not part of the predicate");
}

#[test]
fn region_key_is_exact_and_order_independent() {
    let a = pos("8/2K5/k7/8/8/8/8/4Q3 w - - 7 42");
    let b = pos("8/2K5/k7/8/8/8/8/4Q3 b - - 99 1");
    assert_ne!(region_key(&a), region_key(&b), "side to move is part of the key");
    assert_eq!(region_key(&a), region_key(&a), "self-consistency");
    assert_ne!(region_key(&pos("8/2K5/k7/8/8/8/8/4Q3 w - - 0 1")), region_key(&pos("8/2K5/k7/8/8/8/8/4R3 w - - 0 1")));
    assert_ne!(region_key(&pos("8/8/8/3K4/3k4/8/8/8 w - - 0 1")), region_key(&pos("8/8/8/3k4/3K4/8/8/8 w - - 0 1")));
    assert_eq!(region_key(&pos("rnbqkbnr/pppppppp/8/8/8/8/PPPPPPPP/RNBQKBNR w KQkq - 0 1")), None);
}

#[test]
fn region_key_packs_slots_in_square_order() {
    // White commoner a1 (code 6), black commoner h1 (code 14), White to move.
    let key = region_key(&pos("8/8/8/8/8/8/8/K6k w - - 0 1")).unwrap();
    assert_eq!(key, 6 * 2 + (7 * 16 + 14) * 2048);
    assert_eq!(key_fen(key).unwrap(), "8/8/8/8/8/8/8/K6k w - - 0 1");
}

#[test]
fn key_round_trips_through_board_reconstruction() {
    for fen in [
        "8/2K5/k7/8/8/8/8/4Q3 w - - 0 1",
        "8/8/8/3K4/3k4/8/8/8 b - - 0 1",
        "7K/8/8/8/8/8/1Q6/k7 b - - 0 1",
        "8/8/8/8/8/8/8/K6k w - - 0 1",
        "8/2K5/k7/8/8/8/8/4R3 b - - 0 1",
        "8/2K5/k7/8/8/8/8/4B3 b - - 0 1",
        "8/2K5/k7/8/8/8/8/4N3 b - - 0 1",
    ] {
        let p = pos(fen);
        let key = region_key(&p).expect("three men or fewer");
        let rebuilt = board_from_key(key).expect("a packed key decodes");
        assert_eq!(Some(key), region_key(&rebuilt), "round-trip stability for {fen}");
        assert_eq!(p.side_to_move(), rebuilt.side_to_move());
        assert_eq!(board_snapshot(&p).squares, board_snapshot(&rebuilt).squares, "placement for {fen}");
    }
}

#[test]
fn malformed_keys_do_not_decode() {
    // A slot whose type field is 0 names no piece.
    assert!(key_fen(16 * 2).is_none());
    assert!(board_from_key(7 * 2).is_none());
}

#[test]
fn classify_terminal_matches_position_outcome_at_clock_zero() {
    for fen in [
        "4k3/8/8/8/8/8/8/4R1K1 w - - 0 1",
        "7K/8/8/8/8/8/1Q6/k7 b - - 0 1",
        "7k/8/8/8/8/8/2q5/K7 w - - 0 1",
        "8/8/8/8/8/8/8/K6k w - - 0 1",
        "8/2K5/k7/8/8/8/8/4Q3 w - - 0 1",
        "8/8/8/8/8/8/8/k7 w - - 0 1",
        "4k3/8/8/8/8/8/8/4K3 w - - 0 1",
    ] {
        let p = pos(fen);
        assert_eq!(classify_terminal(&p), p.outcome(), "classification parity for {fen}");
    }
}

#[test]
fn region_analyze_aborts_on_region_budget() {
    let abort = analyze(&pos("8/2K5/k7/8/8/8/8/4Q3 w - - 0 1"), u64::MAX, &None, 10).expect_err("must abort");
    assert_eq!(abort.reason, "region-budget");
    assert!(abort.region > 10);
    assert!(abort.evals > 0);
}

#[test]
fn region_analyze_aborts_on_eval_budget() {
    let abort = analyze(&pos("8/2K5/k7/8/8/8/8/4Q3 w - - 0 1"), 500, &None, REGION_BUDGET).expect_err("must abort");
    assert_eq!(abort.reason, "eval-budget");
    assert_eq!(abort.evals, 500);
}

#[test]
fn terminal_root_closes_immediately() {
    let a = analyze(&pos(MATED_ROOT_FEN), u64::MAX, &None, REGION_BUDGET).unwrap();
    assert_eq!(a.region, 1);
    assert_eq!(a.evals, 0);
    assert_eq!(a.root_outcome(), Outcome::Loss);
    assert_eq!(a.root_rank(), 0);
    assert_eq!(principal_line(&a), Some(vec![]));
}

#[test]
fn preflight_claims_terminal_checkmate_root() {
    match run(&pos(MATED_ROOT_FEN), None, u64::MAX, &None) {
        PreflightExit::Claimed(c) => {
            assert_eq!(c.outcome, Outcome::Loss);
            assert!(c.pv.is_empty());
            assert_eq!(c.rank, 0);
            assert_eq!(c.region, 1);
            assert_eq!(c.evals, 0);
        },
        other => panic!("expected a claim, got {other:?}"),
    }
}

#[test]
fn preflight_draw_claim_on_terminal_stalemate_root() {
    match run(&pos("7k/8/8/8/8/8/2q5/K7 w - - 0 1"), None, u64::MAX, &None) {
        PreflightExit::Claimed(c) => {
            assert_eq!(c.outcome, Outcome::Draw);
            assert!(c.pv.is_empty());
            assert_eq!(c.rank, 0);
            assert_eq!(c.region, 1);
        },
        other => panic!("expected a claim, got {other:?}"),
    }
}

#[test]
fn preflight_win_claim_on_extinct_opponent_root() {
    match run(&pos("8/8/8/8/8/8/8/4k3 b - - 0 1"), None, u64::MAX, &None) {
        PreflightExit::Claimed(c) => {
            assert_eq!(c.outcome, Outcome::Win);
            assert!(c.pv.is_empty());
            assert_eq!(c.rank, 0);
            assert_eq!(c.region, 1);
        },
        other => panic!("expected a claim, got {other:?}"),
    }
}

#[test]
fn preflight_defers_on_detector_miss() {
    match run(&pos("4k3/8/8/8/8/8/8/4KRR1 w - - 0 1"), None, 5_000, &None) {
        PreflightExit::Deferred { reason, evals, region } => {
            assert_eq!((reason, evals, region), ("detector", 0, 0));
        },
        other => panic!("expected a deferral, got {other:?}"),
    }
}

#[test]
fn preflight_eval_budget_defers() {
    match run(&pos("8/2K5/k7/8/8/8/8/4Q3 w - - 0 1"), None, 1_000, &None) {
        PreflightExit::Deferred { reason, evals, .. } => {
            assert_eq!(reason, "eval-budget");
            assert_eq!(evals, 1_000);
        },
        other => panic!("expected a deferral, got {other:?}"),
    }
}

#[test]
fn report_constructors() {
    let d = PreflightReport::deferred("stop", 3, 4);
    assert!(!d.decided);
    assert_eq!((d.reason, d.evals, d.region, d.outcome, d.rank), ("stop", 3, 4, None, 0));
    let c = PreflightReport::decided(Outcome::Win, 5, 6, 7);
    assert!(c.decided);
    assert_eq!((c.reason, c.evals, c.region, c.outcome, c.rank), ("", 5, 6, Some(Outcome::Win), 7));
}

#[test]
fn verifier_rejects_a_strategy_the_defender_escapes() {
    let p = pos(WIN_ROOT_FEN);
    let strategy = valid_strategy(&p);
    let mut evals = 0u64;
    let (ok, stats) = verify_certificate(&p, &strategy, Color::White, 6, &mut evals, u64::MAX, &None);
    assert!(!ok, "the defender escape must fail the certificate");
    assert!(!stats.aborted);
    assert!(stats.repeats + stats.bad_strategy + stats.budget_exits >= 1);
}

#[test]
fn verifier_rejects_a_missing_entry() {
    let p = pos(WIN_ROOT_FEN);
    let strategy = HashMap::new();
    let mut evals = 0u64;
    let (ok, stats) = verify_certificate(&p, &strategy, Color::White, 4, &mut evals, u64::MAX, &None);
    assert!(!ok);
    assert!(stats.bad_strategy >= 1, "the winner node needs an entry");
    assert!(!stats.aborted);
}

#[test]
fn verifier_rejects_a_corrupted_entry() {
    let p = pos(WIN_ROOT_FEN);
    let mut strategy = HashMap::new();
    strategy.insert(region_key(&p).unwrap(), u32::MAX);
    let mut evals = 0u64;
    let (ok, stats) = verify_certificate(&p, &strategy, Color::White, 4, &mut evals, u64::MAX, &None);
    assert!(!ok);
    assert!(stats.bad_strategy >= 1);
}

#[test]
fn verifier_rejects_an_injected_cycle() {
    let p = pos(WIN_ROOT_FEN);
    let root_key = region_key(&p).unwrap();
    let strategy = valid_strategy(&p);
    let mut cur = p.clone();
    cur.do_move(legal_move(&p, 9, 1));
    let replies = cur.legal_moves_vec();
    assert!(!replies.is_empty());
    cur.do_move(replies[0]);
    let seeded = region_key(&cur).unwrap();

    let mut path = vec![root_key, seeded];
    let mut stats = CertStats::new();
    let mut evals = 0u64;
    let mut walk_pos = p.clone();
    let ok = replay_walk(&mut walk_pos, 0, &mut path, &strategy, Color::White, 6, &mut evals, u64::MAX, &None, &mut stats);
    assert!(!ok, "the injected cycle must fail the certificate");
    assert_eq!(stats.repeats, 1, "the failure must be the detected repeat");
    assert_eq!(path, vec![root_key, seeded], "the path is restored");
}

#[test]
fn verifier_rejects_a_line_exceeding_the_bound() {
    let p = pos(WIN_ROOT_FEN);
    let strategy = valid_strategy(&p);
    let mut evals = 0u64;
    let (ok, stats) = verify_certificate(&p, &strategy, Color::White, 1, &mut evals, u64::MAX, &None);
    assert!(!ok);
    assert!(stats.budget_exits >= 1);
}

#[test]
fn verifier_eval_budget_aborts_without_failing_the_strategy() {
    let p = pos(WIN_ROOT_FEN);
    let strategy = valid_strategy(&p);
    let mut evals = 0u64;
    let (ok, stats) = verify_certificate(&p, &strategy, Color::White, 4, &mut evals, 0, &None);
    assert!(!ok);
    assert!(stats.aborted, "exhausted budget aborts, never fails");
    assert_eq!(evals, 1, "the budget check fires after the first eval");
}
