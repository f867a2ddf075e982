use std::collections::HashMap;

use atomic_solver::moves::Move;
use atomic_solver::notation::move_to_bits;
use atomic_solver::position::{Outcome, Position};
use atomic_solver::proof_tree::node::ProofTree;
use atomic_solver::reconstruct::{
    build_solved_map, classify_node, clock_scan, reconstruct, seed_search, tree_signature, ReconstructConfig,
    Resolution,
};
use atomic_solver::search::dfpn::Search;
use atomic_solver::tt_snapshot::{read_tt_snapshot, write_tt_snapshot, SolvedRecord};
use atomic_solver::zobrist::rule50_key;

const MATE3_FEN: &str = "4k3/8/8/8/8/8/8/4KRR1 w - - 0 1";

fn record(key: u64, outcome: Outcome, depth: u32, best_move: Move) -> SolvedRecord {
    SolvedRecord { key, outcome, depth, best_move }
}

fn solved_snapshot(fen: &str) -> Vec<SolvedRecord> {
    let mut pos = Position::from_fen(fen).unwrap();
    let mut search = Search::new(16);
    search.set_first_outcome_only(true);
    search.set_timeout(30);
    let (outcome, _pv, _nodes) = search.solve(&mut pos);
    assert_ne!(outcome, Outcome::Draw, "fixture {fen} must solve");
    let (buf, _) = write_tt_snapshot(search.tt(), fen, 16);
    let (_header, solved, _unsolved) = read_tt_snapshot(&buf).unwrap();
    solved
}

fn live_root_entry(fen: &str) -> (u64, atomic_solver::search::tt::TtEntry) {
    let mut pos = Position::from_fen(fen).unwrap();
    let mut live = Search::new(16);
    live.set_first_outcome_only(true);
    let (outcome, _pv, _nodes) = live.solve(&mut pos);
    assert_eq!(outcome, Outcome::Win);
    let root_key = Position::from_fen(fen).unwrap().hash();
    let entry = live
        .tt()
        .entries()
        .iter()
        .find(|e| e.valid && e.key == root_key && e.outcome.is_some())
        .copied()
        .expect("live search stored a solved root entry");
    (root_key, entry)
}

#[test]
fn seeding_is_probe_visible_in_current_generation() {
    let (root_key, entry) = live_root_entry(MATE3_FEN);
    let mut fresh = Search::new(16);
    let seeded = seed_search(&mut fresh, &[record(root_key, entry.outcome.unwrap(), entry.depth, entry.best_move)]);
    assert_eq!(seeded, 1);
    let probed = fresh.tt().probe(root_key).expect("seeded entry is probe-visible");
    assert_eq!(probed.outcome, Some(Outcome::Win));
    assert_eq!(probed.depth, entry.depth);
    assert_eq!(probed.best_move, entry.best_move);
    assert_eq!(probed.remaining_depth, u32::MAX);
    assert_eq!(probed.generation, fresh.tt().current_generation(), "seeding stamps the current generation");
}

#[test]
fn seeded_entry_resolves_a_mate_in_1_search() {
    let fen = "4k3/8/8/8/8/8/8/4R1K1 w - - 0 1";
    let (root_key, entry) = live_root_entry(fen);
    assert_eq!(entry.remaining_depth, u32::MAX);
    assert!(entry.depth >= 1);
    let mut fresh = Search::new(16);
    seed_search(&mut fresh, &[record(root_key, entry.outcome.unwrap(), entry.depth, entry.best_move)]);
    let mut pos = Position::from_fen(fen).unwrap();
    let (outcome, _pv, nodes) = fresh.search_depth(&mut pos, entry.depth + 1);
    assert_eq!(outcome, Outcome::Win);
    assert_eq!(nodes, 1, "the search must resolve from the seeded entry");
}

#[test]
fn seeding_skips_duplicate_keys() {
    let mut fresh = Search::new(1);
    let seeded = seed_search(
        &mut fresh,
        &[record(7, Outcome::Win, 1, Move::none()), record(7, Outcome::Loss, 2, Move::none()), record(8, Outcome::Draw, 0, Move::none())],
    );
    assert_eq!(seeded, 2);
    assert_eq!(fresh.tt().probe(7).unwrap().outcome, Some(Outcome::Win));
}

#[test]
fn clock_scan_finds_synthetic_clock_variants() {
    let pos = Position::from_fen(MATE3_FEN).unwrap();
    let board_key = pos.repetition_key();
    let actual_clock = pos.rule50();

    let win_key = board_key ^ rule50_key((actual_clock + 7).min(100));
    let mut map = HashMap::new();
    map.insert(win_key, record(win_key, Outcome::Win, 3, Move::none()));
    assert_eq!(clock_scan(&map, board_key).map(|r| r.outcome), Some(Outcome::Win));
    assert!(matches!(classify_node(&map, pos.hash(), board_key, false), Resolution::ClockHit(_)));

    let draw_key = board_key ^ rule50_key((actual_clock + 13).min(100));
    let mut map = HashMap::new();
    map.insert(draw_key, record(draw_key, Outcome::Draw, 0, Move::none()));
    assert_eq!(clock_scan(&map, board_key).map(|r| r.outcome), Some(Outcome::Draw));
    assert!(matches!(classify_node(&map, pos.hash(), board_key, false), Resolution::ClockMissDraw));

    map.insert(pos.hash(), record(pos.hash(), Outcome::Loss, 5, Move::none()));
    assert!(matches!(classify_node(&map, pos.hash(), board_key, false), Resolution::Hit(_)));
}

#[test]
fn classify_node_without_records() {
    let map = HashMap::new();
    assert!(matches!(classify_node(&map, 1, 2, true), Resolution::Repetition));
    assert!(matches!(classify_node(&map, 1, 2, false), Resolution::Absent));
    assert!(clock_scan(&map, 2).is_none());
}

#[test]
fn fill_recovers_a_dropped_root_record() {
    let solved = solved_snapshot(MATE3_FEN);
    let root_key = Position::from_fen(MATE3_FEN).unwrap().hash();
    let mut holes = solved.clone();
    let before = holes.len();
    holes.retain(|r| r.key != root_key);
    assert_eq!(holes.len(), before - 1, "the root record must be dropped");

    let output = reconstruct(MATE3_FEN, &holes, &ReconstructConfig::default());
    assert!(output.error.is_none(), "fill failed: {:?}", output.error);
    assert_eq!(output.root_outcome, Some(Outcome::Win));
    assert_eq!(output.stats.filled, 1, "exactly the dropped root was filled");
    assert_eq!(output.stats.absent, 1);
    assert!(output.tree.is_some());
}

#[test]
fn anomaly_on_non_terminal_win_without_best_move() {
    let root_key = Position::from_fen(MATE3_FEN).unwrap().hash();
    let solved = [record(root_key, Outcome::Win, 1, Move::none())];
    let output = reconstruct(MATE3_FEN, &solved, &ReconstructConfig::default());
    assert!(output.tree.is_none());
    assert_eq!(output.stats.anomalies, 1);
    let error = output.error.expect("walk must abort");
    assert!(error.contains("best_move NONE"), "unexpected error: {error}");
}

#[test]
fn draw_root_is_not_decisive() {
    let root_key = Position::from_fen(MATE3_FEN).unwrap().hash();
    let solved = [record(root_key, Outcome::Draw, 0, Move::none())];
    let output = reconstruct(MATE3_FEN, &solved, &ReconstructConfig::default());
    assert!(output.tree.is_none());
    let error = output.error.expect("walk must fail");
    assert!(error.contains("does not prove a decisive root"), "unexpected error: {error}");
}

#[test]
fn invalid_root_fen_is_reported() {
    let output = reconstruct("nonsense", &[], &ReconstructConfig::default());
    assert!(output.tree.is_none());
    assert!(output.error.unwrap().starts_with("invalid root FEN: "));
}

#[test]
fn tree_signature_equal_trees_and_differences() {
    let build = |child_outcome: Outcome, leaf_outcome: Outcome, leaf_depth: u32, with_leaf: bool| {
        let mut t = ProofTree::new("fen".into(), 1, Some(Outcome::Win), 2);
        let child = t.add_node(0, Move::none(), 2, Some(child_outcome), 1, 0);
        if with_leaf {
            t.add_node(child, Move::none(), 3, Some(leaf_outcome), leaf_depth, 0);
        }
        t
    };
    let a = build(Outcome::Loss, Outcome::Win, 0, true);
    let b = build(Outcome::Loss, Outcome::Win, 0, true);
    let (sig_a, sig_b) = (tree_signature(&a), tree_signature(&b));
    assert_eq!(sig_a, sig_b);
    assert_eq!(sig_a.len(), 3, "root, child, grandchild");
    assert_ne!(sig_a, tree_signature(&build(Outcome::Loss, Outcome::Win, 1, true)));
    assert_ne!(sig_a, tree_signature(&build(Outcome::Win, Outcome::Loss, 0, true)));
    assert_ne!(sig_a, tree_signature(&build(Outcome::Loss, Outcome::Win, 0, false)));
}

#[test]
fn duplicate_snapshot_keys_first_wins() {
    let key = 0x1234;
    let first = record(key, Outcome::Win, 3, Move::none());
    let second = record(key, Outcome::Loss, 9, Move::none());
    let (map, duplicates) = build_solved_map(&[first, second]);
    assert_eq!(duplicates, 1);
    assert_eq!(map.get(&key), Some(&first), "first-wins");
    assert_eq!(map.len(), 1);
}

#[test]
fn reconstruct_matches_live_tree_structure() {
    let fen = MATE3_FEN;
    let mut pos = Position::from_fen(fen).unwrap();
    let mut search = Search::new(16);
    search.set_first_outcome_only(true);
    search.set_timeout(30);
    let (outcome, _pv, _nodes) = search.solve(&mut pos);
    assert_eq!(outcome, Outcome::Win);

    let (buf, _) = write_tt_snapshot(search.tt(), fen, 16);
    let (_header, solved, _unsolved) = read_tt_snapshot(&buf).unwrap();

    let output = reconstruct(fen, &solved, &ReconstructConfig::default());
    assert!(output.error.is_none(), "reconstruction failed: {:?}", output.error);
    assert_eq!(output.root_outcome, Some(Outcome::Win));
    assert!(output.stats.hit > 0);
    assert!(output.fill_evals < search.child_evaluations());

    let tree = output.tree.unwrap();
    assert!(tree.nodes.len() > 1);
    assert_eq!(tree.nodes[0].outcome, Some(Outcome::Win));
    assert_eq!(move_to_bits(tree.nodes[0].mv), move_to_bits(Move::none()));
}
