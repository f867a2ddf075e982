use std::sync::atomic::AtomicBool;
use std::sync::Arc;

use atomic_solver::moves::Move;
use atomic_solver::notation::{move_to_uci, uci_to_move};
use atomic_solver::position::{Outcome, Position};
use atomic_solver::proof_tree::node::ProofTree;
use atomic_solver::proof_tree::validate::{validate_proof_tree, DefectKind, TreeDefect};
use atomic_solver::proof_tree::worker::ProofTreeWorker;
use atomic_solver::search::dfpn::Search;

const MATE_FEN: &str = "4k3/8/8/8/8/8/8/4KRR1 w - - 0 1";

fn sq(name: &str) -> u16 {
    let b = name.as_bytes();
    ((b[0] - b'a') as u16) + 8 * ((b[1] - b'1') as u16)
}

fn mv(from: &str, to: &str) -> Move {
    Move::make_move(sq(from), sq(to))
}

fn finalized_two_rook_tree() -> ProofTree {
    let memory_limited = Arc::new(AtomicBool::new(false));
    let (tx, rx) = std::sync::mpsc::channel();
    let mut pos = Position::from_fen(MATE_FEN).unwrap();
    let mut search = Search::new(64);
    search.set_timeout(60);
    search.set_first_outcome_only(true);
    search.set_memory_limited(Some(Arc::clone(&memory_limited)));
    search.set_proof_event_sender(Some(tx));
    let (outcome, _pv, _nodes) = search.solve(&mut pos);
    assert_eq!(outcome, Outcome::Win, "the two-rook fixture must solve");
    drop(search);
    let mut worker = ProofTreeWorker::new(MATE_FEN.to_string(), 256 * 1024 * 1024, memory_limited);
    for event in rx.try_iter() {
        worker.handle_event(event);
    }
    assert!(worker.finalize_tree().is_ok());
    worker.tree().clone()
}

fn child_by_move(tree: &ProofTree, parent: usize, m: Move) -> Option<usize> {
    tree.children(parent).into_iter().find(|&c| tree.nodes[c].mv == m)
}

fn defects_of(tree: &ProofTree) -> Vec<TreeDefect> {
    match validate_proof_tree(tree) {
        Ok(()) => panic!("expected defects"),
        Err(d) => d,
    }
}

fn assert_clean(tree: &ProofTree) {
    if let Err(defects) = validate_proof_tree(tree) {
        let lines: Vec<String> = defects.iter().map(|d| d.to_text()).collect();
        panic!("unexpected defects: {lines:?}");
    }
}

#[test]
fn valid_mate_in_1_tree_passes() {
    let root_fen = "k7/8/1Q6/8/8/8/8/7K w - - 0 1";
    let pos = Position::from_fen(root_fen).unwrap();
    let mate = uci_to_move("b6b7", &pos).expect("b6b7 must be legal");
    let mut after = pos.clone();
    after.do_move(mate);
    assert_eq!(after.outcome(), Some(Outcome::Loss), "b6b7 must be mate");

    let mut tree = ProofTree::new(root_fen.to_string(), pos.hash(), Some(Outcome::Win), 1);
    tree.add_node(0, mate, after.hash(), Some(Outcome::Loss), 0, 0);
    assert_clean(&tree);
}

#[test]
fn solved_two_rook_proof_passes() {
    let tree = finalized_two_rook_tree();
    assert_clean(&tree);
}

#[test]
fn loaded_from_bin_tree_passes_without_hash_defects() {
    let tree = finalized_two_rook_tree();
    let bytes = tree.to_bin().expect("dump must serialize");
    let loaded = ProofTree::from_bin(&bytes).expect("dump must parse");
    assert!(loaded.nodes.iter().all(|n| n.hash == 0));
    assert_clean(&loaded);
}

#[test]
fn loss_incomplete_reports_missing_reply_and_path() {
    let mut tree = finalized_two_rook_tree();
    let loss_id = child_by_move(&tree, 0, mv("f1", "f7")).expect("root must have the f1f7 Loss child");
    let loss_path = vec![mv("f1", "f7")];
    tree.nodes[loss_id].first_child = None;

    let defects = defects_of(&tree);
    let incomplete: Vec<&TreeDefect> = defects.iter().filter(|d| d.kind == DefectKind::LossIncomplete).collect();
    assert!(!incomplete.is_empty(), "expected a LossIncomplete defect, got: {defects:?}");
    assert!(incomplete.iter().all(|d| d.path == loss_path));
    assert!(
        incomplete.iter().any(|d| d.detail.contains(&move_to_uci(mv("e8", "d8")))),
        "the missing reply e8d8 must be named, got: {incomplete:?}"
    );
}

#[test]
fn win_not_single_detected() {
    let mut tree = finalized_two_rook_tree();
    tree.nodes[0].first_child = None;
    let defects = defects_of(&tree);
    assert!(
        defects.iter().any(|d| d.kind == DefectKind::WinNotSingle && d.path.is_empty()),
        "expected WinNotSingle at the root, got: {defects:?}"
    );
}

#[test]
fn child_not_loss_detected() {
    let mut tree = finalized_two_rook_tree();
    let loss_id = child_by_move(&tree, 0, mv("f1", "f7")).expect("root must have the f1f7 Loss child");
    tree.nodes[loss_id].outcome = Some(Outcome::Win);
    let defects = defects_of(&tree);
    assert!(defects.iter().any(|d| d.kind == DefectKind::ChildNotLoss), "expected ChildNotLoss, got: {defects:?}");
}

#[test]
fn terminal_mismatch_detected() {
    let mut tree = finalized_two_rook_tree();
    let loss_id = child_by_move(&tree, 0, mv("f1", "f7")).unwrap();
    let win_id = child_by_move(&tree, loss_id, mv("e8", "d8")).unwrap();
    let leaf_id = child_by_move(&tree, win_id, mv("g1", "g8")).unwrap();
    assert_eq!(tree.nodes[leaf_id].depth, 0);
    tree.nodes[leaf_id].outcome = Some(Outcome::Win);

    let defects = defects_of(&tree);
    assert!(
        defects.iter().any(|d| d.kind == DefectKind::TerminalMismatch
            && d.path == vec![mv("f1", "f7"), mv("e8", "d8"), mv("g1", "g8")]),
        "expected TerminalMismatch at the mate leaf, got: {defects:?}"
    );
}

#[test]
fn depth_inconsistent_detected() {
    let mut tree = finalized_two_rook_tree();
    tree.nodes[0].depth = 99;
    let defects = defects_of(&tree);
    assert!(
        defects.iter().any(|d| d.kind == DefectKind::DepthInconsistent && d.path.is_empty()),
        "expected DepthInconsistent at the root, got: {defects:?}"
    );
}

#[test]
fn hash_mismatch_detected() {
    let mut tree = finalized_two_rook_tree();
    tree.nodes[0].hash = 42;
    let defects = defects_of(&tree);
    assert!(
        defects.iter().any(|d| d.kind == DefectKind::HashMismatch && d.path.is_empty()),
        "expected HashMismatch at the root, got: {defects:?}"
    );
}

#[test]
fn draw_nodes_are_not_decisive() {
    let mut tree = finalized_two_rook_tree();
    tree.nodes[0].outcome = Some(Outcome::Draw);
    let defects = defects_of(&tree);
    assert!(
        defects.iter().any(|d| d.kind == DefectKind::NotDecisive && d.path.is_empty()),
        "expected NotDecisive at the root, got: {defects:?}"
    );

    let mut tree = finalized_two_rook_tree();
    let loss_id = child_by_move(&tree, 0, mv("f1", "f7")).unwrap();
    tree.nodes[loss_id].outcome = Some(Outcome::Draw);
    let defects = defects_of(&tree);
    assert!(
        defects.iter().any(|d| d.kind == DefectKind::NotDecisive && d.path == vec![mv("f1", "f7")]),
        "expected NotDecisive at root.f1f7, got: {defects:?}"
    );
}

#[test]
fn unparseable_root_fen_is_not_decisive() {
    let tree = ProofTree::new("fen".to_string(), 0, Some(Outcome::Win), 0);
    let defects = defects_of(&tree);
    assert_eq!(defects.len(), 1);
    assert_eq!(defects[0].kind, DefectKind::NotDecisive);
    assert!(defects[0].path.is_empty());
}

#[test]
fn defect_text_names_path_and_kind() {
    let d = TreeDefect { path: vec![mv("f1", "f7")], kind: DefectKind::ChildNotLoss, detail: "x".to_string() };
    assert_eq!(d.to_text(), "path=root.f1f7 kind=child_not_loss: x");
}

#[test]
fn solve_populates_proof_tree_with_nodes() {
    let mut pos = Position::from_fen("4k3/8/8/8/8/8/8/4R1K1 w - - 0 1").unwrap();
    let (tx, rx) = std::sync::mpsc::channel();
    let mut search = Search::new(64);
    search.set_timeout(5);
    search.set_proof_event_sender(Some(tx));
    let (outcome, pv, _nodes) = search.solve(&mut pos);
    drop(search);

    let mut worker = ProofTreeWorker::new(pos.fen(), 64 * 1024 * 1024, Arc::new(AtomicBool::new(false)));
    for event in rx.try_iter() {
        worker.handle_event(event);
    }
    assert!(worker.finalize_tree().is_ok());
    let stats = worker.stats();
    let tree = worker.tree();
    assert_eq!(outcome, Outcome::Win);
    assert!(stats.nodes > 0, "proof tree should contain at least the root node and proven children");
    assert!(tree.validate_ppv(&pv), "proof tree should validate the PV");
}
