use std::sync::atomic::{AtomicBool, Ordering};
use std::sync::Arc;

use atomic_solver::moves::Move;
use atomic_solver::position::Outcome;
use atomic_solver::proof_event::{NodeProven, ProofEvent};
use atomic_solver::proof_tree::node::ProofTree;
use atomic_solver::proof_tree::worker::{FinalizeError, ProofTreeWorker};

const BUDGET: usize = 256 * 1024 * 1024;

fn sq(name: &str) -> u16 {
    let b = name.as_bytes();
    ((b[0] - b'a') as u16) + 8 * ((b[1] - b'1') as u16)
}

fn mv(from: &str, to: &str) -> Move {
    Move::make_move(sq(from), sq(to))
}

fn proven(path: Vec<Move>, hash: u64, outcome: Outcome, depth: u32) -> ProofEvent {
    ProofEvent::NodeProven(NodeProven::new(path, hash, outcome, depth))
}

fn worker() -> ProofTreeWorker {
    ProofTreeWorker::new("fen".to_string(), BUDGET, Arc::new(AtomicBool::new(false)))
}

fn child_by_move(tree: &ProofTree, parent: usize, m: Move) -> Option<usize> {
    tree.children(parent).into_iter().find(|&c| tree.nodes[c].mv == m)
}

#[test]
fn worker_handles_out_of_order_events() {
    let mut w = worker();
    w.handle_event(proven(vec![mv("e2", "e4"), mv("e7", "e5")], 0, Outcome::Win, 0));
    w.handle_event(proven(vec![mv("e2", "e4")], 0, Outcome::Loss, 1));
    w.handle_event(proven(vec![], 0, Outcome::Win, 2));

    let stats = w.stats();
    assert_eq!(stats.nodes, 3);
    assert_eq!(stats.win_nodes, 2);
    assert_eq!(stats.loss_nodes, 1);
    assert_eq!(stats.root_depth, 2);

    let tree = w.tree();
    assert_eq!(tree.nodes.len(), 3);
    assert_eq!(tree.children(0), vec![1]);
    assert_eq!(tree.children(1), vec![2]);
}

#[test]
fn worker_handles_out_of_order_events_directly() {
    let mut w = worker();
    w.handle_event(proven(vec![mv("e2", "e4"), mv("e7", "e5")], 0, Outcome::Win, 0));
    w.handle_event(proven(vec![mv("e2", "e4")], 0, Outcome::Loss, 1));
    w.handle_event(proven(vec![], 0, Outcome::Win, 2));
    let stats = w.stats();
    assert_eq!(stats.nodes, 3);
    assert_eq!(stats.win_nodes, 2);
    assert_eq!(stats.loss_nodes, 1);
    assert_eq!(stats.root_depth, 2);
}

#[test]
fn worker_replaces_win_child_with_shortest_loss() {
    let mut w = worker();
    w.handle_event(proven(vec![], 0, Outcome::Win, 5));
    w.handle_event(proven(vec![mv("e2", "e4")], 0, Outcome::Loss, 4));
    w.handle_event(proven(vec![mv("d2", "d4")], 0, Outcome::Loss, 2));
    w.handle_event(proven(vec![mv("d2", "d4")], 0, Outcome::Loss, 6));

    let tree = w.tree();
    let kids = tree.children(0);
    assert_eq!(kids.len(), 1);
    assert_eq!(tree.nodes[kids[0]].mv, mv("d2", "d4"));
    assert_eq!(tree.nodes[kids[0]].depth, 2);
}

#[test]
fn worker_loss_parent_keeps_all_distinct_win_children() {
    let mut w = worker();
    w.handle_event(proven(vec![], 0, Outcome::Loss, 5));
    w.handle_event(proven(vec![mv("e2", "e4")], 0, Outcome::Win, 4));
    w.handle_event(proven(vec![mv("d2", "d4")], 0, Outcome::Win, 2));
    assert_eq!(w.tree().children(0).len(), 2);
}

#[test]
fn worker_loss_parent_removes_loss_children() {
    let mut w = worker();
    w.handle_event(proven(vec![], 0, Outcome::Loss, 3));
    w.handle_event(proven(vec![mv("e2", "e4")], 0, Outcome::Loss, 2));
    w.handle_event(proven(vec![mv("d2", "d4")], 0, Outcome::Win, 1));

    let tree = w.tree();
    let kids = tree.children(0);
    assert_eq!(kids.len(), 1);
    assert_eq!(tree.nodes[kids[0]].mv, mv("d2", "d4"));
    assert_eq!(tree.nodes[kids[0]].outcome, Some(Outcome::Win));
}

#[test]
fn worker_updates_existing_child_with_shorter_depth() {
    let mut w = worker();
    w.handle_event(proven(vec![], 0, Outcome::Loss, 5));
    w.handle_event(proven(vec![mv("e2", "e4")], 0, Outcome::Win, 4));
    w.handle_event(proven(vec![mv("d2", "d4")], 0, Outcome::Win, 2));
    assert_eq!(w.tree().children(0).len(), 2);

    w.handle_event(proven(vec![mv("e2", "e4")], 0, Outcome::Win, 1));
    let tree = w.tree();
    assert_eq!(tree.children(0).len(), 2);
    let e2e4_id = child_by_move(tree, 0, mv("e2", "e4")).expect("e2e4 child exists");
    assert_eq!(tree.nodes[e2e4_id].depth, 1);
}

#[test]
fn worker_new_does_not_spawn_thread() {
    let w = ProofTreeWorker::new("fen".to_string(), usize::MAX, Arc::new(AtomicBool::new(false)));
    assert_eq!(w.stats().nodes, 1);
}

#[test]
fn worker_clears_tree_directly() {
    let mut w = ProofTreeWorker::new("fen".to_string(), usize::MAX, Arc::new(AtomicBool::new(false)));
    w.handle_event(proven(vec![], 0, Outcome::Win, 2));
    w.handle_event(proven(vec![mv("e2", "e4")], 0, Outcome::Loss, 1));
    w.handle_event(ProofEvent::Clear);
    let stats = w.stats();
    assert_eq!(stats.nodes, 1);
    assert_eq!(stats.win_nodes, 0);
    assert_eq!(stats.loss_nodes, 0);
}

#[test]
fn memory_limited_flag_triggers_at_small_budget_directly() {
    let flag = Arc::new(AtomicBool::new(false));
    let mut w = ProofTreeWorker::new("fen".to_string(), 0, Arc::clone(&flag));
    w.handle_event(proven(vec![], 0, Outcome::Win, 0));
    assert!(flag.load(Ordering::Acquire), "zero budget should set memory flag");
}

#[test]
fn events_are_ignored_once_memory_is_limited() {
    let flag = Arc::new(AtomicBool::new(true));
    let mut w = ProofTreeWorker::new("fen".to_string(), BUDGET, Arc::clone(&flag));
    w.handle_event(proven(vec![mv("e2", "e4")], 0, Outcome::Win, 0));
    assert_eq!(w.stats().nodes, 1);
}

#[test]
fn finalize_copies_expanded_twin_to_unexpanded_sibling() {
    let mut w = worker();
    w.handle_event(proven(vec![], 0, Outcome::Loss, 1));
    w.handle_event(proven(vec![mv("e2", "e4")], 10, Outcome::Win, 1));
    w.handle_event(proven(vec![mv("e2", "e4"), mv("e7", "e5")], 20, Outcome::Loss, 0));
    w.handle_event(proven(vec![mv("d2", "d4")], 10, Outcome::Win, 1));

    assert!(w.finalize_tree().is_ok());
    let tree = w.tree();
    let kids = tree.children(0);
    assert_eq!(kids.len(), 2);
    for c in kids {
        let grand = tree.children(c);
        assert_eq!(grand.len(), 1);
        let leaf = grand[0];
        assert_eq!(tree.nodes[leaf].outcome, Some(Outcome::Loss));
        assert_eq!(tree.nodes[leaf].depth, 0);
    }
}

#[test]
fn finalize_prefers_shorter_consistent_twin() {
    let mut w = worker();
    w.handle_event(proven(vec![], 0, Outcome::Loss, 5));
    w.handle_event(proven(vec![mv("e2", "e4")], 10, Outcome::Win, 4));
    w.handle_event(proven(vec![mv("e2", "e4"), mv("e7", "e5")], 20, Outcome::Loss, 0));
    w.handle_event(proven(vec![mv("d2", "d4")], 10, Outcome::Win, 1));
    w.handle_event(proven(vec![mv("d2", "d4"), mv("e7", "e5")], 20, Outcome::Loss, 0));

    assert!(w.finalize_tree().is_ok());
    let tree = w.tree();
    let kids = tree.children(0);
    assert_eq!(kids.len(), 2);
    for c in kids {
        assert_eq!(tree.children(c).len(), 1);
        assert_eq!(tree.nodes[c].depth, 1);
    }
    assert_eq!(tree.nodes[0].depth, 2);
}

#[test]
fn finalize_prunes_dummy_subtree() {
    let e2e4 = mv("e2", "e4");
    let e7e5 = mv("e7", "e5");
    let d2d4 = mv("d2", "d4");
    let d7d5 = mv("d7", "d5");
    let mut w = worker();
    w.handle_event(proven(vec![], 100, Outcome::Win, 2));
    w.handle_event(proven(vec![e2e4], 200, Outcome::Loss, 1));
    w.handle_event(proven(vec![e2e4, e7e5], 300, Outcome::Win, 0));
    w.handle_event(proven(vec![d2d4, d7d5], 400, Outcome::Win, 0));

    assert!(w.finalize_tree().is_ok());
    let tree = w.tree();
    assert_eq!(tree.nodes.len(), 3);
    assert_eq!(tree.children(0).len(), 1);
    let e2e4_id = child_by_move(tree, 0, e2e4).expect("e2e4 child");
    assert_eq!(tree.children(e2e4_id).len(), 1);
    assert!(child_by_move(tree, 0, d2d4).is_none());
    assert!(!tree.nodes.iter().any(|n| n.mv == d7d5));
}

#[test]
fn finalize_refuses_a_root_that_was_never_proven() {
    let mut w = worker();
    w.handle_event(proven(vec![mv("e2", "e4")], 0, Outcome::Loss, 0));
    let before = w.stats().nodes;
    assert_eq!(w.finalize_tree(), Err(FinalizeError::RootNeverRealized));
    assert_eq!(w.stats().nodes, before);
}

#[test]
fn estimate_memory_grows_with_the_tree() {
    let mut w = worker();
    let empty = w.estimate_memory();
    w.handle_event(proven(vec![], 0, Outcome::Win, 1));
    w.handle_event(proven(vec![mv("e2", "e4")], 0, Outcome::Loss, 0));
    assert!(w.estimate_memory() > empty);
}
