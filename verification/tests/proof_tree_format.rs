use atomic_solver::moves::Move;
use atomic_solver::position::Outcome;
use atomic_solver::proof_tree::binary::{
    magic, outcome_from_u8, outcome_to_u8, read_proof_tree, write_proof_tree, ProofTreeFormatError,
};
use atomic_solver::proof_tree::node::ProofTree;

const STARTPOS_FEN: &str = "rnbqkbnr/pppppppp/8/8/8/8/PPPPPPPP/RNBQKBNR w KQkq - 0 1";

fn sq(name: &str) -> u16 {
    let b = name.as_bytes();
    ((b[0] - b'a') as u16) + 8 * ((b[1] - b'1') as u16)
}

fn mv(from: &str, to: &str) -> Move {
    Move::make_move(sq(from), sq(to))
}

#[test]
fn add_node_builds_path() {
    let mut tree = ProofTree::new("fen".to_string(), 0, Some(Outcome::Win), 2);
    let child = tree.add_node(0, mv("e2", "e4"), 0, Some(Outcome::Loss), 1, 0);
    let grandchild = tree.add_node(child, mv("e7", "e5"), 0, Some(Outcome::Win), 0, 0);
    assert_eq!(tree.children(0), vec![child]);
    assert_eq!(tree.children(child), vec![grandchild]);
    assert!(tree.is_terminal(grandchild));
    assert!(!tree.is_terminal(child));
}

#[test]
fn to_bin_round_trips_small_tree() {
    let mut tree = ProofTree::new(STARTPOS_FEN.to_string(), 0, Some(Outcome::Win), 2);
    tree.add_node(0, mv("e2", "e4"), 0, Some(Outcome::Loss), 1, 7);
    tree.add_node(1, mv("e7", "e5"), 0, Some(Outcome::Win), 0, 3);

    let buf = tree.to_bin().unwrap();
    let loaded = ProofTree::from_bin(&buf).unwrap();

    assert_eq!(loaded.nodes.len(), tree.nodes.len());
    assert_eq!(loaded.root_fen, tree.root_fen);
    for i in 0..loaded.nodes.len() {
        let a = &loaded.nodes[i];
        let b = &tree.nodes[i];
        assert_eq!(a.mv, b.mv);
        assert_eq!(a.outcome, b.outcome);
        assert_eq!(a.depth, b.depth);
        assert_eq!(a.work, b.work);
        assert_eq!(loaded.children(i), tree.children(i));
    }
}

#[test]
fn extract_ppv_returns_empty_for_drawn_root() {
    let tree = ProofTree::new("fen".to_string(), 0, Some(Outcome::Draw), 0);
    assert!(tree.extract_ppv().is_empty());
}

#[test]
fn extract_ppv_follows_the_only_line() {
    let mut tree = ProofTree::new("fen".to_string(), 0, Some(Outcome::Win), 2);
    let child = tree.add_node(0, mv("e2", "e4"), 0, Some(Outcome::Loss), 1, 0);
    tree.add_node(child, mv("e7", "e5"), 0, Some(Outcome::Win), 0, 0);
    let pv = tree.extract_ppv();
    assert_eq!(pv, vec![mv("e2", "e4"), mv("e7", "e5")]);
    assert!(tree.validate_ppv(&pv));
}

#[test]
fn validate_ppv_rejects_wrong_path() {
    let mut tree = ProofTree::new("fen".to_string(), 0, Some(Outcome::Win), 2);
    let child = tree.add_node(0, mv("e2", "e4"), 0, Some(Outcome::Loss), 1, 0);
    tree.add_node(child, mv("e7", "e5"), 0, Some(Outcome::Win), 0, 0);
    let wrong = vec![mv("d2", "d4")];
    assert!(!tree.validate_ppv(&wrong));
}

#[test]
fn validate_ppv_rejects_premature_termination() {
    let mut tree = ProofTree::new("fen".to_string(), 0, Some(Outcome::Win), 2);
    let _ = tree.add_node(0, mv("e2", "e4"), 0, Some(Outcome::Loss), 1, 0);
    assert!(!tree.validate_ppv(&[mv("e2", "e4")]));
}

fn version_one_dump() -> Vec<u8> {
    let mut buf = Vec::new();
    buf.extend(magic());
    buf.push(1);
    buf.extend(b"x\n");
    buf.push(1);
    buf.extend(2u32.to_le_bytes());
    buf.extend(u32::MAX.to_le_bytes());
    buf.extend(0u16.to_le_bytes());
    buf.extend(0u32.to_le_bytes());
    buf.extend(796u16.to_le_bytes());
    buf.extend(1u32.to_le_bytes());
    buf.extend(3364u16.to_le_bytes());
    buf
}

#[test]
fn reads_version_one_dump_with_zero_work() {
    let buf = version_one_dump();
    let tree = read_proof_tree(&buf).unwrap();
    assert_eq!(tree.nodes.len(), 3);
    assert!(tree.nodes.iter().all(|n| n.work == 0));
    assert_eq!(tree.nodes[0].outcome, Some(Outcome::Win));
    assert_eq!(tree.nodes[1].outcome, Some(Outcome::Loss));
    assert_eq!(tree.nodes[1].depth, 1);
    assert_eq!(tree.nodes[2].depth, 0);
    assert_eq!(tree.root_fen, "x");
    assert_eq!(tree.nodes[1].mv, mv("e2", "e4"));
}

#[test]
fn rejects_unknown_version() {
    let mut buf = Vec::new();
    buf.extend(magic());
    buf.push(3);
    let err = read_proof_tree(&buf).expect_err("version 3 should be rejected");
    assert!(err.to_text().contains("unsupported proof-tree version 3"));
    assert_eq!(err, ProofTreeFormatError::UnsupportedVersion(3));
}

#[test]
fn rejects_bad_magic_and_short_input() {
    assert_eq!(read_proof_tree(b"ATOMTRE").unwrap_err(), ProofTreeFormatError::UnexpectedEof);
    assert_eq!(read_proof_tree(b"ATOMTREX\x02").unwrap_err(), ProofTreeFormatError::BadMagic);
    assert_eq!(ProofTreeFormatError::BadMagic.to_text(), "bad magic: expected ATOMTREE");
}

#[test]
fn rejects_header_depth_that_disagrees_with_the_shape() {
    let mut buf = version_one_dump();
    // The root depth field follows magic, version, "x\n" and the outcome byte.
    let off = 8 + 1 + 2 + 1;
    buf[off..off + 4].copy_from_slice(&5u32.to_le_bytes());
    let err = read_proof_tree(&buf).unwrap_err();
    assert_eq!(err, ProofTreeFormatError::RootDepthMismatch(5, 2));
    assert_eq!(err.to_text(), "root depth mismatch: header 5 != derived 2");
}

#[test]
fn rejects_truncated_records() {
    let mut buf = version_one_dump();
    buf.pop();
    assert_eq!(read_proof_tree(&buf).unwrap_err(), ProofTreeFormatError::TruncatedRecords);
}

#[test]
fn writer_refuses_placeholders() {
    let tree = ProofTree::new("fen".to_string(), 0, None, 0);
    assert_eq!(write_proof_tree(&tree).unwrap_err(), ProofTreeFormatError::UnrealizedRoot);
    let mut tree = ProofTree::new("fen".to_string(), 0, Some(Outcome::Win), 1);
    tree.add_node(0, mv("e2", "e4"), 0, None, 0, 0);
    assert_eq!(write_proof_tree(&tree).unwrap_err(), ProofTreeFormatError::DummyNode);
}

#[test]
fn written_dump_layout() {
    let mut tree = ProofTree::new("f".to_string(), 0, Some(Outcome::Win), 1);
    tree.add_node(0, mv("e2", "e4"), 0, Some(Outcome::Loss), 0, 0x0102);
    let bytes = write_proof_tree(&tree).unwrap();
    let mut expected = Vec::new();
    expected.extend(b"ATOMTREE");
    expected.push(2);
    expected.extend(b"f\n");
    expected.push(1);
    expected.extend(1u32.to_le_bytes());
    expected.extend(u32::MAX.to_le_bytes());
    expected.extend(0u16.to_le_bytes());
    expected.extend(0u64.to_le_bytes());
    expected.extend(0u32.to_le_bytes());
    expected.extend(796u16.to_le_bytes());
    expected.extend(0x0102u64.to_le_bytes());
    assert_eq!(bytes, expected);
}

#[test]
fn outcome_codes() {
    assert_eq!(outcome_to_u8(Outcome::Draw), 0);
    assert_eq!(outcome_to_u8(Outcome::Win), 1);
    assert_eq!(outcome_to_u8(Outcome::Loss), 2);
    assert_eq!(outcome_from_u8(2), Some(Outcome::Loss));
    assert_eq!(outcome_from_u8(3), None);
}

#[test]
fn read_then_write_then_read_gives_the_same_tree() {
    let first = read_proof_tree(&version_one_dump()).unwrap();
    let bytes = write_proof_tree(&first).unwrap();
    let second = read_proof_tree(&bytes).unwrap();
    assert_eq!(second.root_fen, first.root_fen);
    assert_eq!(second.nodes.len(), first.nodes.len());
    for (a, b) in first.nodes.iter().zip(second.nodes.iter()) {
        assert_eq!(a.parent, b.parent);
        assert_eq!(a.first_child, b.first_child);
        assert_eq!(a.next_sibling, b.next_sibling);
        assert_eq!(a.mv, b.mv);
        assert_eq!(a.hash, b.hash);
        assert_eq!(a.outcome, b.outcome);
        assert_eq!(a.depth, b.depth);
        assert_eq!(a.work, b.work);
    }
    // Written again, the bytes are those of the version-2 dump just read.
    assert_eq!(write_proof_tree(&second).unwrap(), bytes);
}
