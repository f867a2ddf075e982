use atomic_solver::moves::{Move, PieceType};
use atomic_solver::nn::features::{feature_index, feature_sets, policy_index, INPUT_DIM, POLICY_SIZE};
use atomic_solver::nn::weights::{check_weights_image, WeightsError, HEADER_SIZE, MAGIC, TOTAL_SIZE, VERSION};
use atomic_solver::position::Position;

const STARTPOS_FEN: &str = "rnbqkbnr/pppppppp/8/8/8/8/PPPPPPPP/RNBQKBNR w KQkq - 0 1";

fn sets_for(fen: &str) -> (Vec<usize>, Vec<usize>) {
    let pos = Position::from_fen(fen).expect("test FEN must parse");
    let sets = feature_sets(pos.board());
    (
        sets.stm_features().iter().map(|&f| f as usize).collect(),
        sets.other_features().iter().map(|&f| f as usize).collect(),
    )
}

fn assert_sorted_unique(mut xs: Vec<usize>) -> Vec<usize> {
    xs.sort_unstable();
    xs.dedup();
    xs
}

// ---------- feature indices ----------

#[test]
fn lone_white_king_a1() {
    let (stm, other) = sets_for("8/8/8/8/8/8/8/K7 w - - 0 1");
    assert_eq!(stm, vec![320]);
    assert_eq!(other, vec![711]);
}

#[test]
fn spec_fen_all_views() {
    let (stm, other) = sets_for("4k3/8/8/8/8/8/8/4R1K1 w - - 0 1");
    assert_eq!(assert_sorted_unique(stm), vec![196, 326, 764]);
    assert_eq!(assert_sorted_unique(other), vec![379, 579, 705]);
}

#[test]
fn other_view_transform_color_and_file() {
    let (stm, other) = sets_for("8/8/8/8/8/8/4P3/8 w - - 0 1");
    assert_eq!(stm, vec![12]);
    assert_eq!(other, vec![395]);
}

#[test]
fn black_king_other_side_view() {
    let (stm, other) = sets_for("7k/8/8/8/8/8/8/8 w - - 0 1");
    assert_eq!(stm, vec![767]);
    assert_eq!(other, vec![376]);
}

#[test]
fn black_rook_a1_views() {
    let (stm, other) = sets_for("8/8/8/8/8/8/8/r7 w - - 0 1");
    assert_eq!(stm, vec![576]);
    assert_eq!(other, vec![199]);
}

#[test]
fn black_stm_own_side_view_not_mirrored() {
    let (stm, other) = sets_for("7k/8/8/8/8/8/8/8 b - - 0 1");
    assert_eq!(stm, vec![383]);
    assert_eq!(other, vec![760]);
}

#[test]
fn startpos_feature_counts_and_bounds() {
    let (stm, other) = sets_for(STARTPOS_FEN);
    assert_eq!(stm.len(), 32);
    assert_eq!(other.len(), 32);
    assert_eq!(assert_sorted_unique(stm.clone()).len(), 32);
    assert!(stm.iter().chain(&other).all(|&f| f < INPUT_DIM));
    // The start position is rank-asymmetric, so the two views differ.
    assert_ne!(assert_sorted_unique(stm), assert_sorted_unique(other));
}

#[test]
fn policy_index_layout() {
    let sq = |f: u16, r: u16| f + 8 * r;
    assert_eq!(policy_index(Move::make_move(sq(0, 0), sq(0, 1))), 8);
    assert_eq!(policy_index(Move::make_move(sq(4, 1), sq(4, 3))), 12 * 64 + 28);
    assert_eq!(policy_index(Move::make_move(sq(7, 7), sq(7, 0))), 63 * 64 + 7);
    // Promotion variants collapse onto one (from, to) index.
    let from = sq(0, 6);
    let to = sq(0, 7);
    let base = policy_index(Move::make_move(from, to));
    for pt in [PieceType::Queen, PieceType::Rook, PieceType::Bishop, PieceType::Knight] {
        assert_eq!(policy_index(Move::make_promotion(from, to, pt)), base);
    }
    assert!(base < POLICY_SIZE);
}

#[test]
fn feature_index_worked_values() {
    // Own commoner on a1; other-side rook on a1; own pawn on e2.
    assert_eq!(feature_index(0, PieceType::Commoner, 0, 0), 320);
    assert_eq!(feature_index(1, PieceType::Rook, 0, 0), 576);
    assert_eq!(feature_index(0, PieceType::Pawn, 4, 1), 12);
    assert_eq!(feature_index(1, PieceType::Commoner, 7, 7), 767);
}

// ---------- weight-file header ----------

/// A well-formed image: the header followed by zero tensors.
fn valid_image() -> Vec<u8> {
    let mut bytes = vec![0u8; TOTAL_SIZE];
    bytes[0..4].copy_from_slice(&MAGIC.to_le_bytes());
    bytes[4..6].copy_from_slice(&VERSION.to_le_bytes());
    bytes[6..8].copy_from_slice(&768u16.to_le_bytes());
    bytes[8..10].copy_from_slice(&128u16.to_le_bytes());
    bytes[10..12].copy_from_slice(&32u16.to_le_bytes());
    bytes[12..14].copy_from_slice(&4096u16.to_le_bytes());
    bytes
}

fn mutated(off: usize, value: u8) -> Vec<u8> {
    let mut bytes = valid_image();
    bytes[off] = value;
    bytes
}

#[test]
fn total_size_matches_spec() {
    assert_eq!(TOTAL_SIZE, 967_312);
    assert_eq!(HEADER_SIZE, 16);
    let bytes = valid_image();
    assert_eq!(bytes.len(), TOTAL_SIZE);
    assert_eq!(bytes[0..4], MAGIC.to_le_bytes(), "the image starts with the ATNN magic");
    assert!(check_weights_image(&bytes).is_ok());
}

#[test]
fn bad_magic_rejected() {
    let err = check_weights_image(&mutated(0, 0x58)).unwrap_err();
    assert!(matches!(err, WeightsError::BadMagic { .. }), "{err:?}");
}

#[test]
fn bad_version_rejected() {
    let err = check_weights_image(&mutated(4, 7)).unwrap_err();
    assert!(matches!(err, WeightsError::BadVersion { got: 7 }), "{err:?}");
}

#[test]
fn bad_dimensions_rejected() {
    for (off, field) in [(6, "input"), (8, "accumulator"), (10, "hidden"), (12, "policy")] {
        let err = check_weights_image(&mutated(off, 0x01)).unwrap_err();
        assert!(matches!(err, WeightsError::BadDimension { field: f, .. } if f == field), "{field}: {err:?}");
    }
}

#[test]
fn bad_flags_rejected() {
    let err = check_weights_image(&mutated(14, 1)).unwrap_err();
    assert!(matches!(err, WeightsError::BadFlags { got: 1 }), "{err:?}");
}

#[test]
fn truncated_file_rejected() {
    let bytes = valid_image();
    let err = check_weights_image(&bytes[..bytes.len() - 4]).unwrap_err();
    assert!(matches!(err, WeightsError::SizeMismatch { expected: 967_312, .. }), "{err:?}");
}

#[test]
fn short_header_rejected() {
    let err = check_weights_image(&[0u8; 8]).unwrap_err();
    assert!(matches!(err, WeightsError::TooShortForHeader(8)), "{err:?}");
}
