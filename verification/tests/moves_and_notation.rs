use atomic_solver::moves::{Move, PieceType};
use atomic_solver::notation::{bits_to_move, move_to_bits, move_to_uci, moves_to_uci_path, uci_to_move};
use atomic_solver::position::Position;

const STARTPOS_FEN: &str = "rnbqkbnr/pppppppp/8/8/8/8/PPPPPPPP/RNBQKBNR w KQkq - 0 1";

fn sq(name: &str) -> u16 {
    let b = name.as_bytes();
    ((b[0] - b'a') as u16) + 8 * ((b[1] - b'1') as u16)
}

#[test]
fn normal_move_round_trips() {
    let pos = Position::from_fen(STARTPOS_FEN).unwrap();
    let mut moves = Vec::new();
    pos.legal_moves(&mut moves);
    assert!(!moves.is_empty());
    for &m in &moves {
        let uci = move_to_uci(m);
        assert_eq!(uci_to_move(&uci, &pos), Some(m), "{uci} should round-trip");
    }
}

#[test]
fn promotion_round_trips() {
    let pos = Position::from_fen("4k3/1P6/8/8/8/8/8/4K3 w - - 0 1").unwrap();
    let mut moves = Vec::new();
    pos.legal_moves(&mut moves);
    assert!(moves.iter().any(|m| m.is_promotion()), "expected promotion moves");
    for m in moves.iter().filter(|m| m.is_promotion()) {
        let uci = move_to_uci(*m);
        assert_eq!(uci_to_move(&uci, &pos), Some(*m));
    }
}

#[test]
fn castling_round_trips() {
    let pos = Position::from_fen("rnbqkbnr/pppppppp/8/8/8/8/PPPPPPPP/R3K2R w KQkq - 0 1").unwrap();
    let mut moves = Vec::new();
    pos.legal_moves(&mut moves);
    let castles: Vec<Move> = moves.iter().filter(|m| m.is_castling()).copied().collect();
    assert_eq!(castles.len(), 2, "expected both king-side and queen-side castles");
    for m in castles {
        let uci = move_to_uci(m);
        assert_eq!(uci_to_move(&uci, &pos), Some(m));
    }
}

#[test]
fn en_passant_round_trips() {
    let pos = Position::from_fen("rnbqkbnr/pppppppp/8/8/4pP2/8/PPPP1PPP/RNBQKBNR b KQkq f3 0 2").unwrap();
    let mut moves = Vec::new();
    pos.legal_moves(&mut moves);
    let ep = moves.iter().find(|m| m.is_en_passant());
    assert!(ep.is_some(), "expected en-passant capture");
    let m = *ep.unwrap();
    let uci = move_to_uci(m);
    assert_eq!(uci_to_move(&uci, &pos), Some(m));
}

#[test]
fn malformed_uci_returns_none() {
    let pos = Position::new();
    assert!(uci_to_move("gibberish", &pos).is_none());
    assert!(uci_to_move("e2", &pos).is_none());
    assert!(uci_to_move("e2e9", &pos).is_none());
}

#[test]
fn illegal_uci_returns_none() {
    let pos = Position::new();
    assert!(uci_to_move("e2e5", &pos).is_none());
}

#[test]
fn uci_text_of_special_moves() {
    assert_eq!(move_to_uci(Move::make_move(sq("e2"), sq("e4"))), "e2e4");
    assert_eq!(move_to_uci(Move::make_promotion(sq("e7"), sq("e8"), PieceType::Knight)), "e7e8n");
    assert_eq!(move_to_uci(Move::make_castling(sq("e1"), sq("h1"))), "e1g1");
    assert_eq!(move_to_uci(Move::make_castling(sq("e1"), sq("a1"))), "e1c1");
    assert_eq!(move_to_uci(Move::none()), "0000");
}

#[test]
fn uci_path_joins_moves_after_root() {
    let line = [Move::make_move(sq("f1"), sq("f7")), Move::make_move(sq("e8"), sq("d8"))];
    assert_eq!(moves_to_uci_path(&line), "root.f1f7.e8d8");
    assert_eq!(moves_to_uci_path(&[]), "root");
}

#[test]
fn move_to_bits_round_trips_normal() {
    let m = Move::make_move(sq("e2"), sq("e4"));
    assert_eq!(bits_to_move(move_to_bits(m)), Some(m));
}

#[test]
fn move_to_bits_round_trips_promotions() {
    for pt in [PieceType::Queen, PieceType::Rook, PieceType::Bishop, PieceType::Knight] {
        let m = Move::make_promotion(sq("e7"), sq("e8"), pt);
        assert_eq!(bits_to_move(move_to_bits(m)), Some(m), "promotion to {pt:?}");
    }
}

#[test]
fn move_to_bits_round_trips_en_passant() {
    let m = Move::make_enpassant(sq("c5"), sq("d6"));
    assert_eq!(bits_to_move(move_to_bits(m)), Some(m));
}

#[test]
fn move_to_bits_round_trips_castling() {
    let m = Move::make_castling(sq("e1"), sq("h1"));
    assert_eq!(bits_to_move(move_to_bits(m)), Some(m));
}

#[test]
fn move_to_bits_none_is_zero() {
    assert_eq!(move_to_bits(Move::none()), 0);
    assert_eq!(bits_to_move(0), Some(Move::none()));
}

#[test]
fn move_to_bits_matches_worked_example() {
    assert_eq!(move_to_bits(Move::make_move(sq("e2"), sq("e4"))), 796);
    assert_eq!(move_to_bits(Move::make_move(sq("e7"), sq("e5"))), 3364);
    assert_eq!(move_to_bits(Move::make_promotion(sq("e7"), sq("e8"), PieceType::Queen)), 7484);
}

#[test]
fn move_fields_read_back() {
    let m = Move::make_promotion(sq("b7"), sq("a8"), PieceType::Rook);
    assert_eq!(m.from_sq(), sq("b7"));
    assert_eq!(m.to_sq(), sq("a8"));
    assert!(m.is_promotion());
    assert_eq!(m.promotion_type(), PieceType::Rook);
    assert!(!Move::make_move(sq("a1"), sq("a2")).is_none());
    assert!(Move::none().is_none());
}
