use atomic_solver::moves::Move;
use atomic_solver::position::{Outcome, Position};
use atomic_solver::zobrist::{generate_rule50_keys, hash_with_rule50, rule50_key};

fn sq(name: &str) -> u16 {
    let b = name.as_bytes();
    ((b[0] - b'a') as u16) + 8 * ((b[1] - b'1') as u16)
}

#[test]
fn outcome_prefers_own_commoner_extinction_over_rule50() {
    let pos = Position::from_fen("4k3/8/8/8/8/8/8/4P3 w - - 100 1").unwrap();
    assert_eq!(pos.outcome(), Some(Outcome::Loss));
}

#[test]
fn outcome_prefers_opponent_extinction_over_rule50() {
    let pos = Position::from_fen("4k3/8/8/8/8/8/8/8 b - - 100 1").unwrap();
    assert_eq!(pos.outcome(), Some(Outcome::Win));
}

#[test]
fn no_legal_moves_is_stalemate_draw() {
    let pos = Position::from_fen("7k/8/8/8/8/8/2q5/K7 w - - 0 1").unwrap();
    assert_eq!(pos.outcome(), Some(Outcome::Draw));
    let mut moves = Vec::new();
    pos.legal_moves(&mut moves);
    assert_eq!(moves.len(), 0);
}

#[test]
fn no_legal_moves_in_check_is_checkmate_loss() {
    let pos = Position::from_fen("7K/8/8/8/8/8/1Q6/k7 b - - 0 1").unwrap();
    assert_eq!(pos.outcome(), Some(Outcome::Loss));
}

#[test]
fn fifty_move_checkmate_is_loss_not_draw() {
    let pos = Position::from_fen("7K/8/8/8/8/8/1Q6/k7 b - - 100 1").unwrap();
    assert_eq!(pos.outcome(), Some(Outcome::Loss));
}

#[test]
fn two_piece_touching_commoners_is_draw() {
    let pos = Position::from_fen("8/8/8/8/8/8/1K6/k7 b - - 0 1").unwrap();
    assert_eq!(pos.outcome(), Some(Outcome::Draw));
}

#[test]
fn fifty_move_stalemate_is_draw() {
    let pos = Position::from_fen("7k/8/8/8/8/8/2q5/K7 w - - 100 1").unwrap();
    assert_eq!(pos.outcome(), Some(Outcome::Draw));
}

#[test]
fn position_with_legal_moves_is_not_terminal() {
    let pos = Position::from_fen("4k3/8/8/8/8/8/8/4R1K1 w - - 0 1").unwrap();
    assert_eq!(pos.outcome(), None);
}

#[test]
fn rule50_expiry_is_draw_when_moves_remain() {
    let pos = Position::from_fen("4k3/8/8/8/8/8/8/4R1K1 w - - 100 1").unwrap();
    assert_eq!(pos.outcome(), Some(Outcome::Draw));
}

#[test]
fn repetition_key_ignores_rule50() {
    let pos0 = Position::from_fen("4k3/8/8/8/8/8/8/4K3 w - - 0 1").unwrap();
    let pos1 = Position::from_fen("4k3/8/8/8/8/8/8/4K3 w - - 25 1").unwrap();
    assert_eq!(pos0.repetition_key(), pos1.repetition_key());
    assert_ne!(pos0.hash(), pos1.hash());
}

#[test]
fn hash_is_board_key_with_clock_key() {
    let pos = Position::from_fen("4k3/8/8/8/8/8/8/4K3 w - - 25 1").unwrap();
    assert_eq!(pos.rule50(), 25);
    assert_eq!(pos.hash(), pos.repetition_key() ^ rule50_key(25));
    assert_eq!(pos.hash(), hash_with_rule50(pos.repetition_key(), 25));
}

#[test]
fn try_do_move_accepts_legal_and_rejects_illegal() {
    let mut pos = Position::from_fen("rnbqkbnr/pppppppp/8/8/8/8/PPPPPPPP/RNBQKBNR w KQkq - 0 1").unwrap();
    let legal = Move::make_move(sq("e2"), sq("e4"));
    let illegal = Move::make_move(sq("e2"), sq("e5"));

    assert!(pos.try_do_move(legal), "e2e4 should be legal from the start position");
    assert_eq!(pos.undo_depth(), 1);

    assert!(!pos.try_do_move(illegal), "e2e5 should be illegal");
    assert_eq!(pos.undo_depth(), 1, "illegal move must not change state");
}

#[test]
fn undo_move_restores_keys() {
    let mut pos = Position::new();
    let before = (pos.hash(), pos.repetition_key(), pos.rule50());
    let m = Move::make_move(sq("g1"), sq("f3"));
    pos.do_move(m);
    assert_ne!(pos.hash(), before.0);
    pos.undo_move(m);
    assert_eq!((pos.hash(), pos.repetition_key(), pos.rule50()), before);
    assert_eq!(pos.undo_depth(), 0);
}

#[test]
fn clone_keeps_keys_and_drops_history() {
    let mut pos = Position::new();
    pos.do_move(Move::make_move(sq("e2"), sq("e4")));
    let copy = pos.clone();
    assert_eq!(copy.hash(), pos.hash());
    assert_eq!(copy.undo_depth(), 0);
    assert_eq!(copy.fen(), pos.fen());
}

#[test]
fn bad_fen_is_rejected() {
    assert!(Position::from_fen("not a fen").is_err());
}

#[test]
fn rule50_boundary_semantics_of_the_engine() {
    // Clock 100 on a non-terminal position is a draw; mate and extinction
    // outrank the rule50 draw.
    let quiet = Position::from_fen("8/2K5/k7/8/8/8/8/4Q3 w - - 100 1").unwrap();
    assert_eq!(quiet.outcome(), Some(Outcome::Draw), "clock 100 on a non-terminal position is a draw");
    let mated = Position::from_fen("7K/8/8/8/8/8/1Q6/k7 b - - 100 1").unwrap();
    assert_eq!(mated.outcome(), Some(Outcome::Loss), "checkmate outranks the rule50 draw");
    let extinct = Position::from_fen("8/8/8/8/8/8/8/4K3 w - - 100 1").unwrap();
    assert_eq!(extinct.outcome(), Some(Outcome::Win));
}

#[test]
fn fen_with_a_fullmove_number_past_the_game_ply_range_is_refused() {
    assert!(Position::from_fen("4k3/8/8/8/8/8/8/4K3 w - - 0 40000").is_err());
    assert!(Position::from_fen("4k3/8/8/8/8/8/8/4K3 b - - 0 32768").is_err());
    assert!(Position::from_fen("4k3/8/8/8/8/8/8/4K3 b - - 0 32767").is_ok());
}

#[test]
fn try_do_move_refuses_a_move_from_an_empty_square() {
    let mut pos = Position::new();
    let before = pos.hash();
    assert!(!pos.try_do_move(Move::make_move(sq("a3"), sq("a4"))));
    assert_eq!(pos.hash(), before);
    assert_eq!(pos.undo_depth(), 0);
}

#[test]
fn a_legal_move_taken_back_restores_the_board() {
    let mut pos = Position::new();
    let fen = pos.fen();
    let m = pos.legal_moves_vec()[0];
    pos.do_move(m);
    assert_ne!(pos.fen(), fen);
    pos.undo_move(m);
    assert_eq!(pos.fen(), fen);
}

#[test]
fn rule50_keys_are_pairwise_distinct() {
    let keys = generate_rule50_keys();
    assert_eq!(keys.len(), 101);
    for a in 0..keys.len() {
        assert_eq!(keys[a], rule50_key(a as u16));
        for b in (a + 1)..keys.len() {
            assert_ne!(keys[a], keys[b]);
        }
    }
    assert_eq!(rule50_key(100), rule50_key(250));
}

#[test]
fn a_large_halfmove_clock_is_accepted() {
    let pos = Position::from_fen("4k3/8/8/8/8/8/8/4K3 w - - 40000 1").unwrap();
    assert_eq!(pos.rule50(), 40000);
}

#[test]
fn start_position_is_the_start_fen() {
    assert_eq!(Position::new().fen(), Position::from_fen(atomic_solver::movegen::STARTPOS_FEN).unwrap().fen());
    assert_eq!(Position::new().fen(), atomic_solver::movegen::STARTPOS_FEN);
}

#[test]
fn no_moves_are_generated_at_the_game_ply_limit() {
    let mut pos = Position::from_fen("4k3/8/8/8/8/8/8/4K3 b - - 0 32767").unwrap();
    let moves = pos.legal_moves_vec();
    assert!(!moves.is_empty());
    pos.do_move(moves[0]);
    assert!(pos.legal_moves_vec().is_empty());
}

#[test]
fn no_moves_are_generated_past_the_move_list_bound() {
    let pos = Position::from_fen("QQQQQQQk/QQQQ4/8/8/8/8/8/K7 w - - 0 1").unwrap();
    assert!(pos.legal_moves_vec().is_empty());
    let few = Position::from_fen("QQQQQQ1k/8/8/8/8/8/8/K7 w - - 0 1").unwrap();
    assert!(!few.legal_moves_vec().is_empty());
}
