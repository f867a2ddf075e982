use atomic_solver::moves::{Color, Move};
use atomic_solver::position::{Outcome, Position};
use atomic_solver::search::dfpn::Search;
use atomic_solver::search::history::{killer_bonus, HISTORY_BONUS, HISTORY_MAX, SCORE_KILLER};
use atomic_solver::zobrist::INF;

fn sq(name: &str) -> u16 {
    let b = name.as_bytes();
    ((b[0] - b'a') as u16) + 8 * ((b[1] - b'1') as u16)
}

fn mv(from: &str, to: &str) -> Move {
    Move::make_move(sq(from), sq(to))
}

fn start_position() -> Position {
    Position::from_fen("rnbqkbnr/pppppppp/8/8/8/8/PPPPPPPP/RNBQKBNR w KQkq - 0 1").unwrap()
}

fn history_of(search: &Search, side: Color, m: Move) -> i32 {
    search.history().get(side, m.from_sq(), m.to_sq())
}

// ---------- history and killers ----------

#[test]
fn sort_orders_empty_list_without_panic() {
    let search = Search::new(1);
    let pos = start_position();
    let mut moves: Vec<Move> = Vec::new();
    search.sort_moves(&pos, &mut moves, Move::none(), true);
    assert!(moves.is_empty());
}

#[test]
fn sort_is_deterministic() {
    let search = Search::new(1);
    let pos = start_position();
    let mut moves1 = pos.legal_moves_vec();
    let mut moves2 = pos.legal_moves_vec();
    search.sort_moves(&pos, &mut moves1, Move::none(), true);
    search.sort_moves(&pos, &mut moves2, Move::none(), true);
    assert_eq!(moves1, moves2);
}

#[test]
fn history_bonus_raises_move_score() {
    let mut search = Search::new(1);
    let pos = start_position();
    let e2e4 = mv("e2", "e4");

    let mut before = pos.legal_moves_vec();
    search.sort_moves(&pos, &mut before, Move::none(), true);
    let rank_before = before.iter().position(|&m| m == e2e4).unwrap();

    search.update_history(e2e4, Color::White);

    let mut after = pos.legal_moves_vec();
    search.sort_moves(&pos, &mut after, Move::none(), true);
    let rank_after = after.iter().position(|&m| m == e2e4).unwrap();

    assert!(
        rank_after <= rank_before,
        "history bonus should move e2e4 up the list (was {rank_before}, now {rank_after})"
    );
}

#[test]
fn history_caps_at_maximum() {
    let mut search = Search::new(1);
    let e2e4 = mv("e2", "e4");
    for _ in 0..(HISTORY_MAX / HISTORY_BONUS + 10) {
        search.update_history(e2e4, Color::White);
    }
    assert_eq!(history_of(&search, Color::White, e2e4), HISTORY_MAX);
}

#[test]
fn age_history_halves_scores() {
    let mut search = Search::new(1);
    let e2e4 = mv("e2", "e4");
    let d2d4 = mv("d2", "d4");

    search.update_history(e2e4, Color::White);
    search.update_history(d2d4, Color::White);
    assert_eq!(history_of(&search, Color::White, e2e4), HISTORY_BONUS);
    assert_eq!(history_of(&search, Color::White, d2d4), HISTORY_BONUS);

    // The counter starts at zero; the call that completes the interval ages.
    for _ in 0..10_000u64 {
        search.maybe_age_history();
    }
    assert_eq!(history_of(&search, Color::White, e2e4), HISTORY_BONUS / 2);
}

#[test]
fn update_killers_shifts_previous_killer_to_second_slot() {
    let mut search = Search::new(1);
    search.path_push(0); // depth 1

    let a = mv("e2", "e4");
    let b = mv("d2", "d4");

    search.update_killers(a);
    assert_eq!(search.killers().get(1, 0), a);
    assert_eq!(search.killers().get(1, 1), Move::none());

    search.update_killers(b);
    assert_eq!(search.killers().get(1, 0), b);
    assert_eq!(search.killers().get(1, 1), a);

    // Re-adding the current primary killer should not duplicate.
    search.update_killers(b);
    assert_eq!(search.killers().get(1, 0), b);
    assert_eq!(search.killers().get(1, 1), a);
}

#[test]
fn killer_moves_get_sort_bonus() {
    let mut search = Search::new(1);
    search.path_push(0); // depth 1

    let e2e4 = mv("e2", "e4");
    search.update_killers(e2e4);

    let pos = start_position();
    let mut moves = pos.legal_moves_vec();
    search.sort_moves(&pos, &mut moves, Move::none(), true);

    assert_eq!(moves[0], e2e4, "killer move should be sorted first");
}

#[test]
fn killer_bonus_helper_matches_method() {
    let mut search = Search::new(1);
    search.path_push(0);
    let e2e4 = mv("e2", "e4");
    search.update_killers(e2e4);

    assert_eq!(search.killer_bonus(e2e4, 1), killer_bonus(search.killers(), e2e4, 1));
    assert_eq!(killer_bonus(search.killers(), e2e4, 1), SCORE_KILLER);
    assert_eq!(killer_bonus(search.killers(), mv("a1", "a2"), 1), 0);
}

// ---------- child evaluation ----------

#[test]
fn evaluate_child_terminal_win_for_parent() {
    // White rook can capture the black commoner on e8.
    let mut search = Search::new(1);
    let mut pos = Position::from_fen("4k3/8/8/8/8/8/8/4R1K1 w - - 0 1").unwrap();
    let info = search.evaluate_child(&mut pos, mv("e1", "e8"), u32::MAX, true);

    assert_eq!(info.outcome, Some(Outcome::Loss), "capturing the commoner ends the game");
    assert_eq!(info.pn, 0, "terminal winning child has pn 0 at the AND side");
    assert_eq!(info.dn, INF, "terminal winning child has dn INF at the AND side");
}

#[test]
fn evaluate_child_repetition_is_draw() {
    let mut search = Search::new(1);
    let mut pos = Position::from_fen("4k3/8/8/4K3/8/8/8/4R3 w - - 0 1").unwrap();

    // Move the white king from e5 to d5; it is quiet and non-terminal.
    let m = mv("e5", "d5");
    pos.do_move(m);
    let child_rep_key = pos.repetition_key();
    pos.undo_move(m);
    search.path_push(child_rep_key);

    let info = search.evaluate_child(&mut pos, m, u32::MAX, true);

    assert_eq!(info.outcome, Some(Outcome::Draw), "repeating position is a draw");
    assert!(info.repetition_seen, "repetition flag should be set");
}

#[test]
fn evaluate_child_rule50_expired_repetition_is_not_repetition_seen() {
    let mut search = Search::new(1);
    let mut pos = Position::from_fen("4k3/8/8/4K3/8/8/8/4R3 w - - 100 1").unwrap();

    let m = mv("e5", "d5");
    pos.do_move(m);
    let child_rep_key = pos.repetition_key();
    pos.undo_move(m);
    search.path_push(child_rep_key);

    let info = search.evaluate_child(&mut pos, m, u32::MAX, true);

    assert_eq!(info.outcome, Some(Outcome::Draw), "rule50 draw");
    assert_eq!(info.depth, 0, "rule50 terminal is depth 0");
    assert!(!info.repetition_seen, "rule50 terminal outranks the repetition check, flag must stay false");
}

#[test]
fn evaluate_child_rule50_checkmate_is_loss() {
    let mut search = Search::new(1);
    let mut pos = Position::from_fen("7K/8/8/8/8/1Q6/8/k7 w - - 99 1").unwrap();
    let info = search.evaluate_child(&mut pos, mv("b3", "b2"), u32::MAX, true);
    assert_eq!(info.outcome, Some(Outcome::Loss), "rule50 checkmate must stay a Loss");
    assert_eq!(info.depth, 0);
    assert!(!info.repetition_seen);
}

#[test]
fn evaluate_child_uses_solved_tt_entry() {
    let mut search = Search::new(1);
    let mut pos = Position::from_fen("4k3/8/8/8/8/8/8/4KRR1 w - - 0 1").unwrap();
    // g1h1 is a quiet rook move to a non-terminal child.
    let m = mv("g1", "h1");
    pos.do_move(m);
    let child_key = pos.hash();
    pos.undo_move(m);

    search.tt_store(child_key, Move::none(), u8::MAX, 0, Some(Outcome::Loss), INF, 0, 1, u32::MAX);

    let info = search.evaluate_child(&mut pos, m, u32::MAX, true);
    assert_eq!(info.outcome, Some(Outcome::Loss), "TT-solved Loss should be reused");
    assert_eq!(info.depth, 1, "TT depth should be preserved");
}

#[test]
fn evaluate_all_children_stops_at_winning_child() {
    let mut search = Search::new(1);
    let mut pos = Position::from_fen("4k3/8/8/8/8/8/8/4R1K1 w - - 0 1").unwrap();
    let mut moves = pos.legal_moves_vec();

    // Sort so the winning capture e1e8 is tried first.
    search.sort_moves(&pos, &mut moves, Move::none(), true);
    let children = search.evaluate_all_children(&mut pos, &moves, u32::MAX, true);

    assert_eq!(children.len(), moves.len());
    assert!(children[0].outcome == Some(Outcome::Loss), "first child should be the winning capture");

    // Remaining children were filled with unexplored placeholders.
    for c in &children[1..] {
        assert_eq!(c.pn, INF);
        assert_eq!(c.dn, 0);
        assert_eq!(c.outcome, None);
        assert!(!c.explored);
    }
}

#[test]
fn evaluate_child_checkmate_child_classifies_loss_without_movegen() {
    let mut search = Search::new(1);
    let mut pos = Position::from_fen("7K/8/8/8/8/1Q6/8/k7 w - - 0 1").unwrap();
    let info = search.evaluate_child(&mut pos, mv("b3", "b2"), u32::MAX, true);
    assert_eq!(info.outcome, Some(Outcome::Loss), "checkmate is a Loss");
    assert_eq!(info.depth, 0);
    assert!(!info.repetition_seen);
}

#[test]
fn evaluate_child_stalemate_child_classifies_draw_without_movegen() {
    let mut search = Search::new(1);
    let mut pos = Position::from_fen("7k/8/8/8/8/2q5/8/K7 b - - 0 1").unwrap();
    let info = search.evaluate_child(&mut pos, mv("c3", "c2"), u32::MAX, true);
    assert_eq!(info.outcome, Some(Outcome::Draw), "stalemate is a Draw");
    assert_eq!(info.depth, 0);
    assert!(!info.repetition_seen);
}

#[test]
fn evaluate_child_two_commoners_is_draw() {
    let mut search = Search::new(1);
    let mut pos = Position::from_fen("8/8/8/8/8/8/1k6/K7 w - - 0 1").unwrap();
    let info = search.evaluate_child(&mut pos, mv("a1", "a2"), u32::MAX, true);
    assert_eq!(info.outcome, Some(Outcome::Draw), "K vs K with legal moves is a draw");
    assert_eq!(info.depth, 0);
    assert!(!info.repetition_seen);
}

#[test]
fn evaluate_child_unsolved_tt_bounds_used_when_non_degenerate() {
    let mut search = Search::new(1);
    let mut pos = Position::from_fen("4k3/8/8/8/8/8/8/4KRR1 w - - 0 1").unwrap();
    let m = mv("g1", "h1");
    pos.do_move(m);
    let child_key = pos.hash();
    pos.undo_move(m);

    // max_depth = 11 gives the child max depth 10, so remaining depth 10 is usable.
    search.tt_store(child_key, Move::none(), u8::MAX, 1, None, 5, 5, 0, 10);

    let info = search.evaluate_child(&mut pos, m, 11, true);
    assert_eq!(info.outcome, None, "unsolved bounds should not report an outcome");
    assert_eq!(info.pn, 5);
    assert_eq!(info.dn, 5);
}

#[test]
fn evaluate_child_degenerate_tt_bounds_fall_back_to_neutral() {
    let mut search = Search::new(1);
    let mut pos = Position::from_fen("4k3/8/8/8/8/8/8/4KRR1 w - - 0 1").unwrap();
    let m = mv("g1", "h1");
    pos.do_move(m);
    let child_key = pos.hash();
    pos.undo_move(m);

    // pn == 0 is degenerate and is not reused as an unsolved bound.
    search.tt_store(child_key, Move::none(), u8::MAX, 1, None, 0, 5, 0, 10);

    let info = search.evaluate_child(&mut pos, m, 11, true);
    assert_eq!(info.outcome, None);
    assert_eq!(info.pn, 1);
    assert_eq!(info.dn, 1);
}

// ---------- table reuse and refinement ----------

#[test]
fn tt_resolved_rejects_win_when_best_move_repeats() {
    // A stored win whose winning move leads to a board already on the search
    // path is not reused.
    let pos = Position::from_fen("4k3/8/8/8/8/8/8/4R1K1 w - - 0 1").unwrap();
    let key = pos.hash();
    let win_move = mv("e1", "e8");

    let mut child = pos.clone();
    child.do_move(win_move);
    let child_rep_key = child.repetition_key();

    let mut search = Search::new(64);
    search.tt_store(key, win_move, u8::MAX, 0, Some(Outcome::Win), 0, INF, 1, u32::MAX);

    // With the child on the path, the cached win is invalid.
    search.path_push(child_rep_key);
    assert!(
        search.try_use_tt(&pos, key, u32::MAX).is_none(),
        "a win whose best move repeats a board on the path must be rejected"
    );

    // Without the child on the path, the cached win is valid.
    search.path_pop();
    let resolved = search
        .try_use_tt(&pos, key, u32::MAX)
        .expect("cached win should resolve when the child is not on the path");
    assert_eq!(resolved.outcome, Outcome::Win);
    assert_eq!(resolved.depth, 1);
}

const REFINE_FIXTURE_FEN: &str = "r7/1Rp4k/4P2B/6p1/3P2P1/p6p/P6K/8 b - - 0 35";

#[test]
fn refine_cap_bounds_round_work() {
    let mut pos = Position::from_fen(REFINE_FIXTURE_FEN).unwrap();
    let mut search = Search::new(64);
    search.set_timeout(5);
    // A round cap far below the first-outcome work binds on the first round.
    search.set_refine_round_cap(1_000);

    let (outcome, pv, _nodes) = search.solve(&mut pos);
    assert_eq!(outcome, Outcome::Loss);
    assert!(!pv.is_empty());
    assert!(search.refinement_rounds() >= 1, "at least one refinement round must run");
    assert!(
        search.refinement_evaluations() < search.first_outcome_evaluations(),
        "capped rounds must spend far less work than the first-outcome phase"
    );
    assert!(
        search.refinement_evaluations() <= u64::from(search.refinement_rounds()) * 10_000,
        "each capped round must stay near the 1_000-eval cap"
    );
}

#[test]
fn dfpn_frame_local_slots_deterministic() {
    // Solving the same position twice with fresh searches gives identical
    // work counters.
    let mut counts = Vec::new();
    for _ in 0..2 {
        let mut search = Search::new(1);
        let mut pos = Position::from_fen(REFINE_FIXTURE_FEN).unwrap();
        let (outcome, pv, _) = search.solve(&mut pos);
        counts.push((outcome, pv.len(), search.child_evaluations()));
    }
    assert_eq!(counts[0], counts[1], "identical solve, identical counts");
    assert_eq!(counts[0].0, Outcome::Loss, "dec44 is a loss for black");
}
