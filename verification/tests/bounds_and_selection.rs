use atomic_solver::moves::Move;
use atomic_solver::position::Outcome;
use atomic_solver::reconstruct::{HoleClass, ReconstructConfig, ReconstructStats};
use atomic_solver::search::dfpn::{gcd, outcome_from_pn_dn, Search};
use atomic_solver::search::selection::{
    best_and_second_unsolved, is_solved_by_children, select_child_with_early_exit, select_from_children, ChildInfo,
};
use atomic_solver::zobrist::INF;

fn sq(name: &str) -> u16 {
    let b = name.as_bytes();
    ((b[0] - b'a') as u16) + 8 * ((b[1] - b'1') as u16)
}

fn mv(from: &str, to: &str) -> Move {
    Move::make_move(sq(from), sq(to))
}

fn child(outcome: Option<Outcome>, depth: u32, from: &str, to: &str) -> ChildInfo {
    ChildInfo { mv: mv(from, to), pn: 1, dn: 1, outcome, depth, repetition_seen: false, explored: false }
}

fn open_child(pn: u64, dn: u64, from: &str, to: &str) -> ChildInfo {
    ChildInfo { mv: mv(from, to), pn, dn, outcome: None, depth: 0, repetition_seen: false, explored: false }
}

#[test]
fn holes_line_format() {
    let stats = ReconstructStats {
        hit: 5,
        terminal: 3,
        clock_hit: 1,
        clock_miss_draw: 0,
        repetition: 0,
        absent: 2,
        filled: 2,
        unfillable: 0,
        anomalies: 0,
        duplicate_keys: 4,
    };
    assert_eq!(
        stats.holes_line(),
        "holes: hit=5 terminal=3 clock_hit=1 clock_miss_draw=0 repetition=0 absent=2 filled=2 unfillable=0 anomalies=0"
    );
    assert_eq!(stats.count(HoleClass::Hit), 5);
    assert_eq!(stats.count(HoleClass::Anomaly), 0);
    assert_eq!(stats.total(), 11);
}

#[test]
fn reconstruct_config_defaults() {
    let c = ReconstructConfig::default();
    assert_eq!((c.tt_mb, c.pt_size_mb, c.fill_base, c.fill_depth_cap), (128, 256, 8, 32));
    assert_eq!((c.fill_attempt_budget, c.fill_total_budget), (10_000_000, 0));
}

#[test]
fn outcome_from_pn_dn_only_recognizes_win() {
    assert_eq!(outcome_from_pn_dn(0, INF), Some(Outcome::Win));
    assert_eq!(outcome_from_pn_dn(INF, 0), None);
    assert_eq!(outcome_from_pn_dn(1, 1), None);
}

#[test]
fn epsilon_ceil_scales_threshold() {
    let mut search = Search::new(64);

    search.set_epsilon_fraction(1, 1);
    assert_eq!(search.epsilon_ceil(0), 1);
    assert_eq!(search.epsilon_ceil(1), 2);
    assert_eq!(search.epsilon_ceil(5), 6);
    assert_eq!(search.epsilon_ceil(100), 101);
    assert_eq!(search.epsilon_ceil(1_000_000), 1_000_001);
    assert_eq!(search.epsilon_ceil(INF - 1), INF);
    assert_eq!(search.epsilon_ceil(INF), INF);

    search.set_epsilon_fraction(5, 4);
    assert_eq!(search.epsilon_ceil(0), 1);
    assert_eq!(search.epsilon_ceil(1), 2);
    assert_eq!(search.epsilon_ceil(10), 13);
    assert_eq!(search.epsilon_ceil(100), 125);
    assert_eq!(search.epsilon_ceil(1_000_000), 1_250_000);
    assert_eq!(search.epsilon_ceil(INF - 1), INF);
    assert_eq!(search.epsilon_ceil(INF), INF);

    search.set_epsilon_fraction(3, 2);
    assert_eq!(search.epsilon_ceil(10), 15);
    assert_eq!(search.epsilon_ceil(1_000_000), 1_500_000);
    assert_eq!(search.epsilon_ceil(INF - 1), INF);

    search.set_epsilon_fraction(2, 1);
    assert_eq!(search.epsilon_ceil(0), 1);
    assert_eq!(search.epsilon_ceil(1), 2);
    assert_eq!(search.epsilon_ceil(10), 20);
    assert_eq!(search.epsilon_ceil(1_000_000), 2_000_000);
    assert_eq!(search.epsilon_ceil(INF - 1), INF);
}

#[test]
fn default_epsilon_is_nine_eighths() {
    let search = Search::new(1);
    assert_eq!(search.epsilon_ceil(8), 9);
    assert_eq!(search.epsilon_ceil(80), 90);
    assert_eq!(search.epsilon_ceil(81), 92);
}

#[test]
fn gcd_of_examples() {
    assert_eq!(gcd(12, 18), 6);
    assert_eq!(gcd(7, 0), 7);
    assert_eq!(gcd(0, 9), 9);
    assert_eq!(gcd(1, 1), 1);
}

#[test]
fn win_picks_shortest_loss_child() {
    let children = vec![
        child(Some(Outcome::Loss), 5, "a1", "a2"),
        child(Some(Outcome::Loss), 2, "b1", "b2"),
        child(Some(Outcome::Win), 0, "c1", "c2"),
    ];
    let (outcome, depth, m, all_solved, _idx) = is_solved_by_children(&children, true).unwrap();
    assert_eq!(outcome, Outcome::Win);
    assert_eq!(depth, 3);
    assert_eq!(m, mv("b1", "b2"));
    assert!(all_solved);
}

#[test]
fn and_node_win_picks_longest_loss_for_attacker() {
    let children = vec![child(Some(Outcome::Win), 2, "a1", "a2"), child(Some(Outcome::Win), 5, "b1", "b2")];
    let (outcome, depth, m, all_solved, _idx) = is_solved_by_children(&children, false).unwrap();
    assert_eq!(outcome, Outcome::Loss);
    assert_eq!(depth, 6);
    assert_eq!(m, mv("b1", "b2"));
    assert!(all_solved);
}

#[test]
fn and_node_defender_win_picks_shortest_loss() {
    let children = vec![
        child(Some(Outcome::Loss), 5, "a1", "a2"),
        child(Some(Outcome::Loss), 2, "b1", "b2"),
        child(Some(Outcome::Win), 0, "c1", "c2"),
    ];
    let (outcome, depth, m, all_solved, _idx) = is_solved_by_children(&children, false).unwrap();
    assert_eq!(outcome, Outcome::Win);
    assert_eq!(depth, 3);
    assert_eq!(m, mv("b1", "b2"));
    assert!(all_solved);
}

#[test]
fn draw_picks_longest_draw_child() {
    let children = vec![
        child(Some(Outcome::Win), 4, "a1", "a2"),
        child(Some(Outcome::Draw), 1, "b1", "b2"),
        child(Some(Outcome::Draw), 7, "c1", "c2"),
    ];
    let (outcome, depth, m, all_solved, _idx) = is_solved_by_children(&children, true).unwrap();
    assert_eq!(outcome, Outcome::Draw);
    assert_eq!(depth, 8);
    assert_eq!(m, mv("c1", "c2"));
    assert!(all_solved);
}

#[test]
fn loss_picks_longest_win_child() {
    let children = vec![child(Some(Outcome::Win), 2, "a1", "a2"), child(Some(Outcome::Win), 5, "b1", "b2")];
    let (outcome, depth, m, all_solved, _idx) = is_solved_by_children(&children, true).unwrap();
    assert_eq!(outcome, Outcome::Loss);
    assert_eq!(depth, 6);
    assert_eq!(m, mv("b1", "b2"));
    assert!(all_solved);
}

#[test]
fn unsolved_returns_none() {
    let children = vec![child(Some(Outcome::Win), 0, "a1", "a2"), child(None, 0, "b1", "b2")];
    assert!(is_solved_by_children(&children, true).is_none());
}

#[test]
fn win_with_unsolved_returns_not_all_solved() {
    let children = vec![child(Some(Outcome::Loss), 5, "a1", "a2"), child(None, 0, "b1", "b2")];
    let (outcome, depth, m, all_solved, _idx) = is_solved_by_children(&children, true).unwrap();
    assert_eq!(outcome, Outcome::Win);
    assert_eq!(depth, 6);
    assert_eq!(m, mv("a1", "a2"));
    assert!(!all_solved);
}

#[test]
fn mixed_win_and_draw_children_is_draw() {
    let children = vec![child(Some(Outcome::Win), 2, "a1", "a2"), child(Some(Outcome::Draw), 4, "b1", "b2")];
    let (outcome, depth, m, all_solved, _idx) = is_solved_by_children(&children, true).unwrap();
    assert_eq!(outcome, Outcome::Draw);
    assert_eq!(depth, 5);
    assert_eq!(m, mv("b1", "b2"));
    assert!(all_solved);
}

#[test]
fn mixed_win_depths_returns_longest_loss() {
    let children = vec![child(Some(Outcome::Win), 3, "a1", "a2"), child(Some(Outcome::Win), 6, "b1", "b2")];
    let (outcome, depth, m, all_solved, _idx) = is_solved_by_children(&children, true).unwrap();
    assert_eq!(outcome, Outcome::Loss);
    assert_eq!(depth, 7);
    assert_eq!(m, mv("b1", "b2"));
    assert!(all_solved);
}

#[test]
fn early_exit_allows_win_when_not_all_solved() {
    let children = vec![child(Some(Outcome::Loss), 5, "a1", "a2"), child(None, 0, "b1", "b2")];
    let solved = is_solved_by_children(&children, true);
    let selection = select_child_with_early_exit(&children, solved);
    assert!(selection.is_some());
    assert_eq!(selection.unwrap().solved_outcome, Some(Outcome::Win));
}

#[test]
fn early_exit_declines_an_undecided_loss() {
    let children = vec![child(Some(Outcome::Win), 5, "a1", "a2"), child(None, 0, "b1", "b2")];
    let solved = is_solved_by_children(&children, true);
    assert!(solved.is_none());
    assert!(select_child_with_early_exit(&children, solved).is_none());
}

#[test]
fn select_from_children_can_be_called_without_search_instance() {
    let children = vec![child(Some(Outcome::Loss), 0, "a1", "a2")];
    let selection = select_from_children(&children, true, None, None);
    assert_eq!(selection.solved_outcome, Some(Outcome::Win));
    assert_eq!(selection.pn, 0);
    assert_eq!(selection.dn, INF);
}

#[test]
fn best_and_second_unsolved_orders_by_or_pn() {
    let children = vec![open_child(5, 1, "a1", "a2"), open_child(2, 9, "b1", "b2"), open_child(8, 1, "c1", "c2")];
    let (best, second) = best_and_second_unsolved(&children, true);
    assert_eq!(best, Some(1));
    assert_eq!(second, Some(0));
}

#[test]
fn best_and_second_unsolved_orders_by_and_dn() {
    let children = vec![open_child(5, 4, "a1", "a2"), open_child(2, 9, "b1", "b2"), open_child(8, 1, "c1", "c2")];
    let (best, second) = best_and_second_unsolved(&children, false);
    assert_eq!(best, Some(2));
    assert_eq!(second, Some(0));
}

#[test]
fn solved_children_are_skipped_by_best_and_second() {
    let children = vec![child(Some(Outcome::Loss), 0, "a1", "a2"), open_child(3, 1, "b1", "b2")];
    let (best, second) = best_and_second_unsolved(&children, true);
    assert_eq!(best, Some(1));
    assert_eq!(second, None);
}
