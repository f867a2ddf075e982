use atomic_solver::moves::Move;
use atomic_solver::position::Outcome;
use atomic_solver::search::tt::{next_power_of_two, TranspositionTable, TtEntry};
use atomic_solver::zobrist::INF;

fn sq(name: &str) -> u16 {
    let b = name.as_bytes();
    ((b[0] - b'a') as u16) + 8 * ((b[1] - b'1') as u16)
}

fn mv(from: &str, to: &str) -> Move {
    Move::make_move(sq(from), sq(to))
}

fn bucket_count(tt: &TranspositionTable) -> usize {
    tt.stats().0
}

fn store_solved(tt: &mut TranspositionTable, key: u64, outcome: Outcome) {
    tt.store(key, Move::none(), u8::MAX, 0, Some(outcome), 0, 0, 0, u32::MAX);
}

#[test]
fn with_capacity_rounds_to_power_of_two() {
    assert_eq!(bucket_count(&TranspositionTable::with_capacity(1)), 1);
    assert_eq!(bucket_count(&TranspositionTable::with_capacity(3)), 4);
    assert_eq!(bucket_count(&TranspositionTable::with_capacity(0)), 1);
}

#[test]
fn with_capacity_forces_deterministic_eviction() {
    let mut tt = TranspositionTable::with_capacity(1);
    store_solved(&mut tt, 1, Outcome::Win);
    store_solved(&mut tt, 2, Outcome::Loss);
    assert!(tt.probe(1).is_some());
    assert!(tt.probe(2).is_some());

    store_solved(&mut tt, 3, Outcome::Draw);
    assert!(tt.probe(3).is_some(), "new entry should be present after eviction");
    let remaining = [tt.probe(1).is_some(), tt.probe(2).is_some()].iter().filter(|&&b| b).count();
    assert_eq!(remaining, 1, "exactly one old entry should survive eviction");
}

#[test]
fn empty_table_probe_returns_none() {
    let tt = TranspositionTable::with_mb(1);
    assert!(tt.probe(0x1234).is_none());
}

#[test]
fn table_size_is_power_of_two_and_at_least_minimum() {
    let tt = TranspositionTable::with_mb(1);
    assert!(bucket_count(&tt).is_power_of_two());
    assert!(bucket_count(&tt) >= 16);
}

#[test]
fn clear_removes_all_entries_and_resets_generation() {
    let mut tt = TranspositionTable::with_mb(1);
    let key = 0x222u64;
    tt.store(key, mv("e2", "e4"), u8::MAX, 1, Some(Outcome::Win), 0, INF, 1, u32::MAX);
    tt.clear();
    assert!(tt.probe(key).is_none());
    assert!(bucket_count(&tt).is_power_of_two());
}

#[test]
fn probe_matches_stored_entry_fields() {
    let mut tt = TranspositionTable::with_mb(1);
    let key = 0xdead_beefu64;
    let m = mv("e2", "e4");
    tt.store(key, m, u8::MAX, 42, Some(Outcome::Win), 0, INF, 5, 3);
    let entry = tt.probe(key).expect("entry should be present");
    assert_eq!(entry.outcome, Some(Outcome::Win));
    assert_eq!(entry.best_move, m);
    assert_eq!(entry.work, 42);
    assert_eq!(entry.depth, 5);
}

#[test]
fn store_and_probe_solved_result() {
    let mut tt = TranspositionTable::with_mb(1);
    let key = 12345u64;
    let m = mv("a1", "a2");
    tt.store(key, m, u8::MAX, 0, Some(Outcome::Win), 0, INF, 7, u32::MAX);
    let entry = tt.probe(key).expect("stored entry should be found");
    assert_eq!(entry.outcome, Some(Outcome::Win));
    assert_eq!(entry.best_move, m);
    assert_eq!(entry.depth, 7);
    assert!(entry.result_for(Outcome::Win).is_some());
    assert!(entry.result_for(Outcome::Loss).is_none());
}

#[test]
fn unsolved_bounds_do_not_overwrite_solved() {
    let mut tt = TranspositionTable::with_mb(1);
    let key = 12345u64;
    let m = mv("a1", "a2");
    tt.store(key, m, u8::MAX, 0, Some(Outcome::Win), 0, INF, 7, u32::MAX);
    tt.store(key, Move::none(), u8::MAX, 100, None, 1, 1, 0, 0);
    let entry = tt.probe(key).expect("entry should still exist");
    assert_eq!(entry.outcome, Some(Outcome::Win));
    assert_eq!(entry.best_move, m);
    assert_eq!(entry.work, 100, "the work of an entry only grows");
}

#[test]
fn solved_result_overwrites_unsolved_bounds() {
    let mut tt = TranspositionTable::with_mb(1);
    let key = 12345u64;
    let m = mv("a1", "a2");
    tt.store(key, Move::none(), u8::MAX, 0, None, 1, 1, 0, 0);
    tt.store(key, m, u8::MAX, 0, Some(Outcome::Loss), INF, 0, 12, u32::MAX);
    let entry = tt.probe(key).expect("entry should exist");
    assert_eq!(entry.outcome, Some(Outcome::Loss));
    assert_eq!(entry.best_move, m);
    assert_eq!(entry.depth, 12);
}

#[test]
fn new_generation_marks_old_entries_stale() {
    let mut tt = TranspositionTable::with_mb(1);
    let key = 123u64;
    store_solved(&mut tt, key, Outcome::Win);
    assert!(tt.probe(key).is_some());
    tt.new_generation();
    assert!(tt.probe(key).is_none());
    store_solved(&mut tt, key, Outcome::Win);
    assert!(tt.probe(key).is_some());
}

#[test]
fn new_generation_prefers_stale_slot() {
    let mut tt = TranspositionTable::with_mb(1);
    let key1 = 1u64;
    let bc = bucket_count(&tt) as u64;
    let key2 = key1 + bc;
    store_solved(&mut tt, key1, Outcome::Win);
    store_solved(&mut tt, key2, Outcome::Win);
    assert!(tt.probe(key1).is_some());
    assert!(tt.probe(key2).is_some());

    tt.new_generation();
    let key3 = key1 + 2 * bc;
    store_solved(&mut tt, key3, Outcome::Draw);
    assert!(tt.probe(key3).is_some());
    assert!(
        tt.probe(key1).is_none() || tt.probe(key2).is_none(),
        "new entry should overwrite a stale slot, not both live slots"
    );
}

#[test]
fn entries_yields_all_valid_entries_in_bucket_order_across_generations() {
    let mut tt = TranspositionTable::with_capacity(4);
    assert_eq!(tt.entries().iter().filter(|e| e.valid).count(), 0, "fresh table has no valid entries");

    store_solved(&mut tt, 0x33, Outcome::Win);
    tt.new_generation();
    store_solved(&mut tt, 0x11, Outcome::Loss);
    tt.store(0x22, Move::none(), u8::MAX, 0, None, 1, 1, 0, 0);

    let keys: Vec<u64> = tt.entries().iter().filter(|e| e.valid).map(|e| e.key).collect();
    assert_eq!(keys, vec![0x11, 0x22, 0x33], "entries must be yielded in native bucket order, all generations");

    let outcomes: Vec<bool> = tt.entries().iter().filter(|e| e.valid).map(|e| e.outcome.is_some()).collect();
    assert_eq!(outcomes, vec![true, false, true]);
}

#[test]
fn current_generation_reflects_new_generation_and_clear() {
    let mut tt = TranspositionTable::with_capacity(2);
    assert_eq!(tt.current_generation(), 1);
    tt.new_generation();
    assert_eq!(tt.current_generation(), 2);
    tt.new_generation();
    assert_eq!(tt.current_generation(), 3);
    tt.clear();
    assert_eq!(tt.current_generation(), 1);
}

#[test]
fn stats_count_live_solved_and_unsolved() {
    let mut tt = TranspositionTable::with_capacity(8);
    store_solved(&mut tt, 1, Outcome::Win);
    tt.store(2, Move::none(), u8::MAX, 0, None, 3, 4, 0, 0);
    assert_eq!(tt.stats(), (8, 2, 1, 1, 1));
    tt.new_generation();
    assert_eq!(tt.stats(), (8, 0, 0, 0, 2));
}

#[test]
fn infinite_unsolved_bounds_are_stored_neutral() {
    let mut tt = TranspositionTable::with_capacity(2);
    tt.store(9, Move::none(), u8::MAX, 0, None, INF, INF, 0, 0);
    let e = tt.probe(9).unwrap();
    assert_eq!((e.pn, e.dn), (1, 1));
    let s = tt.probe_summary(9).unwrap();
    assert_eq!((s.pn, s.dn), (1, 1));
}

#[test]
fn result_for_matches_expected_outcome() {
    let mut e = TtEntry::empty();
    e.outcome = Some(Outcome::Win);
    e.best_move = mv("e2", "e4");
    e.depth = 3;
    let r = e.result_for(Outcome::Win).unwrap();
    assert_eq!((r.best_move, r.depth), (mv("e2", "e4"), 3));
    assert!(e.result_for(Outcome::Loss).is_none());
}

#[test]
fn result_for_depth_requires_exact_depth() {
    let mut e = TtEntry::empty();
    e.outcome = Some(Outcome::Loss);
    e.depth = 4;
    assert!(e.result_for_depth(Outcome::Loss, 4).is_some());
    assert!(e.result_for_depth(Outcome::Loss, 5).is_none());
    assert!(e.result_for_depth(Outcome::Win, 4).is_none());
}

#[test]
fn best_result_returns_outcome_move_and_depth() {
    let mut e = TtEntry::empty();
    assert!(e.best_result().is_none());
    e.outcome = Some(Outcome::Draw);
    e.best_move = mv("a1", "a2");
    e.depth = 6;
    assert_eq!(e.best_result(), Some((mv("a1", "a2"), Outcome::Draw, 6)));
}

#[test]
fn next_power_of_two_examples() {
    assert_eq!(next_power_of_two(0), 1);
    assert_eq!(next_power_of_two(1), 1);
    assert_eq!(next_power_of_two(5), 8);
    assert_eq!(next_power_of_two(64), 64);
}

#[test]
fn best_child_counts_most_frequent_first() {
    let mut tt = TranspositionTable::with_capacity(16);
    tt.store(1, Move::none(), 2, 0, None, 1, 1, 0, 0);
    tt.store(2, Move::none(), 2, 0, None, 1, 1, 0, 0);
    tt.store(3, Move::none(), 0, 0, None, 1, 1, 0, 0);
    tt.store(4, Move::none(), u8::MAX, 0, None, 1, 1, 0, 0);
    assert_eq!(tt.best_child_counts(), vec![(2, 2), (0, 1)]);
}

#[test]
fn tests_tt_entry_size_is_reasonable() {
    let size = std::mem::size_of::<TtEntry>();
    assert!(size <= 128, "TtEntry size {size} exceeds 128 bytes");
}

#[test]
fn tt_tt_entry_size_is_reasonable() {
    let size = std::mem::size_of::<TtEntry>();
    assert!(size <= 512, "TtEntry size {} exceeds 512 bytes", size);
}
