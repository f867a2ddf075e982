use atomic_solver::moves::{Color, Move};
use atomic_solver::search::history::{
    age_history, killer_bonus, update_history_entry, update_killer_slots, HistoryTable, KillerTable, HISTORY_BONUS,
    HISTORY_MAX, KILLER_SLOTS, MAX_KILLER_DEPTH, SCORE_KILLER,
};

fn sq(name: &str) -> u16 {
    let b = name.as_bytes();
    ((b[0] - b'a') as u16) + 8 * ((b[1] - b'1') as u16)
}

fn all_entries(history: &HistoryTable, expected: i32) -> bool {
    for side in [Color::White, Color::Black] {
        for from in 0..64u16 {
            for to in 0..64u16 {
                if history.get(side, from, to) != expected {
                    return false;
                }
            }
        }
    }
    true
}

#[test]
fn age_history_helper_halves_all_entries() {
    let mut history = HistoryTable::filled(100);
    age_history(&mut history);
    assert!(all_entries(&history, 50.min(HISTORY_MAX)));
}

#[test]
fn update_history_entry_helper_caps_at_max() {
    let mut history = HistoryTable::new();
    let from = sq("a1");
    let to = sq("a2");
    for _ in 0..(HISTORY_MAX / HISTORY_BONUS + 10) {
        update_history_entry(&mut history, Color::White, from, to);
    }
    assert_eq!(history.get(Color::White, from, to), HISTORY_MAX);
}

#[test]
fn update_history_entry_touches_one_score() {
    let mut history = HistoryTable::new();
    let e2 = sq("e2");
    let e4 = sq("e4");
    update_history_entry(&mut history, Color::White, e2, e4);
    assert_eq!(history.get(Color::White, e2, e4), HISTORY_BONUS);
    assert_eq!(history.get(Color::Black, e2, e4), 0);
    assert_eq!(history.get(Color::White, e4, e2), 0);
    age_history(&mut history);
    assert_eq!(history.get(Color::White, e2, e4), HISTORY_BONUS / 2);
}

#[test]
fn update_killer_slots_helper_shifts_and_deduplicates() {
    let mut killers = KillerTable::new();
    let a = Move::make_move(sq("e2"), sq("e4"));
    let b = Move::make_move(sq("d2"), sq("d4"));

    update_killer_slots(&mut killers, 1, a);
    assert_eq!(killers.get(1, 0), a);
    assert_eq!(killers.get(1, 1), Move::none());

    update_killer_slots(&mut killers, 1, b);
    assert_eq!(killers.get(1, 0), b);
    assert_eq!(killers.get(1, 1), a);

    update_killer_slots(&mut killers, 1, b);
    assert_eq!(killers.get(1, 0), b);
    assert_eq!(killers.get(1, 1), a);
    assert_eq!(KILLER_SLOTS, 2);
}

#[test]
fn killer_bonus_helper_matches_slots() {
    let mut killers = KillerTable::new();
    let e2e4 = Move::make_move(sq("e2"), sq("e4"));
    update_killer_slots(&mut killers, 1, e2e4);
    assert_eq!(killer_bonus(&killers, e2e4, 1), SCORE_KILLER);
    assert_eq!(killer_bonus(&killers, Move::make_move(sq("a1"), sq("a2")), 1), 0);
    assert_eq!(killer_bonus(&killers, e2e4, 2), 0);
    assert_eq!(killer_bonus(&killers, e2e4, MAX_KILLER_DEPTH), 0);
}
