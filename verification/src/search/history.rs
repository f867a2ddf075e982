//! History and killer-move tables for move ordering.

use vstd::prelude::*;

use crate::moves::{Color, Move};

verus! {

pub const HISTORY_MAX: i32 = 10_000;

pub const HISTORY_BONUS: i32 = 100;

pub const HISTORY_AGE_INTERVAL: u64 = 10_000;

pub const SCORE_KILLER: i32 = 50_000;

pub const KILLER_SLOTS: usize = 2;

pub const MAX_KILLER_DEPTH: usize = 256;

pub open spec fn spec_history_index(side: Color, from: u16, to: u16) -> int {
    (if side == Color::White { 0int } else { 1int }) * 4096 + from * 64 + to
}

/// History scores per side, origin and destination square.
pub struct HistoryTable {
    scores: Vec<i32>,
}

impl HistoryTable {
    /// 2 x 64 x 64 scores, each within `[0, HISTORY_MAX]`.
    pub closed spec fn wf(self) -> bool {
        &&& self.scores.len() == 8192
        &&& forall|i: int| 0 <= i < 8192 ==> 0 <= #[trigger] self.scores@[i] <= HISTORY_MAX
    }

    pub closed spec fn score(self, side: Color, from: u16, to: u16) -> i32 {
        self.scores@[spec_history_index(side, from, to)]
    }

    /// Every score equal to `value`.
    pub fn filled(value: i32) -> (r: HistoryTable)
        requires
            0 <= value <= HISTORY_MAX,
        ensures
            r.wf(),
            forall|side: Color, from: u16, to: u16| from < 64 && to < 64 ==> #[trigger] r.score(side, from, to) == value,
    {
        let mut scores: Vec<i32> = Vec::new();
        let mut i: usize = 0;
        while i < 8192
            invariant
                i <= 8192,
                scores.len() == i,
                forall|j: int| 0 <= j < i ==> #[trigger] scores@[j] == value,
            decreases 8192 - i,
        {
            scores.push(value);
            i += 1;
        }
        HistoryTable { scores }
    }

    /// All scores zero.
    pub fn new() -> (r: HistoryTable)
        ensures
            r.wf(),
            forall|side: Color, from: u16, to: u16| from < 64 && to < 64 ==> #[trigger] r.score(side, from, to) == 0,
    {
        Self::filled(0)
    }

    pub fn get(&self, side: Color, from: u16, to: u16) -> (r: i32)
        requires
            self.wf(),
            from < 64,
            to < 64,
        ensures
            r == self.score(side, from, to),
    {
        self.scores[side.index() * 4096 + (from as usize) * 64 + (to as usize)]
    }
}

/// Add the history bonus for `side`'s move from `from` to `to`, capped at
/// `HISTORY_MAX`; every other score is unchanged.
pub fn update_history_entry(history: &mut HistoryTable, side: Color, from: u16, to: u16)
    requires
        old(history).wf(),
        from < 64,
        to < 64,
    ensures
        final(history).wf(),
        final(history).score(side, from, to) == (if old(history).score(side, from, to) + HISTORY_BONUS < HISTORY_MAX {
            old(history).score(side, from, to) + HISTORY_BONUS
        } else {
            HISTORY_MAX as int
        }),
        forall|s: Color, f: u16, t: u16|
            f < 64 && t < 64 && (s != side || f != from || t != to) ==> #[trigger] final(history).score(s, f, t) == old(history).score(s, f, t),
{
    let idx = side.index() * 4096 + (from as usize) * 64 + (to as usize);
    let v = history.scores[idx] + HISTORY_BONUS;
    let v = if v < HISTORY_MAX { v } else { HISTORY_MAX };
    history.scores.set(idx, v);
    proof {
        assert forall|s: Color, f: u16, t: u16| f < 64 && t < 64 && (s != side || f != from || t != to) implies
            spec_history_index(s, f, t) != spec_history_index(side, from, to) by {
        }
    }
}

/// Age every score by halving it.
pub fn age_history(history: &mut HistoryTable)
    requires
        old(history).wf(),
    ensures
        final(history).wf(),
        forall|side: Color, from: u16, to: u16|
            from < 64 && to < 64 ==> #[trigger] final(history).score(side, from, to) == old(history).score(side, from, to) / 2,
{
    let mut i: usize = 0;
    while i < 8192
        invariant
            i <= 8192,
            history.scores.len() == 8192,
            forall|j: int| 0 <= j < i ==> #[trigger] history.scores@[j] == old(history).scores@[j] / 2,
            forall|j: int| i <= j < 8192 ==> #[trigger] history.scores@[j] == old(history).scores@[j],
            forall|j: int| 0 <= j < 8192 ==> 0 <= #[trigger] old(history).scores@[j] <= HISTORY_MAX,
        decreases 8192 - i,
    {
        let v = history.scores[i] / 2;
        let v = if v < HISTORY_MAX { v } else { HISTORY_MAX };
        history.scores.set(i, v);
        i += 1;
    }
    proof {
        assert forall|side: Color, from: u16, to: u16| from < 64 && to < 64 implies
            0 <= #[trigger] spec_history_index(side, from, to) < 8192 by {}
    }
}

/// Killer moves: two slots per search depth.
pub struct KillerTable {
    slots: Vec<Move>,
}

impl KillerTable {
    pub closed spec fn wf(self) -> bool {
        self.slots.len() == 2 * MAX_KILLER_DEPTH
    }

    /// Slot `i` (0 primary, 1 secondary) at `depth`.
    pub closed spec fn killer(self, depth: int, i: int) -> Move {
        self.slots@[2 * depth + i]
    }

    /// Every slot holds the sentinel.
    pub fn new() -> (r: KillerTable)
        ensures
            r.wf(),
            forall|d: int, i: int| 0 <= d < MAX_KILLER_DEPTH && 0 <= i < 2 ==> #[trigger] r.killer(d, i) == Move::spec_none(),
    {
        let mut slots: Vec<Move> = Vec::new();
        let mut j: usize = 0;
        while j < 2 * MAX_KILLER_DEPTH
            invariant
                j <= 2 * MAX_KILLER_DEPTH,
                slots.len() == j,
                forall|k: int| 0 <= k < j ==> #[trigger] slots@[k] == Move::spec_none(),
            decreases 2 * MAX_KILLER_DEPTH - j,
        {
            slots.push(Move::none());
            j += 1;
        }
        KillerTable { slots }
    }

    pub fn get(&self, depth: usize, i: usize) -> (r: Move)
        requires
            self.wf(),
            depth < MAX_KILLER_DEPTH,
            i < 2,
        ensures
            r == self.killer(depth as int, i as int),
    {
        self.slots[2 * depth + i]
    }
}

/// Make `m` the primary killer at `depth`, shifting the previous primary to
/// the secondary slot; the sentinel, a depth beyond the table and the
/// current primary change nothing.
pub fn update_killer_slots(killers: &mut KillerTable, depth: usize, m: Move)
    requires
        old(killers).wf(),
    ensures
        final(killers).wf(),
        (m == Move::spec_none() || depth >= MAX_KILLER_DEPTH || old(killers).killer(depth as int, 0) == m)
            ==> *final(killers) == *old(killers),
        !(m == Move::spec_none() || depth >= MAX_KILLER_DEPTH || old(killers).killer(depth as int, 0) == m) ==> {
            &&& final(killers).killer(depth as int, 0) == m
            &&& final(killers).killer(depth as int, 1) == old(killers).killer(depth as int, 0)
            &&& forall|d: int, i: int| 0 <= d < MAX_KILLER_DEPTH && d != depth && 0 <= i < 2
                ==> #[trigger] final(killers).killer(d, i) == old(killers).killer(d, i)
        },
{
    if m.is_none() {
        return;
    }
    if depth >= MAX_KILLER_DEPTH {
        return;
    }
    let first = killers.slots[2 * depth];
    if m != first {
        killers.slots.set(2 * depth + 1, first);
        killers.slots.set(2 * depth, m);
    }
}

/// `SCORE_KILLER` when `m` is a killer at `depth`, else 0.
pub fn killer_bonus(killers: &KillerTable, m: Move, depth: usize) -> (r: i32)
    requires
        killers.wf(),
    ensures
        r == (if depth < MAX_KILLER_DEPTH && (killers.killer(depth as int, 0) == m || killers.killer(depth as int, 1) == m) {
            SCORE_KILLER
        } else {
            0
        }),
{
    if depth >= MAX_KILLER_DEPTH {
        return 0;
    }
    if killers.slots[2 * depth] == m || killers.slots[2 * depth + 1] == m {
        SCORE_KILLER
    } else {
        0
    }
}

} // verus!
