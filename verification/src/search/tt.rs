//! Transposition table: two-slot buckets indexed by the position key, with
//! generation-aware, work-weighted replacement.

use vstd::prelude::*;

use crate::moves::Move;
use crate::position::Outcome;
use crate::zobrist::INF;

verus! {

/// A small read-only copy of the fields the search hot path uses.
#[derive(Clone, Copy, Debug)]
pub struct TtSummary {
    pub best_move: Move,
    pub best_child: u8,
    pub work: u64,
    pub outcome: Option<Outcome>,
    pub pn: u64,
    pub dn: u64,
    pub depth: u32,
    pub remaining_depth: u32,
}

/// One table slot.
#[derive(Clone, Copy, Debug)]
pub struct TtEntry {
    pub key: u64,
    pub valid: bool,
    pub generation: u32,
    pub best_move: Move,
    /// Index of the best child in generator order; `u8::MAX` when unknown.
    pub best_child: u8,
    /// Cumulative child evaluations spent under this subtree.
    pub work: u64,
    pub outcome: Option<Outcome>,
    pub pn: u64,
    pub dn: u64,
    pub depth: u32,
    pub remaining_depth: u32,
}

/// A cached result: the move to play and the proven depth.
#[derive(Clone, Copy, Debug, PartialEq, Eq, Structural)]
pub struct EntryResult {
    pub best_move: Move,
    pub depth: u32,
}

pub open spec fn spec_empty_entry() -> TtEntry {
    TtEntry {
        key: 0,
        valid: false,
        generation: 0,
        best_move: Move::spec_none(),
        best_child: u8::MAX,
        work: 0,
        outcome: None,
        pn: 1,
        dn: 1,
        depth: 0,
        remaining_depth: 0,
    }
}

impl TtEntry {
    /// An empty, invalid slot.
    pub fn empty() -> (r: TtEntry)
        ensures
            r == spec_empty_entry(),
    {
        TtEntry {
            key: 0,
            valid: false,
            generation: 0,
            best_move: Move::none(),
            best_child: u8::MAX,
            work: 0,
            outcome: None,
            pn: 1,
            dn: 1,
            depth: 0,
            remaining_depth: 0,
        }
    }

    /// The stored result if the entry holds outcome `expected`.
    pub fn result_for(&self, expected: Outcome) -> (r: Option<EntryResult>)
        ensures
            r == (if self.outcome == Some(expected) {
                Some(EntryResult { best_move: self.best_move, depth: self.depth })
            } else {
                None
            }),
    {
        if self.outcome == Some(expected) {
            Some(EntryResult { best_move: self.best_move, depth: self.depth })
        } else {
            None
        }
    }

    /// The stored result if the entry holds outcome `expected` at exactly
    /// depth `remaining`.
    pub fn result_for_depth(&self, expected: Outcome, remaining: u32) -> (r: Option<EntryResult>)
        ensures
            r == (if self.outcome == Some(expected) && self.depth == remaining {
                Some(EntryResult { best_move: self.best_move, depth: self.depth })
            } else {
                None
            }),
    {
        if self.outcome == Some(expected) && self.depth == remaining {
            Some(EntryResult { best_move: self.best_move, depth: self.depth })
        } else {
            None
        }
    }

    /// Best move, outcome and depth, when the entry is solved.
    pub fn best_result(&self) -> (r: Option<(Move, Outcome, u32)>)
        ensures
            r == (match self.outcome {
                Some(o) => Some((self.best_move, o, self.depth)),
                None => None,
            }),
    {
        match self.outcome {
            Some(o) => Some((self.best_move, o, self.depth)),
            None => None,
        }
    }
}

impl Default for TtEntry {
    fn default() -> (r: TtEntry)
        ensures
            r == spec_empty_entry(),
    {
        TtEntry::empty()
    }
}

/// Whether slot `e` belongs to generation `generation`.
pub open spec fn spec_live(e: TtEntry, generation: u32) -> bool {
    e.valid && e.generation == generation
}

/// Whether slot `e` is the live entry of `key`.
pub open spec fn spec_matches(e: TtEntry, key: u64, generation: u32) -> bool {
    spec_live(e, generation) && e.key == key
}

/// Bounds as stored: clamped to `INF`; an unsolved `(INF, INF)` pair is
/// replaced by the neutral `(1, 1)`.
pub open spec fn spec_stored_bounds(outcome: Option<Outcome>, pn: u64, dn: u64) -> (u64, u64) {
    let p = if pn < INF { pn } else { INF };
    let d = if dn < INF { dn } else { INF };
    if outcome is None && p == INF && d == INF {
        (1u64, 1u64)
    } else {
        (p, d)
    }
}

/// The arguments of one `store` call.
pub struct StoreRequest {
    pub key: u64,
    pub best_move: Move,
    pub best_child: u8,
    pub work: u64,
    pub outcome: Option<Outcome>,
    pub pn: u64,
    pub dn: u64,
    pub depth: u32,
    pub remaining_depth: u32,
}

/// The existing live entry of the key after a store: the work only grows; a
/// solved result overwrites; unsolved bounds overwrite only an unsolved
/// entry.
pub open spec fn spec_update_existing(e: TtEntry, q: StoreRequest) -> TtEntry {
    let (p, d) = spec_stored_bounds(q.outcome, q.pn, q.dn);
    let w = if e.work >= q.work { e.work } else { q.work };
    if q.outcome is Some || e.outcome is None {
        TtEntry {
            work: w,
            best_move: q.best_move,
            best_child: q.best_child,
            outcome: q.outcome,
            pn: p,
            dn: d,
            depth: q.depth,
            remaining_depth: q.remaining_depth,
            ..e
        }
    } else {
        TtEntry { work: w, ..e }
    }
}

/// A fresh live entry for the request.
pub open spec fn spec_new_entry(q: StoreRequest, generation: u32) -> TtEntry {
    let (p, d) = spec_stored_bounds(q.outcome, q.pn, q.dn);
    TtEntry {
        key: q.key,
        valid: true,
        generation,
        best_move: q.best_move,
        best_child: q.best_child,
        work: q.work,
        outcome: q.outcome,
        pn: p,
        dn: d,
        depth: q.depth,
        remaining_depth: q.remaining_depth,
    }
}

/// Replacement order: live before stale, solved before unsolved, then more
/// work, then newer generation. `spec_keep_less(a, b)` holds when `a` is
/// strictly less valuable than `b`.
pub open spec fn spec_keep_less(a: TtEntry, b: TtEntry, generation: u32) -> bool {
    let la = spec_live(a, generation);
    let lb = spec_live(b, generation);
    let sa = a.outcome is Some;
    let sb = b.outcome is Some;
    if la != lb {
        !la
    } else if sa != sb {
        !sa
    } else if a.work != b.work {
        a.work < b.work
    } else {
        a.generation < b.generation
    }
}

/// The bucket `(s0, s1)` after storing request `q`.
pub open spec fn spec_bucket_after_store(s0: TtEntry, s1: TtEntry, q: StoreRequest, generation: u32) -> (TtEntry, TtEntry) {
    if spec_matches(s0, q.key, generation) {
        (spec_update_existing(s0, q), s1)
    } else if spec_matches(s1, q.key, generation) {
        (s0, spec_update_existing(s1, q))
    } else if !spec_live(s0, generation) {
        (spec_new_entry(q, generation), s1)
    } else if !spec_live(s1, generation) {
        (s0, spec_new_entry(q, generation))
    } else if spec_keep_less(s0, s1, generation) {
        (spec_new_entry(q, generation), s1)
    } else {
        (s0, spec_new_entry(q, generation))
    }
}

/// The live entry of `key` in bucket `(s0, s1)`, first slot first.
pub open spec fn spec_bucket_probe(s0: TtEntry, s1: TtEntry, key: u64, generation: u32) -> Option<TtEntry> {
    if spec_matches(s0, key, generation) {
        Some(s0)
    } else if spec_matches(s1, key, generation) {
        Some(s1)
    } else {
        None
    }
}

/// A hash table of two-slot buckets.
pub struct TranspositionTable {
    table: Vec<TtEntry>,
    mask: usize,
    current_generation: u32,
}

impl TranspositionTable {
    /// The table has `mask + 1` buckets of two slots, stored side by side.
    pub closed spec fn wf(self) -> bool {
        &&& self.table.len() == 2 * (self.mask + 1)
        &&& self.mask < usize::MAX / 4
    }

    pub closed spec fn bucket_count(self) -> nat {
        (self.mask + 1) as nat
    }

    pub closed spec fn generation(self) -> u32 {
        self.current_generation
    }

    /// The bucket of `key`.
    pub closed spec fn bucket_of(self, key: u64) -> int {
        (key & (self.mask as u64)) as int
    }

    pub closed spec fn slot(self, bucket: int, i: int) -> TtEntry {
        self.table@[2 * bucket + i]
    }

    /// All slots in bucket order.
    pub closed spec fn slots(self) -> Seq<TtEntry> {
        self.table@
    }

    /// A well-formed table has two slots per bucket, fewer than `usize::MAX`.
    pub proof fn lemma_slot_count(self)
        requires
            self.wf(),
        ensures
            self.slots().len() == 2 * self.bucket_count(),
            self.slots().len() < usize::MAX,
    {
    }

    /// What a probe finds is one of the table's slots.
    pub proof fn lemma_probe_is_slot(self, key: u64)
        requires
            self.wf(),
        ensures
            self.spec_probe(key) matches Some(e) ==> exists|i: int| 0 <= i < self.slots().len() && #[trigger] self.slots()[i] == e,
    {
        self.lemma_bucket_in_range(key);
        let b = self.bucket_of(key);
        assert(self.slots()[2 * b] == self.slot(b, 0));
        assert(self.slots()[2 * b + 1] == self.slot(b, 1));
    }

    /// What a probe of `key` finds.
    pub open spec fn spec_probe(self, key: u64) -> Option<TtEntry> {
        spec_bucket_probe(self.slot(self.bucket_of(key), 0), self.slot(self.bucket_of(key), 1), key, self.generation())
    }

    proof fn lemma_bucket_in_range(self, key: u64)
        requires
            self.wf(),
        ensures
            0 <= self.bucket_of(key) <= self.mask,
            0 <= 2 * self.bucket_of(key) + 1 < self.table.len(),
    {
        let m = self.mask as u64;
        assert(key & m <= m) by (bit_vector);
    }

    fn with_buckets(buckets: usize) -> (t: TranspositionTable)
        requires
            1 <= buckets,
            buckets - 1 < usize::MAX / 4,
        ensures
            t.wf(),
            t.bucket_count() == buckets,
            t.generation() == 1,
            forall|i: int| 0 <= i < t.slots().len() ==> #[trigger] t.slots()[i] == spec_empty_entry(),
    {
        let mut table: Vec<TtEntry> = Vec::new();
        let n = buckets * 2;
        let mut i: usize = 0;
        while i < n
            invariant
                i <= n,
                n == buckets * 2,
                table.len() == i,
                forall|j: int| 0 <= j < i ==> #[trigger] table@[j] == spec_empty_entry(),
            decreases n - i,
        {
            table.push(TtEntry::empty());
            i += 1;
        }
        TranspositionTable { table, mask: buckets - 1, current_generation: 1 }
    }

    /// A table with at least `buckets` buckets (rounded up to a power of two).
    pub fn with_capacity(buckets: usize) -> (t: TranspositionTable)
        requires
            buckets < usize::MAX / 8,
        ensures
            t.wf(),
            t.bucket_count() >= buckets,
            t.generation() == 1,            forall|i: int| 0 <= i < t.slots().len() ==> #[trigger] t.slots()[i] == spec_empty_entry(),
            forall|k: u64| #[trigger] t.spec_probe(k) is None,
    {
        let b = next_power_of_two(if buckets == 0 { 1 } else { buckets });
        let t = Self::with_buckets(b);
        proof {
            t.lemma_empty_probes();
        }
        t
    }

    /// A table sized to `mb` megabytes of slots (at least 32 slots).
    pub fn with_mb(mb: usize) -> (t: TranspositionTable)
        ensures
            t.wf(),
            t.bucket_count() >= 16,
            t.generation() == 1,            forall|i: int| 0 <= i < t.slots().len() ==> #[trigger] t.slots()[i] == spec_empty_entry(),
            forall|k: u64| #[trigger] t.spec_probe(k) is None,
    {
        let bytes = if mb > usize::MAX / (1024 * 1024) { usize::MAX } else { mb * (1024 * 1024) };
        let size = core::mem::size_of::<TtEntry>();
        let size = if size == 0 { 1 } else { size };
        let wanted = bytes / size;
        let capped = if wanted > usize::MAX / 16 { usize::MAX / 16 } else { wanted };
        let entries = next_power_of_two(capped);
        let entries = if entries < 32 { 32 } else { entries };
        let buckets = entries / 2;
        let t = Self::with_buckets(buckets);
        proof {
            t.lemma_empty_probes();
        }
        t
    }

    /// A table whose slots are all empty finds nothing.
    pub proof fn lemma_empty_probes(self)
        requires
            self.wf(),
            forall|i: int| 0 <= i < self.slots().len() ==> #[trigger] self.slots()[i] == spec_empty_entry(),
        ensures
            forall|k: u64| #[trigger] self.spec_probe(k) is None,
    {
        assert forall|k: u64| #[trigger] self.spec_probe(k) is None by {
            self.lemma_bucket_in_range(k);
            let b = self.bucket_of(k);
            assert(self.slots()[2 * b] == spec_empty_entry());
            assert(self.slots()[2 * b + 1] == spec_empty_entry());
        }
    }

    fn index(&self, key: u64) -> (r: usize)
        requires
            self.wf(),
        ensures
            r == self.bucket_of(key),
            2 * r + 1 < self.table.len(),
    {
        proof {
            self.lemma_bucket_in_range(key);
        }
        (key & (self.mask as u64)) as usize
    }

    /// The live entry stored for `key`, if any.
    pub fn probe(&self, key: u64) -> (r: Option<&TtEntry>)
        requires
            self.wf(),
        ensures
            r is Some <==> self.spec_probe(key) is Some,
            r is Some ==> *r->0 == self.spec_probe(key)->0,
    {
        let idx = self.index(key);
        let g = self.current_generation;
        let e0 = &self.table[2 * idx];
        if e0.valid && e0.key == key && e0.generation == g {
            return Some(e0);
        }
        let e1 = &self.table[2 * idx + 1];
        if e1.valid && e1.key == key && e1.generation == g {
            return Some(e1);
        }
        None
    }

    /// A copy of the hot-path fields of the entry for `key`.
    pub fn probe_summary(&self, key: u64) -> (r: Option<TtSummary>)
        requires
            self.wf(),
        ensures
            r == (match self.spec_probe(key) {
                Some(e) => Some(TtSummary {
                    best_move: e.best_move,
                    best_child: e.best_child,
                    work: e.work,
                    outcome: e.outcome,
                    pn: e.pn,
                    dn: e.dn,
                    depth: e.depth,
                    remaining_depth: e.remaining_depth,
                }),
                None => None,
            }),
    {
        match self.probe(key) {
            Some(e) => Some(TtSummary {
                best_move: e.best_move,
                best_child: e.best_child,
                work: e.work,
                outcome: e.outcome,
                pn: e.pn,
                dn: e.dn,
                depth: e.depth,
                remaining_depth: e.remaining_depth,
            }),
            None => None,
        }
    }

    /// The stored best move of `key`: always for solved entries (possibly the
    /// sentinel for terminal positions), and for unsolved entries that
    /// already prefer a move.
    pub fn probe_best_move(&self, key: u64) -> (r: Option<Move>)
        requires
            self.wf(),
        ensures
            r == (match self.spec_probe(key) {
                Some(e) => if e.outcome is Some || e.best_move != Move::spec_none() {
                    Some(e.best_move)
                } else {
                    None
                },
                None => None,
            }),
    {
        match self.probe(key) {
            Some(e) => {
                if e.outcome.is_some() || !e.best_move.is_none() {
                    Some(e.best_move)
                } else {
                    None
                }
            },
            None => None,
        }
    }

    /// Empty every slot and restart at generation 1.
    pub fn clear(&mut self)
        requires
            old(self).wf(),
        ensures
            final(self).wf(),
            final(self).bucket_count() == old(self).bucket_count(),
            final(self).generation() == 1,
            forall|i: int| 0 <= i < final(self).slots().len() ==> #[trigger] final(self).slots()[i] == spec_empty_entry(),
            forall|k: u64| #[trigger] final(self).spec_probe(k) is None,
    {
        let n = self.table.len();
        let mut i: usize = 0;
        while i < n
            invariant
                i <= n,
                n == self.table.len(),
                self.table.len() == old(self).table.len(),
                self.mask == old(self).mask,
                forall|j: int| 0 <= j < i ==> #[trigger] self.table@[j] == spec_empty_entry(),
            decreases n - i,
        {
            self.table.set(i, TtEntry::empty());
            i += 1;
        }
        self.current_generation = 1;
        proof {
            self.lemma_empty_probes();
        }
    }

    /// Age every entry into an older generation; on wrap-around the table
    /// is cleared.
    pub fn new_generation(&mut self)
        requires
            old(self).wf(),
        ensures
            final(self).wf(),
            final(self).bucket_count() == old(self).bucket_count(),
            old(self).generation() < u32::MAX ==> final(self).generation() == old(self).generation() + 1
                && final(self).slots() == old(self).slots(),
            old(self).generation() == u32::MAX ==> final(self).generation() == 1,
    {
        if self.current_generation == u32::MAX {
            self.clear();
        } else {
            self.current_generation = self.current_generation + 1;
        }
    }

    /// The generation that probes currently accept.
    pub fn current_generation(&self) -> (r: u32)
        ensures
            r == self.generation(),
    {
        self.current_generation
    }

    /// All slots, in bucket order (both slots of bucket 0, then bucket 1, ...).
    pub fn entries(&self) -> (r: &[TtEntry])
        ensures
            r@ == self.slots(),
    {
        self.table.as_slice()
    }

    /// Record a result for `key`.
    #[allow(clippy::too_many_arguments)]
    pub fn store(
        &mut self,
        key: u64,
        best_move: Move,
        best_child: u8,
        work: u64,
        outcome: Option<Outcome>,
        pn: u64,
        dn: u64,
        depth: u32,
        remaining_depth: u32,
    )
        requires
            old(self).wf(),
        ensures
            final(self).wf(),
            final(self).bucket_count() == old(self).bucket_count(),
            final(self).generation() == old(self).generation(),
            ({
                let q = StoreRequest { key, best_move, best_child, work, outcome, pn, dn, depth, remaining_depth };
                let b = old(self).bucket_of(key);
                let after = spec_bucket_after_store(old(self).slot(b, 0), old(self).slot(b, 1), q, old(self).generation());
                final(self).slots() == old(self).slots().update(2 * b, after.0).update(2 * b + 1, after.1)
            }),
    {
        let ghost q = StoreRequest { key, best_move, best_child, work, outcome, pn, dn, depth, remaining_depth };
        let mut pn = if pn < INF { pn } else { INF };
        let mut dn = if dn < INF { dn } else { INF };
        if outcome.is_none() && pn == INF && dn == INF {
            pn = 1;
            dn = 1;
        }
        let idx = self.index(key);
        let g = self.current_generation;
        let s0 = self.table[2 * idx];
        let s1 = self.table[2 * idx + 1];
        let m0 = s0.valid && s0.key == key && s0.generation == g;
        let m1 = s1.valid && s1.key == key && s1.generation == g;
        if m0 || m1 {
            let slot_idx = if m0 { 2 * idx } else { 2 * idx + 1 };
            let mut e = if m0 { s0 } else { s1 };
            e.work = if e.work >= work { e.work } else { work };
            if outcome.is_some() || e.outcome.is_none() {
                e.best_move = best_move;
                e.best_child = best_child;
                e.outcome = outcome;
                e.pn = pn;
                e.dn = dn;
                e.depth = depth;
                e.remaining_depth = remaining_depth;
            }
            self.table.set(slot_idx, e);
            return;
        }
        let new = TtEntry {
            key,
            valid: true,
            generation: g,
            best_move,
            best_child,
            work,
            outcome,
            pn,
            dn,
            depth,
            remaining_depth,
        };
        self.insert_new(idx, new);
    }

    /// Place a fresh entry in bucket `idx`: into a stale slot when there is
    /// one, otherwise over the less valuable of the two.
    fn insert_new(&mut self, idx: usize, new: TtEntry)
        requires
            old(self).wf(),
            2 * idx + 1 < old(self).table.len(),
        ensures
            final(self).wf(),
            final(self).mask == old(self).mask,
            final(self).current_generation == old(self).current_generation,
            ({
                let g = old(self).current_generation;
                let s0 = old(self).table@[2 * idx];
                let s1 = old(self).table@[2 * idx + 1];
                final(self).table@ == (if !spec_live(s0, g) {
                    old(self).table@.update(2 * idx, new)
                } else if !spec_live(s1, g) {
                    old(self).table@.update(2 * idx + 1, new)
                } else if spec_keep_less(s0, s1, g) {
                    old(self).table@.update(2 * idx, new)
                } else {
                    old(self).table@.update(2 * idx + 1, new)
                })
            }),
    {
        let g = self.current_generation;
        let s0 = self.table[2 * idx];
        let s1 = self.table[2 * idx + 1];
        if !s0.valid || s0.generation != g {
            self.table.set(2 * idx, new);
        } else if !s1.valid || s1.generation != g {
            self.table.set(2 * idx + 1, new);
        } else if keep_less(&s0, &s1, g) {
            self.table.set(2 * idx, new);
        } else {
            self.table.set(2 * idx + 1, new);
        }
    }

    /// Aggregate statistics: `(buckets, live, solved, unsolved, generation)`.
    pub fn stats(&self) -> (r: (usize, usize, usize, usize, u32))
        requires
            self.wf(),
        ensures
            r.0 == self.bucket_count(),
            r.1 == spec_count_live(self.slots(), self.generation()),
            r.2 == spec_count_solved(self.slots(), self.generation()),
            r.3 == r.1 - r.2,
            r.4 == self.generation(),
    {
        let g = self.current_generation;
        let mut live: usize = 0;
        let mut solved: usize = 0;
        let mut i: usize = 0;
        while i < self.table.len()
            invariant
                i <= self.table.len(),
                live == spec_count_live(self.table@.take(i as int), g),
                solved == spec_count_solved(self.table@.take(i as int), g),
                solved <= live <= i,
            decreases self.table.len() - i,
        {
            let e = self.table[i];
            proof {
                assert(self.table@.take(i + 1).drop_last() =~= self.table@.take(i as int));
            }
            if e.valid && e.generation == g {
                live += 1;
                if e.outcome.is_some() {
                    solved += 1;
                }
            }
            i += 1;
        }
        proof {
            assert(self.table@.take(self.table.len() as int) =~= self.table@);
        }
        (self.table.len() / 2, live, solved, live - solved, g)
    }
}

/// Number of live slots in `s`.
pub open spec fn spec_count_live(s: Seq<TtEntry>, generation: u32) -> nat
    decreases s.len(),
{
    if s.len() == 0 {
        0
    } else {
        spec_count_live(s.drop_last(), generation) + (if spec_live(s.last(), generation) { 1nat } else { 0nat })
    }
}

/// Number of live solved slots in `s`.
pub open spec fn spec_count_solved(s: Seq<TtEntry>, generation: u32) -> nat
    decreases s.len(),
{
    if s.len() == 0 {
        0
    } else {
        spec_count_solved(s.drop_last(), generation) + (if spec_live(s.last(), generation) && s.last().outcome is Some {
            1nat
        } else {
            0nat
        })
    }
}

fn keep_less(a: &TtEntry, b: &TtEntry, generation: u32) -> (r: bool)
    ensures
        r == spec_keep_less(*a, *b, generation),
{
    let la = a.valid && a.generation == generation;
    let lb = b.valid && b.generation == generation;
    let sa = a.outcome.is_some();
    let sb = b.outcome.is_some();
    if la != lb {
        !la
    } else if sa != sb {
        !sa
    } else if a.work != b.work {
        a.work < b.work
    } else {
        a.generation < b.generation
    }
}

/// Whether `x` is a power of two.
pub open spec fn spec_is_power_of_two(x: nat) -> bool
    decreases x,
{
    if x == 1 {
        true
    } else if x < 2 || x % 2 != 0 {
        false
    } else {
        spec_is_power_of_two(x / 2)
    }
}

/// The smallest power of two that is at least `x` (1 for 0).
pub fn next_power_of_two(x: usize) -> (r: usize)
    requires
        x <= usize::MAX / 4,
    ensures
        r >= x,
        r >= 1,
        r <= 2 * x || x == 0,
        spec_is_power_of_two(r as nat),
        r <= usize::MAX / 2,
{
    let mut p: usize = 1;
    while p < x
        invariant
            1 <= p,
            p < 2 * x || p == 1,
            spec_is_power_of_two(p as nat),
            x <= usize::MAX / 4,
        decreases usize::MAX - p,
    {
        proof {
            assert((2 * p) as nat / 2 == p as nat);
        }
        p = p * 2;
    }
    p
}

/// A store followed by a probe of the same key finds the stored entry: a
/// solved request's outcome, move, bounds and depths are what the probe
/// reports, and an unsolved request never overwrites a solved entry.
pub proof fn lemma_store_then_probe(
    before: TranspositionTable,
    after: TranspositionTable,
    q: StoreRequest,
)
    requires
        before.wf(),
        after.wf(),
        after.bucket_count() == before.bucket_count(),
        after.generation() == before.generation(),
        ({
            let b = before.bucket_of(q.key);
            let r = spec_bucket_after_store(before.slot(b, 0), before.slot(b, 1), q, before.generation());
            after.slots() == before.slots().update(2 * b, r.0).update(2 * b + 1, r.1)
        }),
    ensures
        after.spec_probe(q.key) is Some,
        after.spec_probe(q.key)->0.key == q.key,
        q.outcome is Some ==> {
            let e = after.spec_probe(q.key)->0;
            let (p, d) = spec_stored_bounds(q.outcome, q.pn, q.dn);
            &&& e.outcome == q.outcome
            &&& e.best_move == q.best_move
            &&& e.best_child == q.best_child
            &&& e.pn == p
            &&& e.dn == d
            &&& e.depth == q.depth
            &&& e.remaining_depth == q.remaining_depth
            &&& e.work >= q.work
        },
        (q.outcome is None && before.spec_probe(q.key) is Some && before.spec_probe(q.key)->0.outcome is Some) ==> {
            let e = after.spec_probe(q.key)->0;
            let old_e = before.spec_probe(q.key)->0;
            &&& e.outcome == old_e.outcome
            &&& e.best_move == old_e.best_move
            &&& e.depth == old_e.depth
        },
{
    before.lemma_bucket_in_range(q.key);
    let b = before.bucket_of(q.key);
    assert(after.bucket_of(q.key) == b);
    assert(after.slot(b, 0) == after.slots()[2 * b]);
    assert(after.slot(b, 1) == after.slots()[2 * b + 1]);
}


/// Number of live slots of `s` whose remembered child index is `c`.
pub open spec fn spec_count_best_child(s: Seq<TtEntry>, generation: u32, c: u8) -> nat
    decreases s.len(),
{
    if s.len() == 0 {
        0
    } else {
        spec_count_best_child(s.drop_last(), generation, c) + (if spec_live(s.last(), generation) && s.last().best_child == c {
            1nat
        } else {
            0nat
        })
    }
}

/// `(code, count)` pairs: larger counts first, then smaller codes.
pub open spec fn spec_count_before(a: (u8, usize), b: (u8, usize)) -> bool {
    a.1 > b.1 || (a.1 == b.1 && a.0 < b.0)
}

proof fn lemma_count_best_child_le(s: Seq<TtEntry>, generation: u32, c: u8)
    ensures
        spec_count_best_child(s, generation, c) <= s.len(),
    decreases s.len(),
{
    if s.len() > 0 {
        lemma_count_best_child_le(s.drop_last(), generation, c);
    }
}

impl TranspositionTable {
    /// How often each remembered child index (other than the `255`
    /// sentinel) occurs among live entries: `(index, count)` for every
    /// index that occurs, most frequent first, ties by smaller index.
    pub fn best_child_counts(&self) -> (r: Vec<(u8, usize)>)
        requires
            self.wf(),
        ensures
            forall|i: int| 0 <= i < r.len() ==> (#[trigger] r@[i]).0 != 255 && r@[i].1 > 0
                && r@[i].1 == spec_count_best_child(self.slots(), self.generation(), r@[i].0),
            forall|c: u8| c != 255 && spec_count_best_child(self.slots(), self.generation(), c) > 0 ==> exists|i: int|
                0 <= i < r.len() && (#[trigger] r@[i]).0 == c,
            forall|i: int, j: int| 0 <= i < j < r.len() ==> spec_count_before(#[trigger] r@[i], #[trigger] r@[j]),
    {
        let g = self.current_generation;
        let mut counts: Vec<usize> = Vec::new();
        let mut c: usize = 0;
        while c < 256
            invariant
                c <= 256,
                counts.len() == c,
                forall|k: int| 0 <= k < c ==> counts@[k] == 0,
            decreases 256 - c,
        {
            counts.push(0);
            c += 1;
        }
        let mut i: usize = 0;
        while i < self.table.len()
            invariant
                i <= self.table.len(),
                counts.len() == 256,
                forall|k: int| 0 <= k < 256 ==> #[trigger] counts@[k] == spec_count_best_child(self.table@.take(i as int), g, k as u8),
                forall|k: int| 0 <= k < 256 ==> #[trigger] counts@[k] <= i,
            decreases self.table.len() - i,
        {
            let e = self.table[i];
            proof {
                assert(self.table@.take(i + 1).drop_last() =~= self.table@.take(i as int));
            }
            if e.valid && e.generation == g {
                let b = e.best_child as usize;
                counts.set(b, counts[b] + 1);
            }
            i += 1;
        }
        proof {
            assert(self.table@.take(self.table.len() as int) =~= self.table@);
        }
        // Occurring indices by increasing index, then a stable insertion
        // sort by decreasing count.
        let mut v: Vec<(u8, usize)> = Vec::new();
        let mut k: usize = 0;
        while k < 255
            invariant
                k <= 255,
                counts.len() == 256,
                forall|t: int| 0 <= t < 256 ==> #[trigger] counts@[t] == spec_count_best_child(self.slots(), g, t as u8),
                forall|t: int| 0 <= t < v.len() ==> (#[trigger] v@[t]).0 < k && v@[t].1 > 0 && v@[t].1 == counts@[v@[t].0 as int],
                forall|a: int, b: int| 0 <= a < b < v.len() ==> (#[trigger] v@[a]).0 < (#[trigger] v@[b]).0,
                forall|t: int| 0 <= t < k && counts@[t] > 0 ==> exists|i: int| 0 <= i < v.len() && (#[trigger] v@[i]).0 == t,
                g == self.generation(),
            decreases 255 - k,
        {
            if counts[k] > 0 {
                let ghost before = v@;
                v.push((k as u8, counts[k]));
                proof {
                    assert forall|t: int| 0 <= t < k + 1 && counts@[t] > 0 implies exists|i: int| 0 <= i < v.len() && (#[trigger] v@[i]).0 == t by {
                        if t < k {
                            let i = choose|i: int| 0 <= i < before.len() && (#[trigger] before[i]).0 == t;
                            assert(v@[i] == before[i]);
                        } else {
                            assert(v@[v.len() - 1].0 == t);
                        }
                    }
                }
            }
            k += 1;
        }
        let n = v.len();
        let mut i2: usize = 1;
        while i2 < n
            invariant
                n == v.len(),
                counts.len() == 256,
                forall|t: int| 0 <= t < 256 ==> #[trigger] counts@[t] == spec_count_best_child(self.slots(), g, t as u8),
                forall|t: int| 0 <= t < n ==> (#[trigger] v@[t]).0 < 255 && v@[t].1 > 0 && v@[t].1 == counts@[v@[t].0 as int],
                forall|a: int, b: int| 0 <= a < n && 0 <= b < n && a != b ==> (#[trigger] v@[a]).0 != (#[trigger] v@[b]).0,
                forall|t: int| 0 <= t < 255 && counts@[t] > 0 ==> exists|i: int| 0 <= i < n && (#[trigger] v@[i]).0 == t,
                forall|a: int, b: int| 0 <= a < b < i2 && b < n ==> spec_count_before(#[trigger] v@[a], #[trigger] v@[b]),
                g == self.generation(),
            decreases n - i2,
        {
            let mut j = i2;
            while j > 0 && (v[j].1 > v[j - 1].1 || (v[j].1 == v[j - 1].1 && v[j].0 < v[j - 1].0))
                invariant
                    n == v.len(),
                    0 <= j <= i2 < n,
                    counts.len() == 256,
                    forall|t: int| 0 <= t < n ==> (#[trigger] v@[t]).0 < 255 && v@[t].1 > 0 && v@[t].1 == counts@[v@[t].0 as int],
                    forall|a: int, b: int| 0 <= a < n && 0 <= b < n && a != b ==> (#[trigger] v@[a]).0 != (#[trigger] v@[b]).0,
                    forall|t: int| 0 <= t < 255 && counts@[t] > 0 ==> exists|i: int| 0 <= i < n && (#[trigger] v@[i]).0 == t,
                    forall|a: int, b: int| 0 <= a < b <= i2 && a != j && b != j ==> spec_count_before(#[trigger] v@[a], #[trigger] v@[b]),
                    forall|b: int| j < b <= i2 ==> spec_count_before(v@[j as int], #[trigger] v@[b]),
                decreases j,
            {
                let x = v[j];
                let y = v[j - 1];
                let ghost before = v@;
                v.set(j, y);
                v.set(j - 1, x);
                proof {
                    assert forall|t: int| 0 <= t < 255 && counts@[t] > 0 implies exists|i: int| 0 <= i < n && (#[trigger] v@[i]).0 == t by {
                        let u = choose|u: int| 0 <= u < n && (#[trigger] before[u]).0 == t;
                        if u == j as int {
                            assert(v@[j - 1].0 == t);
                        } else if u == j - 1 {
                            assert(v@[j as int].0 == t);
                        } else {
                            assert(v@[u].0 == t);
                        }
                    }
                }
                j = j - 1;
            }
            proof {
                assert forall|a: int, b: int| 0 <= a < b < i2 + 1 && b < n implies spec_count_before(#[trigger] v@[a], #[trigger] v@[b]) by {
                    if a == j as int {
                    } else if b == j as int {
                        if a < j && j > 0 {
                            assert(spec_count_before(v@[a], v@[j - 1]) || a == j - 1);
                        }
                    }
                }
            }
            i2 += 1;
        }
        proof {
            assert forall|c: u8| c != 255 && spec_count_best_child(self.slots(), self.generation(), c) > 0 implies exists|i: int|
                0 <= i < v.len() && (#[trigger] v@[i]).0 == c by {
                assert(counts@[c as int] == spec_count_best_child(self.slots(), g, ((c as int) as u8)));
                assert(counts@[c as int] > 0);
            }
        }
        v
    }
}
} // verus!
