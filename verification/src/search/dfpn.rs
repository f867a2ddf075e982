//! Sequential DF-PN+ solver for atomic chess.
//!
//! The search keeps a transposition table of proof and disproof numbers,
//! expands the most-proving child of each node under thresholds, and treats
//! a repetition of the current path as a draw. Work is bounded by wall time,
//! a stop flag, a memory flag and a budget of child evaluations; the work
//! chunks of `bounded_search` grow until a decisive result or exhaustion.

use std::sync::atomic::AtomicBool;
use std::sync::Arc;

use vstd::prelude::*;

use crate::movegen::{self, spec_after_move, spec_checkers, spec_key_index, spec_legal_moves, spec_mask, spec_rule50_index, spec_side};
use crate::moves::{spec_from_sq, spec_to_sq, Color, Move, PieceType};
use crate::position::{moves_contain, spec_contents_outcome, spec_popcount, spec_replay, Outcome, Position};
use crate::zobrist::spec_rule50_key;
use crate::proof_event::{NodeProven, ProofEvent};
use crate::search::history::{
    age_history, killer_bonus, update_history_entry, update_killer_slots, HistoryTable, KillerTable,
    HISTORY_AGE_INTERVAL, HISTORY_BONUS, HISTORY_MAX, MAX_KILLER_DEPTH, SCORE_KILLER,
};
use crate::search::ordering::{
    board_snapshot, move_facts, nearest_map_from, sort_by_score, spec_is_reordering, spec_reorders, StaticAtomicScorer,
};
use crate::search::selection::{select_from_children, ChildInfo, ChildSelection};
use crate::search::signals;
use crate::search::tt::{
    lemma_store_then_probe, spec_bucket_after_store, spec_count_before, spec_count_best_child, spec_count_live, spec_count_solved, StoreRequest,
    TranspositionTable, TtEntry,
};
use crate::zobrist::INF;

verus! {

/// Default threshold growth `1 + epsilon` as a fraction: `9 / 8`.
pub const DEFAULT_EPSILON_NUM: u64 = 9;

pub const DEFAULT_EPSILON_DEN: u64 = 8;

/// Default wall-time budget in seconds.
pub const TIMEOUT_SECS: u64 = 5;

/// Default cap on the length of an extracted line.
pub const DEFAULT_MAX_PV_PLIES: usize = 1000;

/// Default refinement cap factor `1 / 4`.
pub const DEFAULT_REFINE_CAP_NUM: u64 = 1;

pub const DEFAULT_REFINE_CAP_DEN: u64 = 4;

/// Floor of the per-round child-evaluation cap of a refinement round.
pub const MIN_REFINE_ROUND_EVALS: u64 = 1_000_000;

/// Why the search stopped.
#[derive(Clone, Copy, Debug, PartialEq, Eq, Structural)]
pub enum ExitReason {
    Timeout,
    Quit,
    MemoryLimit,
    BudgetExhausted,
    Complete,
}

impl ExitReason {
    /// The reason's name.
    pub fn as_str(self) -> (r: &'static str)
        ensures
            self == ExitReason::Timeout ==> r@ == "Timeout"@,
            self == ExitReason::Quit ==> r@ == "Quit"@,
            self == ExitReason::MemoryLimit ==> r@ == "MemoryLimit"@,
            self == ExitReason::BudgetExhausted ==> r@ == "BudgetExhausted"@,
            self == ExitReason::Complete ==> r@ == "Complete"@,
    {
        match self {
            ExitReason::Timeout => "Timeout",
            ExitReason::Quit => "Quit",
            ExitReason::MemoryLimit => "MemoryLimit",
            ExitReason::BudgetExhausted => "BudgetExhausted",
            ExitReason::Complete => "Complete",
        }
    }
}

/// How the line of the last solve relates to optimality (of its length,
/// within the search's own semantics; the line is never validated here).
#[derive(Clone, Copy, Debug, PartialEq, Eq, Structural)]
pub enum PvStatus {
    /// No decisive outcome, so no line to qualify.
    NoPv,
    /// The line of the first decisive outcome.
    FirstOutcome,
    /// The last refinement round exhausted the tree two plies shorter, or
    /// the win is one move long: no shorter decisive line exists.
    ProvenShortest,
    /// Refinement was cut before it could show that.
    Unproven,
}

/// Why `bounded_search` returned.
#[derive(Clone, Copy, Debug, PartialEq, Eq, Structural)]
pub enum RoundTermination {
    Decisive,
    Exhausted,
    CapCut,
    ResourceCut,
}

/// A solved result read back from the transposition table.
#[derive(Clone, Copy, Debug)]
pub struct Resolved {
    pub outcome: Outcome,
    pub depth: u32,
}

/// The threshold of the second-best child raised by `num / den`, rounded up,
/// at least one more than `x` and at most `INF`.
pub open spec fn spec_epsilon_ceil(x: u64, num: u64, den: u64) -> u64 {
    if x >= INF {
        INF
    } else {
        let scaled = (x * num + den - 1) / (den as int);
        let raised = if scaled >= x + 1 { scaled } else { x + 1 };
        if raised < INF { raised as u64 } else { INF }
    }
}

/// A solved table entry is usable at `max_depth` when it was proven with at
/// least that much depth left and within that many plies.
pub open spec fn spec_resolved_from_entry(e: TtEntry, max_depth: u32) -> Option<Resolved> {
    match e.outcome {
        Some(o) => if e.remaining_depth >= max_depth && e.depth <= max_depth {
            Some(Resolved { outcome: o, depth: e.depth })
        } else {
            None
        },
        None => None,
    }
}

/// Read solved bounds back as an outcome. Only a win (`pn == 0`,
/// `dn == INF`) is unambiguous: a loss and a draw share `(INF, 0)`, so the
/// table's outcome field is the source of truth for those.
pub fn outcome_from_pn_dn(pn: u64, dn: u64) -> (r: Option<Outcome>)
    ensures
        r == (if pn == 0 && dn == INF { Some(Outcome::Win) } else { None::<Outcome> }),
{
    if pn == 0 && dn == INF {
        Some(Outcome::Win)
    } else {
        None
    }
}

/// Greatest common divisor by Euclid's algorithm.
pub open spec fn spec_gcd(a: nat, b: nat) -> nat
    decreases b,
{
    if b == 0 {
        a
    } else {
        spec_gcd(b, a % b)
    }
}

/// Greatest common divisor of `a` and `b` (`gcd(a, 0) == a`).
pub fn gcd(a: u64, b: u64) -> (r: u64)
    ensures
        r == spec_gcd(a as nat, b as nat),
{
    let mut x = a;
    let mut y = b;
    while y != 0
        invariant
            spec_gcd(x as nat, y as nat) == spec_gcd(a as nat, b as nat),
        decreases y,
    {
        let t = x % y;
        x = y;
        y = t;
    }
    x
}

proof fn lemma_gcd_positive(a: nat, b: nat)
    requires
        a > 0 || b > 0,
    ensures
        spec_gcd(a, b) > 0,
    decreases b,
{
    if b > 0 {
        lemma_gcd_positive(b, a % b);
    }
}

/// The biased exponent field of an IEEE-754 double given by its bits.
pub open spec fn spec_exponent_field(bits: u64) -> u64 {
    (bits >> 52u64) & 0x7ff
}

/// The exact value of a double given by its bits, as `(num, den)` with a
/// power-of-two denominator (sign ignored), before reduction.
pub open spec fn spec_fraction_parts(bits: u64) -> (u64, u64) {
    let num = (1u64 << 52u64) | (bits & 0x000f_ffff_ffff_ffffu64);
    let e = spec_exponent_field(bits) as int - 1075;
    if e >= 0 {
        ((num << (e as u64)) as u64, 1u64)
    } else {
        (num, (1u64 << ((-e) as u64)) as u64)
    }
}

/// A positive double, given by its bits, as an exact reduced fraction
/// `num / den`. The exponent must keep both shifts within 64 bits.
pub fn fraction_from_bits(bits: u64) -> (r: (u64, u64))
    requires
        1011 < spec_exponent_field(bits) < 1139,
    ensures
        ({
            let (n, d) = spec_fraction_parts(bits);
            let g = spec_gcd(n as nat, d as nat);
            g > 0 && r == ((n / (g as u64)) as u64, (d / (g as u64)) as u64)
        }),
{
    let exponent = (bits >> 52u64) & 0x7ff;
    let mantissa = bits & 0x000f_ffff_ffff_ffffu64;
    let mut num: u64 = (1u64 << 52u64) | mantissa;
    let mut den: u64 = 1;
    if exponent >= 1075 {
        num = num << (exponent - 1075);
    } else {
        let k: u64 = 1075 - exponent;
        den = 1u64 << k;
        assert(den > 0) by (bit_vector)
            requires
                k < 64,
                den == 1u64 << k,
        ;
    }
    proof {
        lemma_gcd_positive(num as nat, den as nat);
    }
    let g = gcd(num, den);
    (num / g, den / g)
}

/// Whether `key` occurs in `s`.
pub fn contains_key(s: &Vec<u64>, key: u64) -> (r: bool)
    ensures
        r == s@.contains(key),
{
    let mut i: usize = 0;
    while i < s.len()
        invariant
            i <= s.len(),
            forall|j: int| 0 <= j < i ==> s@[j] != key,
        decreases s.len() - i,
    {
        if s[i] == key {
            return true;
        }
        i += 1;
    }
    false
}

/// The search state and its settings.
pub struct Search {
    tt: TranspositionTable,
    path_stack: Vec<u64>,
    nodes: u64,
    child_evals: u64,
    deadline: Option<std::time::Instant>,
    epsilon_num: u64,
    epsilon_den: u64,
    scorer: StaticAtomicScorer,
    first_outcome_only: bool,
    timeout_secs: u64,
    child_eval_budget: u64,
    refine_cap_factor_num: u64,
    refine_cap_factor_den: u64,
    refine_cap_min: u64,
    first_outcome_evals: u64,
    refinement_rounds: u32,
    refinement_evals: u64,
    pv_status: PvStatus,
    last_round_cap_cut: bool,
    history: HistoryTable,
    killers: KillerTable,
    history_age_counter: u64,
    max_ply: usize,
    max_depth_reached: u32,
    prefix_path: Option<Vec<u64>>,
    linear_chunks: bool,
    chunk_increment: u64,
    chunk_multiplier_num: u64,
    chunk_multiplier_den: u64,
    stop_flag: Option<Arc<AtomicBool>>,
    memory_limited: Option<Arc<AtomicBool>>,
    proof_event_sender: Option<std::sync::mpsc::Sender<ProofEvent>>,
    move_stack: Vec<Move>,
}

impl Search {
    /// The tables are well formed and every fraction has a positive
    /// denominator.
    pub closed spec fn wf(self) -> bool {
        &&& self.tt.wf()
        &&& self.history.wf()
        &&& self.killers.wf()
        &&& self.epsilon_den > 0
        &&& self.refine_cap_factor_den > 0
        &&& self.chunk_multiplier_den > 0
        &&& self.chunk_increment >= 1
        &&& self.max_ply >= 1
    }

    /// The transposition table.
    pub closed spec fn table(self) -> TranspositionTable {
        self.tt
    }

    /// The killer moves by ply.
    pub closed spec fn spec_killers(self) -> KillerTable {
        self.killers
    }

    /// A well-formed search has a well-formed table.
    pub proof fn lemma_wf_table(self)
        requires
            self.wf(),
        ensures
            self.table().wf(),
    {
    }

    /// The history scores used for move ordering.
    pub closed spec fn history_table(self) -> HistoryTable {
        self.history
    }

    /// The killer moves used for move ordering.
    pub closed spec fn killer_table(self) -> KillerTable {
        self.killers
    }

    /// Nodes counted since the history was last aged.
    pub closed spec fn age_counter(self) -> u64 {
        self.history_age_counter
    }

    /// Repetition keys of the positions on the current search path.
    pub closed spec fn path(self) -> Seq<u64> {
        self.path_stack@
    }

    /// Moves from the root to the node being searched.
    pub closed spec fn line(self) -> Seq<Move> {
        self.move_stack@
    }

    /// Child evaluations so far in this run.
    pub closed spec fn evals(self) -> u64 {
        self.child_evals
    }

    /// Nodes visited so far in this run.
    pub closed spec fn node_count(self) -> u64 {
        self.nodes
    }

    /// `1 + epsilon` as `(num, den)`.
    pub closed spec fn epsilon(self) -> (u64, u64) {
        (self.epsilon_num, self.epsilon_den)
    }

    /// The child-evaluation budget.
    pub closed spec fn budget(self) -> u64 {
        self.child_eval_budget
    }

    /// The longest line that extraction follows.
    pub closed spec fn spec_max_ply(self) -> usize {
        self.max_ply
    }

    /// The settings a search call leaves as they are.
    pub closed spec fn same_settings(self, other: Search) -> bool {
        &&& self.deadline == other.deadline
        &&& self.epsilon_num == other.epsilon_num
        &&& self.epsilon_den == other.epsilon_den
        &&& self.scorer == other.scorer
        &&& self.first_outcome_only == other.first_outcome_only
        &&& self.timeout_secs == other.timeout_secs
        &&& self.child_eval_budget == other.child_eval_budget
        &&& self.refine_cap_factor_num == other.refine_cap_factor_num
        &&& self.refine_cap_factor_den == other.refine_cap_factor_den
        &&& self.refine_cap_min == other.refine_cap_min
        &&& self.max_ply == other.max_ply
        &&& self.prefix_path == other.prefix_path
        &&& self.linear_chunks == other.linear_chunks
        &&& self.chunk_increment == other.chunk_increment
        &&& self.chunk_multiplier_num == other.chunk_multiplier_num
        &&& self.chunk_multiplier_den == other.chunk_multiplier_den
        &&& self.stop_flag == other.stop_flag
        &&& self.memory_limited == other.memory_limited
        &&& self.proof_event_sender == other.proof_event_sender
    }

    /// Keeping the settings is reflexive and transitive.
    pub proof fn lemma_same_settings(a: Search, b: Search, c: Search)
        ensures
            a.same_settings(a),
            a.same_settings(b) && b.same_settings(c) ==> a.same_settings(c),
    {
    }

    /// The scorer used for move ordering.
    pub closed spec fn spec_scorer(self) -> StaticAtomicScorer {
        self.scorer
    }

    /// The wall-time budget in seconds.
    pub closed spec fn spec_timeout(self) -> u64 {
        self.timeout_secs
    }

    /// `(linear, increment, num, den)`: how work chunks grow.
    pub closed spec fn spec_chunking(self) -> (bool, u64, u64, u64) {
        (self.linear_chunks, self.chunk_increment, self.chunk_multiplier_num, self.chunk_multiplier_den)
    }

    /// `(num, den, min)`: the refinement round cap settings.
    pub closed spec fn spec_refine_cap(self) -> (u64, u64, u64) {
        (self.refine_cap_factor_num, self.refine_cap_factor_den, self.refine_cap_min)
    }

    /// `(stop flag, memory flag, proof event sender)`.
    pub closed spec fn spec_signals(self) -> (Option<Arc<AtomicBool>>, Option<Arc<AtomicBool>>, Option<std::sync::mpsc::Sender<ProofEvent>>) {
        (self.stop_flag, self.memory_limited, self.proof_event_sender)
    }

    /// The deadline of the current run, if it has one.
    pub closed spec fn spec_deadline(self) -> Option<std::time::Instant> {
        self.deadline
    }

    /// Statistics of the last solve: `(first-phase evaluations, refinement
    /// rounds, refinement evaluations, line status, last round cap-cut)`.
    pub closed spec fn spec_run_stats(self) -> (u64, u32, u64, PvStatus, bool) {
        (self.first_outcome_evals, self.refinement_rounds, self.refinement_evals, self.pv_status, self.last_round_cap_cut)
    }

    /// The repetition keys a run starts its path with.
    pub closed spec fn spec_prefix(self) -> Option<Vec<u64>> {
        self.prefix_path
    }

    /// Whether only the first decisive outcome is wanted.
    pub closed spec fn spec_first_outcome_only(self) -> bool {
        self.first_outcome_only
    }

    /// The table holds a solved entry for `key` with outcome `o`.
    /// No stop or memory flag is attached and the run has no deadline, so
    /// nothing but the budgets can cut the search short.
    pub open spec fn unlimited(self) -> bool {
        &&& self.spec_signals().0 is None
        &&& self.spec_signals().1 is None
        &&& self.spec_deadline() is None
    }

    pub open spec fn solved_at(self, key: u64, o: Outcome) -> bool {
        &&& self.table().spec_probe(key) is Some
        &&& self.table().spec_probe(key)->0.outcome == Some(o)
    }

    /// A search with a transposition table of `tt_mb` megabytes and the
    /// default settings.
    pub fn new(tt_mb: usize) -> (r: Search)
        ensures
            r.wf(),
            r.epsilon() == (DEFAULT_EPSILON_NUM, DEFAULT_EPSILON_DEN),
            r.budget() == u64::MAX,
            r.spec_max_ply() == DEFAULT_MAX_PV_PLIES,
            r.evals() == 0,
            r.node_count() == 0,
            r.path() == Seq::<u64>::empty(),
            r.line() == Seq::<Move>::empty(),
    {
        Search {
            tt: TranspositionTable::with_mb(tt_mb),
            path_stack: Vec::new(),
            nodes: 0,
            child_evals: 0,
            deadline: None,
            epsilon_num: DEFAULT_EPSILON_NUM,
            epsilon_den: DEFAULT_EPSILON_DEN,
            scorer: StaticAtomicScorer::new(),
            first_outcome_only: false,
            timeout_secs: TIMEOUT_SECS,
            child_eval_budget: u64::MAX,
            refine_cap_factor_num: DEFAULT_REFINE_CAP_NUM,
            refine_cap_factor_den: DEFAULT_REFINE_CAP_DEN,
            refine_cap_min: MIN_REFINE_ROUND_EVALS,
            first_outcome_evals: 0,
            refinement_rounds: 0,
            refinement_evals: 0,
            pv_status: PvStatus::NoPv,
            last_round_cap_cut: false,
            history: HistoryTable::new(),
            killers: KillerTable::new(),
            history_age_counter: 0,
            max_ply: DEFAULT_MAX_PV_PLIES,
            max_depth_reached: 0,
            prefix_path: None,
            linear_chunks: false,
            chunk_increment: 500_000,
            chunk_multiplier_num: 2,
            chunk_multiplier_den: 1,
            stop_flag: None,
            memory_limited: None,
            proof_event_sender: None,
            move_stack: Vec::new(),
        }
    }

    /// `1 + epsilon`, as `num / den` with `den > 0`, for the threshold
    /// growth of the second-best child.
    pub fn set_epsilon_fraction(&mut self, num: u64, den: u64)
        requires
            old(self).wf(),
            den > 0,
        ensures
            final(self).wf(),
            final(self).epsilon() == (num, den),
            final(self).budget() == old(self).budget(),
    {
        self.epsilon_num = num;
        self.epsilon_den = den;
    }

    pub fn set_first_outcome_only(&mut self, value: bool)
        requires
            old(self).wf(),
        ensures
            final(self).wf(),
            final(self).spec_first_outcome_only() == value,
            final(self).budget() == old(self).budget(),
            final(self).table() == old(self).table(),
    {
        self.first_outcome_only = value;
    }

    pub fn set_scorer(&mut self, scorer: StaticAtomicScorer)
        requires
            old(self).wf(),
        ensures
            final(self).wf(),
            final(self).spec_scorer() == scorer,
    {
        self.scorer = scorer;
    }

    pub fn scorer(&self) -> (r: &StaticAtomicScorer)
        ensures
            *r == self.spec_scorer(),
    {
        &self.scorer
    }

    /// The wall-time budget of the next run, in seconds.
    pub fn set_timeout(&mut self, seconds: u64)
        requires
            old(self).wf(),
        ensures
            final(self).wf(),
            final(self).spec_timeout() == seconds,
    {
        self.timeout_secs = seconds;
    }

    /// Bound the search by cumulative child evaluations; `u64::MAX` means
    /// unbounded. A run that spends it returns a draw, stores only unsolved
    /// entries and reports `BudgetExhausted`.
    pub fn set_child_eval_budget(&mut self, budget: u64)
        requires
            old(self).wf(),
        ensures
            final(self).wf(),
            final(self).budget() == budget,
            final(self).evals() == old(self).evals(),
    {
        self.child_eval_budget = budget;
    }

    /// The per-round cap of a refinement round as a factor `num / den` of the
    /// first phase's child evaluations; a zero factor disables the cap.
    pub fn set_refine_cap_fraction(&mut self, num: u64, den: u64)
        requires
            old(self).wf(),
            den > 0,
        ensures
            final(self).wf(),
            num == 0 ==> final(self).spec_refine_cap().2 == u64::MAX,
            num != 0 ==> final(self).spec_refine_cap() == (num, den, MIN_REFINE_ROUND_EVALS),
    {
        if num == 0 {
            self.refine_cap_min = u64::MAX;
        } else {
            self.refine_cap_factor_num = num;
            self.refine_cap_factor_den = den;
            self.refine_cap_min = MIN_REFINE_ROUND_EVALS;
        }
    }

    /// Cap every refinement round at `cap` child evaluations, whatever the
    /// first phase spent.
    pub fn set_refine_round_cap(&mut self, cap: u64)
        requires
            old(self).wf(),
        ensures
            final(self).wf(),
            final(self).spec_refine_cap() == (0u64, 1u64, cap),
    {
        self.refine_cap_factor_num = 0;
        self.refine_cap_factor_den = 1;
        self.refine_cap_min = cap;
    }

    /// The history scores.
    pub fn history(&self) -> (r: &HistoryTable)
        ensures
            *r == self.history_table(),
    {
        &self.history
    }

    /// The killer moves.
    pub fn killers(&self) -> (r: &KillerTable)
        ensures
            *r == self.killer_table(),
    {
        &self.killers
    }

    /// `SCORE_KILLER` when `m` is one of the killers at `depth`, else 0.
    pub fn killer_bonus(&self, m: Move, depth: usize) -> (r: i32)
        requires
            self.wf(),
        ensures
            r == (if depth < MAX_KILLER_DEPTH && (self.killer_table().killer(depth as int, 0) == m
                || self.killer_table().killer(depth as int, 1) == m) {
                SCORE_KILLER
            } else {
                0
            }),
    {
        killer_bonus(&self.killers, m, depth)
    }

    pub fn first_outcome_evaluations(&self) -> (r: u64)
        ensures
            r == self.spec_run_stats().0,
    {
        self.first_outcome_evals
    }

    pub fn refinement_rounds(&self) -> (r: u32)
        ensures
            r == self.spec_run_stats().1,
    {
        self.refinement_rounds
    }

    pub fn refinement_evaluations(&self) -> (r: u64)
        ensures
            r == self.spec_run_stats().2,
    {
        self.refinement_evals
    }

    pub fn pv_status(&self) -> (r: PvStatus)
        ensures
            r == self.spec_run_stats().3,
    {
        self.pv_status
    }

    pub fn last_refine_round_cap_cut(&self) -> (r: bool)
        ensures
            r == self.spec_run_stats().4,
    {
        self.last_round_cap_cut
    }

    /// The child-evaluation cap of the next refinement round:
    /// `max(refine_cap_min, first_outcome_evals * num / den)`, or unlimited
    /// when capping is disabled.
    pub fn refinement_round_cap(&self) -> (r: u64)
        requires
            self.wf(),
        ensures
            self.spec_refine_cap().2 == u64::MAX ==> r == u64::MAX,
            self.spec_refine_cap().2 != u64::MAX ==> r == ({
                let scaled = ((self.spec_run_stats().0 * self.spec_refine_cap().0) / (self.spec_refine_cap().1 as int)) as u64;
                if scaled >= self.spec_refine_cap().2 { scaled } else { self.spec_refine_cap().2 }
            }),
    {
        if self.refine_cap_min == u64::MAX {
            return u64::MAX;
        }
        let a = self.first_outcome_evals as u128;
        let b = self.refine_cap_factor_num as u128;
        proof {
            assert(a * b <= 0xffff_ffff_ffff_ffffu128 * 0xffff_ffff_ffff_ffffu128) by (nonlinear_arith)
                requires a <= 0xffff_ffff_ffff_ffffu128, b <= 0xffff_ffff_ffff_ffffu128;
        }
        let product: u128 = a * b;
        let scaled = #[verifier::truncate] ((product / (self.refine_cap_factor_den as u128)) as u64);
        if scaled >= self.refine_cap_min {
            scaled
        } else {
            self.refine_cap_min
        }
    }

    /// Whether the child-evaluation budget is spent.
    pub fn child_eval_budget_exceeded(&self) -> (r: bool)
        ensures
            r == (self.evals() >= self.budget()),
    {
        self.child_evals >= self.child_eval_budget
    }

    /// The longest line extraction follows; at least one.
    pub fn set_max_ply(&mut self, max_ply: usize)
        requires
            old(self).wf(),
        ensures
            final(self).wf(),
            final(self).spec_max_ply() == (if max_ply >= 1 { max_ply } else { 1 }),
    {
        self.max_ply = if max_ply >= 1 { max_ply } else { 1 };
    }

    pub fn set_linear_chunks(&mut self, linear: bool)
        requires
            old(self).wf(),
        ensures
            final(self).wf(),
            final(self).spec_chunking().0 == linear,
    {
        self.linear_chunks = linear;
    }

    /// The linear chunk growth; at least one.
    pub fn set_chunk_increment(&mut self, increment: u64)
        requires
            old(self).wf(),
        ensures
            final(self).wf(),
            final(self).spec_chunking().1 == (if increment >= 1 { increment } else { 1 }),
    {
        self.chunk_increment = if increment >= 1 { increment } else { 1 };
    }

    /// The geometric chunk growth factor `num / den`, which must be at
    /// least one.
    pub fn set_chunk_multiplier_fraction(&mut self, num: u64, den: u64)
        requires
            old(self).wf(),
            0 < den <= num,
        ensures
            final(self).wf(),
            final(self).spec_chunking().2 == num,
            final(self).spec_chunking().3 == den,
    {
        self.chunk_multiplier_num = num;
        self.chunk_multiplier_den = den;
    }

    pub fn set_stop_flag(&mut self, stop_flag: Option<Arc<AtomicBool>>)
        requires
            old(self).wf(),
        ensures
            final(self).wf(),
            final(self).spec_signals().0 == stop_flag,
    {
        self.stop_flag = stop_flag;
    }

    pub fn set_memory_limited(&mut self, memory_limited: Option<Arc<AtomicBool>>)
        requires
            old(self).wf(),
        ensures
            final(self).wf(),
            final(self).spec_signals().1 == memory_limited,
    {
        self.memory_limited = memory_limited;
    }

    pub fn set_proof_event_sender(&mut self, sender: Option<std::sync::mpsc::Sender<ProofEvent>>)
        requires
            old(self).wf(),
        ensures
            final(self).wf(),
            final(self).spec_signals().2 == sender,
    {
        self.proof_event_sender = sender;
    }

    /// Read-only access to the transposition table.
    pub fn tt(&self) -> (r: &TranspositionTable)
        ensures
            *r == self.table(),
    {
        &self.tt
    }

    /// Record a result in the transposition table, exactly as the search
    /// records its own; nothing else of the search changes.
    #[allow(clippy::too_many_arguments)]
    pub fn tt_store(
        &mut self,
        key: u64,
        best_move: Move,
        best_child: u8,
        work: u64,
        outcome: Option<Outcome>,
        pn: u64,
        dn: u64,
        depth: u32,
        remaining_depth: u32,
    )
        requires
            old(self).wf(),
        ensures
            final(self).wf(),
            final(self).same_settings(*old(self)),
            final(self).path() == old(self).path(),
            final(self).line() == old(self).line(),
            final(self).evals() == old(self).evals(),
            final(self).node_count() == old(self).node_count(),
            final(self).table().bucket_count() == old(self).table().bucket_count(),
            final(self).table().generation() == old(self).table().generation(),
            ({
                let q = StoreRequest { key, best_move, best_child, work, outcome, pn, dn, depth, remaining_depth };
                let t = old(self).table();
                let b = t.bucket_of(key);
                let after = spec_bucket_after_store(t.slot(b, 0), t.slot(b, 1), q, t.generation());
                final(self).table().slots() == t.slots().update(2 * b, after.0).update(2 * b + 1, after.1)
            }),
    {
        self.tt.store(key, best_move, best_child, work, outcome, pn, dn, depth, remaining_depth);
    }

    /// `(buckets, live, solved, unsolved, generation)` of the table.
    pub fn tt_stats(&self) -> (r: (usize, usize, usize, usize, u32))
        requires
            self.wf(),
        ensures
            r.0 == self.table().bucket_count(),
            r.1 == spec_count_live(self.table().slots(), self.table().generation()),
            r.2 == spec_count_solved(self.table().slots(), self.table().generation()),
            r.3 == r.1 - r.2,
            r.4 == self.table().generation(),
    {
        self.tt.stats()
    }

    /// How often each remembered child index occurs among live table
    /// entries, most frequent first.
    pub fn tt_best_child_counts(&self) -> (r: Vec<(u8, usize)>)
        requires
            self.wf(),
        ensures
            forall|i: int| 0 <= i < r.len() ==> (#[trigger] r@[i]).0 != 255 && r@[i].1 > 0
                && r@[i].1 == spec_count_best_child(self.table().slots(), self.table().generation(), r@[i].0),
            forall|c: u8| c != 255 && spec_count_best_child(self.table().slots(), self.table().generation(), c) > 0 ==> exists|i: int|
                0 <= i < r.len() && (#[trigger] r@[i]).0 == c,
            forall|i: int, j: int| 0 <= i < j < r.len() ==> spec_count_before(#[trigger] r@[i], #[trigger] r@[j]),
    {
        self.tt.best_child_counts()
    }

    pub fn nodes(&self) -> (r: u64)
        ensures
            r == self.node_count(),
    {
        self.nodes
    }

    pub fn child_evaluations(&self) -> (r: u64)
        ensures
            r == self.evals(),
    {
        self.child_evals
    }

    /// Whether the stop flag or the memory flag is raised or the deadline
    /// has passed.
    pub fn time_exceeded(&self) -> (r: bool)
        ensures
            self.spec_signals().0 is None && self.spec_signals().1 is None && self.spec_deadline() is None ==> !r,
    {
        if signals::flag_raised(&self.stop_flag) {
            return true;
        }
        if signals::flag_raised(&self.memory_limited) {
            return true;
        }
        signals::deadline_passed(&self.deadline)
    }

    /// Why the search stopped, in this order of precedence: the memory flag,
    /// the stop flag, the spent budget, the deadline; else complete.
    pub fn exit_reason(&self) -> (r: ExitReason)
        ensures
            self.spec_signals().0 is None && self.spec_signals().1 is None ==> (r == ExitReason::BudgetExhausted
                <==> self.evals() >= self.budget()),
            self.spec_signals().0 is None && self.spec_signals().1 is None && self.spec_deadline() is None ==> (r == (if self.evals()
                >= self.budget() {
                ExitReason::BudgetExhausted
            } else {
                ExitReason::Complete
            })),
    {
        if signals::flag_raised(&self.memory_limited) {
            ExitReason::MemoryLimit
        } else if signals::flag_raised(&self.stop_flag) {
            ExitReason::Quit
        } else if self.child_eval_budget_exceeded() {
            ExitReason::BudgetExhausted
        } else if signals::deadline_passed(&self.deadline) {
            ExitReason::Timeout
        } else {
            ExitReason::Complete
        }
    }

    /// The threshold growth of the second-best child.
    pub fn epsilon_ceil(&self, x: u64) -> (r: u64)
        requires
            self.wf(),
        ensures
            r == spec_epsilon_ceil(x, self.epsilon().0, self.epsilon().1),
    {
        if x >= INF {
            return INF;
        }
        let num = self.epsilon_num as u128;
        let den = self.epsilon_den as u128;
        proof {
            assert(x * num <= 0x1000_0000_0000_0000u128 * 0xffff_ffff_ffff_ffffu128) by (nonlinear_arith)
                requires x < 0x1000_0000_0000_0000u64, num <= 0xffff_ffff_ffff_ffffu128;
        }
        let scaled: u128 = ((x as u128) * num + den - 1) / den;
        let raised: u128 = if scaled >= (x as u128) + 1 { scaled } else { (x as u128) + 1 };
        if raised < (INF as u128) {
            raised as u64
        } else {
            INF
        }
    }

    fn path_contains(&self, key: u64) -> (r: bool)
        ensures
            r == self.path().contains(key),
    {
        contains_key(&self.path_stack, key)
    }

    /// Put the repetition key `key` on the search path.
    pub fn path_push(&mut self, key: u64)
        requires
            old(self).wf(),
        ensures
            final(self).wf(),
            final(self).path() == old(self).path().push(key),
            final(self).same_settings(*old(self)),
            final(self).spec_run_stats() == old(self).spec_run_stats(),
            final(self).line() == old(self).line(),
            final(self).evals() == old(self).evals(),
            final(self).node_count() == old(self).node_count(),
            final(self).table() == old(self).table(),
    {
        self.path_stack.push(key);
        let len = self.path_stack.len() as u32;
        if len > self.max_depth_reached {
            self.max_depth_reached = len;
        }
    }

    /// Take the last key off the search path.
    pub fn path_pop(&mut self)
        requires
            old(self).wf(),
            old(self).path().len() > 0,
        ensures
            final(self).wf(),
            final(self).path() == old(self).path().drop_last(),
            final(self).same_settings(*old(self)),
            final(self).spec_run_stats() == old(self).spec_run_stats(),
            final(self).line() == old(self).line(),
            final(self).evals() == old(self).evals(),
            final(self).node_count() == old(self).node_count(),
            final(self).table() == old(self).table(),
    {
        let _ = self.path_stack.pop();
    }

    /// Tell the proof-tree builder that the node at the current line, with
    /// key `pos.hash()`, was proven `outcome`; draws are not reported.
    fn emit_proof_node(&self, pos: &Position, outcome: Outcome, depth: u32)
        requires
            pos.wf(),
    {
        if outcome == Outcome::Draw {
            return;
        }
        match &self.proof_event_sender {
            Some(sender) => {
                let event = ProofEvent::NodeProven(NodeProven::new(self.move_stack.clone(), pos.hash(), outcome, depth));
                signals::send_event(sender, event);
            },
            None => {},
        }
    }
}


/// What a caller of a search step may rely on: the search and the position
/// are as they were, apart from the table, the counters and the ordering
/// tables.
pub open spec fn spec_step_frame(s0: Search, s1: Search, p0: Position, p1: Position) -> bool {
    &&& s1.wf()
    &&& p1.wf()
    &&& p1.keys() == p0.keys()
    &&& p1.history() == p0.history()
    &&& p1.contents() == p0.contents()
    &&& p1.board_history() == p0.board_history()
    &&& s1.path() == s0.path()
    &&& s1.line() == s0.line()
    &&& s1.same_settings(s0)
    &&& s1.spec_run_stats() == s0.spec_run_stats()
    &&& s0.evals() <= s1.evals()
}

/// `m` is a legal move of the contents `c` whose result's board key is on
/// the search path `path`.
pub open spec fn spec_move_repeats(path: Seq<u64>, c: Seq<u64>, m: Move) -> bool {
    spec_legal_moves(c).contains(m@) && path.contains(spec_after_move(c, m@)[spec_key_index()])
}

/// The rules a child with contents `c` is classified by, in order: the
/// side to move has no commoner (loss); the other side has none (win); the
/// clock runs and the child's board repeats the search `path` (draw, seen
/// as a repetition); the clock has expired (loss when mated, else draw);
/// a solved table entry usable at `max_depth` whose best move does not step
/// back onto the path (its outcome and depth); and, when the table has
/// nothing for the child, no legal move (loss in check, else draw), two men
/// left (draw), else open. Only a repetition sets the repetition flag.
pub open spec fn spec_child_rules(path: Seq<u64>, table: TranspositionTable, max_depth: u32, c: Seq<u64>, r: ChildInfo) -> bool {
    let us = spec_side(c);
    let own = spec_mask(c, Some(us), Some(PieceType::Commoner));
    let their = spec_mask(c, Some(us.spec_flip()), Some(PieceType::Commoner));
    let clock = c[spec_rule50_index()];
    let rep = c[spec_key_index()];
    let mated_or_stalemate = if spec_checkers(c) != 0 { Outcome::Loss } else { Outcome::Draw };
    &&& own == 0 ==> r.outcome == Some(Outcome::Loss) && r.depth == 0
    &&& own != 0 && their == 0 ==> r.outcome == Some(Outcome::Win) && r.depth == 0
    &&& own != 0 && their != 0 && clock < 100 && path.contains(rep) ==> r.outcome == Some(Outcome::Draw) && r.repetition_seen
    &&& own != 0 && their != 0 && clock >= 100 ==> r.outcome == Some(
        if spec_legal_moves(c).len() == 0 { mated_or_stalemate } else { Outcome::Draw },
    ) && r.depth == 0 && !r.repetition_seen
    &&& r.repetition_seen ==> r.outcome == Some(Outcome::Draw)
    &&& own != 0 && their != 0 && clock < 100 && !path.contains(rep) ==> (table.spec_probe(rep ^ spec_rule50_key(clock as u16)) matches Some(e)
        ==> (spec_resolved_from_entry(e, if max_depth > 0 { (max_depth - 1) as u32 } else { 0 }) matches Some(res)
        ==> ((e.best_move == Move::spec_none() || !spec_move_repeats(path, c, e.best_move))
        ==> r.outcome == Some(res.outcome) && r.depth == res.depth)))
    &&& own != 0 && their != 0 && clock < 100 && !path.contains(rep) && table.spec_probe(rep ^ spec_rule50_key(clock as u16)) is None
        ==> r.outcome == (if spec_legal_moves(c).len() == 0 {
        Some(mated_or_stalemate)
    } else if spec_popcount(spec_mask(c, None, None) as nat) == 2 {
        Some(Outcome::Draw)
    } else {
        None
    })
}

impl Search {
    /// Add the history bonus for `side`'s move `m`, capped at `HISTORY_MAX`.
    pub fn update_history(&mut self, m: Move, side: Color)
        requires
            old(self).wf(),
        ensures
            final(self).wf(),
            ({
                let (h0, h1) = (old(self).history_table(), final(self).history_table());
                let (f, t) = (spec_from_sq(m@), spec_to_sq(m@));
                &&& h1.score(side, f, t) == (if h0.score(side, f, t) + HISTORY_BONUS < HISTORY_MAX {
                    h0.score(side, f, t) + HISTORY_BONUS
                } else {
                    HISTORY_MAX as int
                })
                &&& forall|s: Color, a: u16, b: u16|
                    a < 64 && b < 64 && (s != side || a != f || b != t) ==> #[trigger] h1.score(s, a, b) == h0.score(s, a, b)
            }),
            final(self).killer_table() == old(self).killer_table(),
            final(self).age_counter() == old(self).age_counter(),
            final(self).same_settings(*old(self)),
            final(self).spec_run_stats() == old(self).spec_run_stats(),
            final(self).path() == old(self).path(),
            final(self).line() == old(self).line(),
            final(self).evals() == old(self).evals(),
            final(self).table() == old(self).table(),
    {
        update_history_entry(&mut self.history, side, m.from_sq(), m.to_sq());
    }

    /// Make `best_move` the primary killer at the current depth (the length
    /// of the search path), as `update_killer_slots` does.
    pub fn update_killers(&mut self, best_move: Move)
        requires
            old(self).wf(),
        ensures
            final(self).wf(),
            ({
                let (k0, k1, d) = (old(self).killer_table(), final(self).killer_table(), old(self).path().len() as int);
                &&& (best_move == Move::spec_none() || d >= MAX_KILLER_DEPTH || k0.killer(d, 0) == best_move) ==> k1 == k0
                &&& !(best_move == Move::spec_none() || d >= MAX_KILLER_DEPTH || k0.killer(d, 0) == best_move) ==> {
                    &&& k1.killer(d, 0) == best_move
                    &&& k1.killer(d, 1) == k0.killer(d, 0)
                    &&& forall|e: int, i: int| 0 <= e < MAX_KILLER_DEPTH && e != d && 0 <= i < 2
                        ==> #[trigger] k1.killer(e, i) == k0.killer(e, i)
                }
            }),
            final(self).history_table() == old(self).history_table(),
            final(self).age_counter() == old(self).age_counter(),
            final(self).same_settings(*old(self)),
            final(self).spec_run_stats() == old(self).spec_run_stats(),
            final(self).path() == old(self).path(),
            final(self).line() == old(self).line(),
            final(self).evals() == old(self).evals(),
            final(self).table() == old(self).table(),
    {
        let depth = self.path_stack.len();
        update_killer_slots(&mut self.killers, depth, best_move);
    }

    /// Count a node; every `HISTORY_AGE_INTERVAL` nodes halve the history.
    pub fn maybe_age_history(&mut self)
        requires
            old(self).wf(),
        ensures
            final(self).wf(),
            old(self).age_counter() < HISTORY_AGE_INTERVAL - 1 ==> {
                &&& final(self).age_counter() == old(self).age_counter() + 1
                &&& final(self).history_table() == old(self).history_table()
            },
            old(self).age_counter() >= HISTORY_AGE_INTERVAL - 1 ==> {
                &&& final(self).age_counter() == 0
                &&& forall|side: Color, from: u16, to: u16| from < 64 && to < 64
                    ==> #[trigger] final(self).history_table().score(side, from, to) == old(self).history_table().score(side, from, to) / 2
            },
            final(self).killer_table() == old(self).killer_table(),
            final(self).same_settings(*old(self)),
            final(self).spec_run_stats() == old(self).spec_run_stats(),
            final(self).path() == old(self).path(),
            final(self).line() == old(self).line(),
            final(self).evals() == old(self).evals(),
            final(self).table() == old(self).table(),
    {
        if self.history_age_counter < HISTORY_AGE_INTERVAL - 1 {
            self.history_age_counter = self.history_age_counter + 1;
            return;
        }
        self.history_age_counter = 0;
        age_history(&mut self.history);
    }

    /// Whether playing `mv` from `pos` reaches a position on the search path.
    fn best_move_repeats_path(&self, pos: &Position, mv: Move) -> (r: bool)
        requires
            pos.wf(),
        ensures
            r == spec_move_repeats(self.path(), pos.contents(), mv),
    {
        let mut child = pos.clone();
        if !child.try_do_move(mv) {
            return false;
        }
        proof {
            child.lemma_wf_keys();
        }
        self.path_contains(child.repetition_key())
    }

    /// A solved, path-independent table result for `key` usable at
    /// `max_depth`, unless its best move steps straight back onto the
    /// search path.
    pub fn try_use_tt(&self, pos: &Position, key: u64, max_depth: u32) -> (r: Option<Resolved>)
        requires
            self.wf(),
            pos.wf(),
        ensures
            r matches Some(res) ==> self.table().spec_probe(key) is Some && spec_resolved_from_entry(
                self.table().spec_probe(key)->0,
                max_depth,
            ) == Some(res),
            self.table().spec_probe(key) is None ==> r is None,
            self.table().spec_probe(key) matches Some(e) ==> {
                &&& spec_resolved_from_entry(e, max_depth) is None ==> r is None
                &&& spec_resolved_from_entry(e, max_depth) is Some && e.best_move == Move::spec_none()
                    ==> r == spec_resolved_from_entry(e, max_depth)
            },
    {
        let entry = match self.tt.probe(key) {
            Some(e) => *e,
            None => return None,
        };
        let outcome = match entry.outcome {
            Some(o) => o,
            None => return None,
        };
        if entry.remaining_depth < max_depth || entry.depth > max_depth {
            return None;
        }
        if !entry.best_move.is_none() && self.best_move_repeats_path(pos, entry.best_move) {
            return None;
        }
        Some(Resolved { outcome, depth: entry.depth })
    }

    /// A child known to be terminal (or otherwise decided) with `outcome` at
    /// the child's side to move.
    fn decided_child(mv: Move, outcome: Outcome, child_is_or: bool, depth: u32, repetition_seen: bool) -> (r: ChildInfo)
        ensures
            r.mv == mv,
            r.outcome == Some(outcome),
            (r.pn, r.dn) == outcome.spec_pn_dn_for(child_is_or),
            r.depth == depth,
            r.repetition_seen == repetition_seen,
            !r.explored,
    {
        let (pn, dn) = outcome.pn_dn_for(child_is_or);
        ChildInfo { mv, pn, dn, outcome: Some(outcome), depth, repetition_seen, explored: false }
    }

    /// Play `mv`, classify the child and take the move back.
    ///
    /// In order: the side to move at the child has no commoner (loss); the
    /// other side has none (win); the child repeats the search path while
    /// the halfmove clock runs (draw by repetition); the clock has expired
    /// (draw, or loss when mated); a usable solved table entry; no legal move
    /// (checkmate or stalemate); two pieces left (draw); else the child is
    /// open with its table bounds when they are usable and `(1, 1)`
    /// otherwise.
    pub fn evaluate_child(&mut self, pos: &mut Position, mv: Move, max_depth: u32, is_or_node: bool) -> (r: ChildInfo)
        requires
            old(self).wf(),
            old(pos).wf(),
            old(pos).is_legal(mv),
            old(self).evals() < u64::MAX,
        ensures
            spec_step_frame(*old(self), *final(self), *old(pos), *final(pos)),
            final(self).evals() == old(self).evals() + 1,
            final(self).table() == old(self).table(),
            final(self).node_count() == old(self).node_count(),
            r.mv == mv,
            !r.explored,
            r.outcome is Some ==> (r.pn, r.dn) == r.outcome->0.spec_pn_dn_for(!is_or_node),
            spec_child_rules(old(self).path(), old(self).table(), max_depth, spec_after_move(old(pos).contents(), mv@), r),
    {
        self.child_evals = self.child_evals + 1;
        pos.do_move(mv);
        let ghost after_do = *pos;
        proof {
            pos.lemma_wf_keys();
        }
        let child_key = pos.hash();
        let child_rep_key = pos.repetition_key();
        let child_is_or = !is_or_node;
        let rule50_expired = pos.rule50() >= 100;
        let us = pos.side_to_move();
        let info = if pos.commoners(us) == 0 {
            Self::decided_child(mv, Outcome::Loss, child_is_or, 0, false)
        } else if pos.commoners(us.flip()) == 0 {
            Self::decided_child(mv, Outcome::Win, child_is_or, 0, false)
        } else if !rule50_expired && self.path_contains(child_rep_key) {
            Self::decided_child(mv, Outcome::Draw, child_is_or, 0, true)
        } else if rule50_expired {
            let mut state = movegen::state_new();
            pos.populate_state(&mut state);
            let outcome = if pos.has_legal_move(&state) || !pos.in_check() {
                Outcome::Draw
            } else {
                Outcome::Loss
            };
            Self::decided_child(mv, outcome, child_is_or, 0, false)
        } else {
            let child_max_depth = if max_depth > 0 { max_depth - 1 } else { 0 };
            let entry: Option<TtEntry> = match self.tt.probe(child_key) {
                Some(e) => Some(*e),
                None => None,
            };
            let mut resolved: Option<Resolved> = match entry {
                Some(e) => match e.outcome {
                    Some(o) => if e.remaining_depth >= child_max_depth && e.depth <= child_max_depth {
                        Some(Resolved { outcome: o, depth: e.depth })
                    } else {
                        None
                    },
                    None => None,
                },
                None => None,
            };
            if let Some(e) = entry {
                if resolved.is_some() && !e.best_move.is_none() && self.best_move_repeats_path(pos, e.best_move) {
                    resolved = None;
                }
            }
            match resolved {
                Some(res) => Self::decided_child(mv, res.outcome, child_is_or, res.depth, false),
                None => {
                    let mut state = movegen::state_new();
                    pos.populate_state(&mut state);
                    let terminal: Option<Outcome> = if !pos.has_legal_move(&state) {
                        if !pos.in_check() {
                            Some(Outcome::Draw)
                        } else {
                            Some(Outcome::Loss)
                        }
                    } else if pos.piece_count() == 2 {
                        Some(Outcome::Draw)
                    } else {
                        None
                    };
                    match terminal {
                        Some(o) => Self::decided_child(mv, o, child_is_or, 0, false),
                        None => {
                            let (pn, dn) = match entry {
                                Some(e) => if e.outcome.is_none() && e.pn > 0 && e.dn > 0 && e.remaining_depth
                                    != u32::MAX && e.remaining_depth <= child_max_depth {
                                    (e.pn, e.dn)
                                } else {
                                    (1u64, 1u64)
                                },
                                None => (1u64, 1u64),
                            };
                            ChildInfo { mv, pn, dn, outcome: None, depth: 0, repetition_seen: false, explored: false }
                        },
                    }
                },
            }
        };
        match info.outcome {
            Some(o) => {
                if o != Outcome::Draw {
                    match &self.proof_event_sender {
                        Some(sender) => {
                            let mut path = self.move_stack.clone();
                            path.push(mv);
                            signals::send_event(sender, ProofEvent::NodeProven(NodeProven::new(path, child_key, o, info.depth)));
                        },
                        None => {},
                    }
                }
            },
            None => {},
        }
        pos.undo_move(mv);
        proof {
            crate::position::lemma_undo_reverts_do(*old(pos), after_do, *pos);
        }
        info
    }
}

/// Where output position `t` of the reordering comes from: the found
/// entry first, then the sorted entries without it.
pub open spec fn spec_front_index(found: Option<usize>, t: int) -> int {
    match found {
        Some(f) => if t == 0 {
            f as int
        } else if t <= f {
            t - 1
        } else {
            t
        },
        None => t,
    }
}

impl Search {
    /// Order `moves` for expansion: by static score plus history and killer
    /// bonuses, highest first and stable among equal totals; then the
    /// table's remembered best move, when it is one of them, goes first.
    pub fn sort_moves(&self, pos: &Position, moves: &mut Vec<Move>, best_from_tt: Move, is_or_node: bool)
        requires
            self.wf(),
            pos.wf(),
        ensures
            spec_is_reordering(old(moves)@, final(moves)@),
            best_from_tt != Move::spec_none() && old(moves)@.contains(best_from_tt) ==> final(moves)@[0] == best_from_tt,
    {
        let us = pos.side_to_move();
        let depth = self.path_stack.len();
        let n = moves.len();
        let snap = board_snapshot(pos);
        let nearest = nearest_map_from(snap.them_commoners);
        let mut scored: Vec<(Move, i64, usize)> = Vec::new();
        let mut i: usize = 0;
        while i < n
            invariant
                n == moves.len(),
                i <= n,
                scored.len() == i,
                self.wf(),
                snap.wf(),
                nearest.len() == 64,
                forall|k: int| 0 <= k < i ==> (#[trigger] scored@[k]).0 == moves@[k] && scored@[k].2 == k,
            decreases n - i,
        {
            let m = moves[i];
            let (is_capture, attackers) = move_facts(pos, &snap, m);
            let static_score = self.scorer.score_with_map(&snap, m, is_capture, attackers, &nearest, is_or_node) as i64;
            let hist = self.history.get(us, m.from_sq(), m.to_sq()) as i64;
            let killer = killer_bonus(&self.killers, m, depth) as i64;
            scored.push((m, static_score + hist + killer, i));
            i += 1;
        }
        let ghost orig = scored@;
        sort_by_score(&mut scored);
        // Locate the remembered best move.
        let mut found: Option<usize> = None;
        if !best_from_tt.is_none() {
            let mut j: usize = 0;
            while j < n
                invariant_except_break
                    found is None,
                    forall|k: int| 0 <= k < j ==> (#[trigger] scored@[k]).0 != best_from_tt,
                invariant
                    j <= n,
                    scored.len() == n,
                ensures
                    found matches Some(f) ==> f < n && scored@[f as int].0 == best_from_tt,
                    found is None ==> forall|k: int| 0 <= k < n ==> (#[trigger] scored@[k]).0 != best_from_tt,
                decreases n - j,
            {
                if scored[j].0 == best_from_tt {
                    found = Some(j);
                    break;
                }
                j += 1;
            }
        }
        // Rebuild the order: the best move first, the others as sorted.
        let mut out: Vec<Move> = Vec::new();
        let ghost mut p: Seq<int> = Seq::empty();
        match found {
            Some(f) => {
                out.push(scored[f].0);
                proof { p = p.push(scored@[f as int].2 as int); }
            },
            None => {},
        }
        let mut k: usize = 0;
        while k < n
            invariant
                k <= n,
                scored.len() == n,
                n == moves.len(),
                found matches Some(f) ==> f < n && out.len() == (if k <= f { k + 1 } else { k as int }),
                found is None ==> out.len() == k,
                p.len() == out.len(),
                forall|t: int| 0 <= t < out.len() ==> 0 <= #[trigger] spec_front_index(found, t) < n
                    && out@[t] == scored@[spec_front_index(found, t)].0 && p[t] == scored@[spec_front_index(found, t)].2 as int,
            decreases n - k,
        {
            let skip = match found {
                Some(f) => k == f,
                None => false,
            };
            if !skip {
                out.push(scored[k].0);
                proof { p = p.push(scored@[k as int].2 as int); }
            }
            k += 1;
        }
        proof {
            let fin = out@;
            assert(fin.len() == n);
            assert forall|t: int| 0 <= t < p.len() implies 0 <= #[trigger] p[t] < moves@.len() && fin[t] == moves@[p[t]] by {
                let u = spec_front_index(found, t);
                assert(scored@[u] == orig[scored@[u].2 as int]);
            }
            assert forall|a: int, b: int| 0 <= a < p.len() && 0 <= b < p.len() && a != b implies p[a] != p[b] by {
                assert(spec_front_index(found, a) != spec_front_index(found, b));
                assert(scored@[spec_front_index(found, a)].2 != scored@[spec_front_index(found, b)].2);
            }
            assert(spec_reorders(moves@, fin, p));
            if best_from_tt != Move::spec_none() && moves@.contains(best_from_tt) {
                let w = choose|w: int| 0 <= w < moves@.len() && moves@[w] == best_from_tt;
                assert(crate::search::ordering::spec_has_index(scored@, w));
                let u = choose|u: int| 0 <= u < scored@.len() && (#[trigger] scored@[u]).2 == w;
                assert(scored@[u] == orig[w]);
                assert(scored@[u].0 == best_from_tt);
                assert(found is Some);
                assert(0 <= spec_front_index(found, 0) < n);
                assert(fin[0] == scored@[found->0 as int].0);
            }
        }
        *moves = out;
    }
}

/// The placeholder for a child left unevaluated once a sibling already
/// decided the parent.
pub open spec fn spec_placeholder(mv: Move) -> ChildInfo {
    ChildInfo { mv, pn: INF, dn: 0, outcome: None, depth: 0, repetition_seen: false, explored: false }
}

impl Search {
    /// Evaluate the children in move order. One child that is lost for its
    /// side to move already wins the parent, so the children after it are
    /// only placeholders.
    pub fn evaluate_all_children(&mut self, pos: &mut Position, moves: &Vec<Move>, max_depth: u32, is_or_node: bool) -> (r: Vec<
        ChildInfo,
    >)
        requires
            old(self).wf(),
            old(pos).wf(),
            moves.len() > 0,
            old(self).evals() + moves.len() <= u64::MAX,
            forall|i: int| 0 <= i < moves.len() ==> old(pos).is_legal(#[trigger] moves@[i]),
        ensures
            spec_step_frame(*old(self), *final(self), *old(pos), *final(pos)),
            final(self).table() == old(self).table(),
            final(self).node_count() == old(self).node_count(),
            old(self).evals() < final(self).evals() <= old(self).evals() + moves.len(),
            r.len() == moves.len(),
            forall|i: int| 0 <= i < r.len() ==> (#[trigger] r@[i]).mv == moves@[i],
            forall|i: int, j: int|
                0 <= i < j < r.len() && (#[trigger] r@[i]).outcome == Some(Outcome::Loss) ==> #[trigger] r@[j] == spec_placeholder(moves@[j]),
    {
        let mut children: Vec<ChildInfo> = Vec::new();
        let n = moves.len();
        let mut i: usize = 0;
        while i < n
            invariant
                n == moves.len(),
                i <= n,
                children.len() == i,
                spec_step_frame(*old(self), *self, *old(pos), *pos),
                self.table() == old(self).table(),
                self.node_count() == old(self).node_count(),
                self.evals() == old(self).evals() + i,
                old(self).evals() + n <= u64::MAX,
                forall|k: int| 0 <= k < i ==> (#[trigger] children@[k]).mv == moves@[k],
                forall|k: int| 0 <= k < i ==> (#[trigger] children@[k]).outcome != Some(Outcome::Loss),
                forall|k: int| 0 <= k < n ==> old(pos).is_legal(#[trigger] moves@[k]),
            decreases n - i,
        {
            let mv = moves[i];
            let info = self.evaluate_child(pos, mv, max_depth, is_or_node);
            let decisive = info.outcome == Some(Outcome::Loss);
            children.push(info);
            if decisive {
                let mut j = i + 1;
                while j < n
                    invariant
                        n == moves.len(),
                        i < j <= n,
                        children.len() == j,
                        forall|k: int| 0 <= k < j ==> (#[trigger] children@[k]).mv == moves@[k],
                        forall|k: int| 0 <= k < i ==> (#[trigger] children@[k]).outcome != Some(Outcome::Loss),
                        children@[i as int].outcome == Some(Outcome::Loss),
                        forall|k: int| i < k < j ==> #[trigger] children@[k] == spec_placeholder(moves@[k]),
                    decreases n - j,
                {
                    children.push(ChildInfo {
                        mv: moves[j],
                        pn: INF,
                        dn: 0,
                        outcome: None,
                        depth: 0,
                        repetition_seen: false,
                        explored: false,
                    });
                    j += 1;
                }
                return children;
            }
            i += 1;
        }
        children
    }
}

impl Search {
    /// The DF-PN+ search of `pos` under thresholds `(th_pn, th_dn)`
    /// (`INF` means none), at most `max_depth` plies deep and spending at
    /// most `max_work` child evaluations (`u64::MAX` means unbounded).
    ///
    /// Returns the outcome for the side to move when the node was solved,
    /// and `Draw` when it was not (or was drawn). A decisive result is
    /// recorded in the transposition table under the position's key. A draw
    /// that rests on a repetition of the current path is stored unsolved,
    /// since it holds only on this path. The evaluation counter never wraps:
    /// a node stops expanding when it cannot absorb another round of child
    /// evaluations.
    #[verifier::rlimit(60)]
    fn dfpn(&mut self, pos: &mut Position, th_pn: u64, th_dn: u64, max_depth: u32, max_work: u64, is_or_node: bool) -> (r:
        Outcome)
        requires
            old(self).wf(),
            old(pos).wf(),
        ensures
            spec_step_frame(*old(self), *final(self), *old(pos), *final(pos)),
            r != Outcome::Draw ==> final(self).solved_at(old(pos).key(), r),
            old(self).unlimited() ==> (spec_contents_outcome(old(pos).contents()) matches Some(o) ==> r == o && final(self).solved_at(
                old(pos).key(),
                o,
            )),
        decreases max_depth,
    {
        if self.time_exceeded() {
            return Outcome::Draw;
        }
        self.nodes = self.nodes.saturating_add(1);
        let tt_key = pos.hash();
        let rep_key = pos.repetition_key();
        let child_evals_start = self.child_evals;

        let mut moves: Vec<Move> = Vec::new();
        let mut state = movegen::state_new();
        pos.legal_moves_with_state(&mut moves, &mut state);

        if let Some(outcome) = pos.outcome_from_state(&state, &moves) {
            let (pn, dn) = outcome.pn_dn_for(is_or_node);
            let ghost before = self.tt;
            self.tt.store(tt_key, Move::none(), 255, 0, Some(outcome), pn, dn, 0, u32::MAX);
            proof {
                lemma_store_then_probe(before, self.tt, StoreRequest {
                    key: tt_key, best_move: Move::spec_none(), best_child: 255, work: 0, outcome: Some(outcome),
                    pn, dn, depth: 0, remaining_depth: u32::MAX,
                });
            }
            self.emit_proof_node(pos, outcome, 0);
            return outcome;
        }

        if max_depth == 0 {
            // A non-terminal leaf is an unsolved frontier, not a proven draw.
            self.tt.store(tt_key, Move::none(), 255, 0, None, 1, 1, 0, 0);
            return Outcome::Draw;
        }

        // Local repetition: this board is already on the search path.
        if self.path_contains(rep_key) {
            return Outcome::Draw;
        }

        if let Some(resolved) = self.try_use_tt(pos, tt_key, max_depth) {
            self.emit_proof_node(pos, resolved.outcome, resolved.depth);
            return resolved.outcome;
        }

        let previous_summary = self.tt.probe_summary(tt_key);
        let best_from_tt = match self.tt.probe_best_move(tt_key) {
            Some(m) => m,
            None => Move::none(),
        };
        let ghost listed = moves@;
        self.sort_moves(pos, &mut moves, best_from_tt, is_or_node);
        proof {
            let p = choose|p: Seq<int>| spec_reorders(listed, moves@, p);
            assert forall|i: int| 0 <= i < moves.len() implies old(pos).is_legal(#[trigger] moves@[i]) by {
                crate::position::lemma_listed_is_legal(*old(pos), listed, p[i]);
            }
        }
        self.path_push(rep_key);

        let ghost self1 = *self;
        let mut outcome_to_store: Option<Outcome> = None;
        let mut ots_best_move = Move::none();
        let mut ots_pn: u64 = INF;
        let mut ots_dn: u64 = INF;
        let mut ots_depth: u32 = 0;
        let mut ots_repetition_seen = false;
        let mut best_move = Move::none();
        let mut pn: u64 = INF;
        let mut dn: u64 = INF;
        let mut depth: u32 = 0;
        let mut children: Vec<ChildInfo> = Vec::new();
        let mut selection: Option<ChildSelection> = None;
        let n = moves.len();

        loop
            invariant
                n == moves.len(),
                n > 0,
                max_depth > 0,
                children.len() == 0 || children.len() == n,
                children.len() == 0 ==> selection is None,
                spec_step_frame(self1, *self, *old(pos), *pos),
                self.path() == old(self).path().push(rep_key),
                self.line() == old(self).line(),
                self.same_settings(*old(self)),
                old(self).evals() <= child_evals_start <= self.evals(),
                forall|i: int| 0 <= i < n ==> old(pos).is_legal(#[trigger] moves@[i]),
                children.len() == n ==> forall|k: int| 0 <= k < n ==> (#[trigger] children@[k]).mv == moves@[k],
            decreases u64::MAX - self.evals(),
        {
            if self.time_exceeded() {
                break;
            }
            // Work-bounded search: stop this chunk once it has used its budget;
            // the node is stored unsolved so the next chunk can resume.
            if max_work != u64::MAX && self.child_evals - child_evals_start >= max_work {
                break;
            }
            if u64::MAX - self.child_evals < n as u64 {
                break;
            }
            let ghost evals_before = self.child_evals;
            if children.len() == 0 {
                children = self.evaluate_all_children(pos, &moves, max_depth, is_or_node);
            } else {
                let idx = match selection {
                    Some(prev) => match prev.best_child_index {
                        Some(i) => i,
                        None => { break; },
                    },
                    None => { break; },
                };
                if idx >= children.len() {
                    break;
                }
                let mv = children[idx].mv;
                let old_pn = children[idx].pn;
                let old_dn = children[idx].dn;
                let mut info = self.evaluate_child(pos, mv, max_depth, is_or_node);
                // A work-bounded re-expansion that came back with the same
                // bounds cannot make progress: mark the child explored.
                if max_work != u64::MAX && info.pn == old_pn && info.dn == old_dn {
                    info.explored = true;
                }
                children.set(idx, info);
            }
            assert(self.evals() > evals_before);

            let previous_best_move = match previous_summary {
                Some(s) => if !s.best_move.is_none() { Some(s.best_move) } else { None },
                None => None,
            };
            let previous_best_child = match previous_summary {
                Some(s) => if s.best_child != 255 { Some(s.best_child) } else { None },
                None => None,
            };
            let sel = select_from_children(children.as_slice(), is_or_node, previous_best_move, previous_best_child);
            selection = Some(sel);
            best_move = sel.best_move;
            pn = sel.pn;
            dn = sel.dn;
            depth = sel.depth;

            if let Some(solved) = sel.solved_outcome {
                // A win needs one winning child; a loss or draw needs them all.
                outcome_to_store = Some(solved);
                ots_best_move = sel.best_move;
                ots_pn = sel.pn;
                ots_dn = sel.dn;
                ots_depth = sel.depth;
                ots_repetition_seen = sel.repetition_seen;
                break;
            }

            if (th_pn != INF && pn >= th_pn) || (th_dn != INF && dn >= th_dn) {
                break;
            }

            let (mv, child_pn, child_dn) = sel.best_child;
            if mv.is_none() {
                break;
            }
            // The selected child is one of this node's moves.
            if !moves_contain(&moves, mv) {
                break;
            }
            proof {
                let i = choose|i: int| 0 <= i < moves.len() && moves@[i] == mv;
                assert(old(pos).is_legal(moves@[i]));
            }
            let (second_pn, second_dn) = sel.second_child;

            let work_spent = self.child_evals - child_evals_start;
            if max_work != u64::MAX && work_spent >= max_work {
                break;
            }
            let child_max_work = if max_work >= work_spent { max_work - work_spent } else { 0 };

            let (np, nd) = if is_or_node {
                let e = self.epsilon_ceil(second_pn);
                let new_th_pn = if th_pn < e { th_pn } else { e };
                let new_th_dn = if th_dn == INF { INF } else { th_dn.saturating_sub(dn).saturating_add(child_dn) };
                (new_th_pn, new_th_dn)
            } else {
                let e = self.epsilon_ceil(second_dn);
                let new_th_dn = if th_dn < e { th_dn } else { e };
                let new_th_pn = if th_pn == INF { INF } else { th_pn.saturating_sub(pn).saturating_add(child_pn) };
                (new_th_pn, new_th_dn)
            };

            let ghost pos_before = *pos;
            pos.do_move(mv);
            let ghost after_do = *pos;
            self.move_stack.push(mv);
            let _ = self.dfpn(pos, np, nd, max_depth - 1, child_max_work, !is_or_node);
            let _ = self.move_stack.pop();
            proof {
                assert(self.move_stack@ =~= old(self).line());
            }
            pos.undo_move(mv);
            proof {
                crate::position::lemma_undo_reverts_do(pos_before, after_do, *pos);
            }
        }

        let store_best_move = if outcome_to_store.is_some() { ots_best_move } else { best_move };
        let mut store_best_child: u8 = 255;
        let mut c: usize = 0;
        while c < children.len()
            invariant
                c <= children.len(),
            decreases children.len() - c,
        {
            if children[c].mv == store_best_move {
                store_best_child = #[verifier::truncate] (c as u8);
                break;
            }
            c += 1;
        }
        let work = self.child_evals - child_evals_start;

        // A draw that rests on a repetition of the current path holds only
        // on this path: store it unsolved so a later visit re-expands it.
        let suppress_draw = match outcome_to_store {
            Some(o) => o == Outcome::Draw && ots_repetition_seen,
            None => false,
        };
        let store_outcome = if suppress_draw { None } else { outcome_to_store };
        let (store_pn, store_dn) = if suppress_draw {
            (1u64, 1u64)
        } else if outcome_to_store.is_some() {
            (ots_pn, ots_dn)
        } else {
            (if pn >= 1 { pn } else { 1 }, if dn >= 1 { dn } else { 1 })
        };
        let store_depth = if outcome_to_store.is_some() { ots_depth } else { depth };
        let store_remaining_depth = if outcome_to_store.is_some() { u32::MAX } else { max_depth };

        let ghost before = self.tt;
        self.tt.store(tt_key, store_best_move, store_best_child, work, store_outcome, store_pn, store_dn, store_depth, store_remaining_depth);
        proof {
            lemma_store_then_probe(before, self.tt, StoreRequest {
                key: tt_key, best_move: store_best_move, best_child: store_best_child, work, outcome: store_outcome,
                pn: store_pn, dn: store_dn, depth: store_depth, remaining_depth: store_remaining_depth,
            });
        }

        match outcome_to_store {
            Some(o) => {
                if o != Outcome::Draw && !store_best_move.is_none() {
                    let us = pos.side_to_move();
                    self.update_history(store_best_move, us);
                    self.update_killers(store_best_move);
                }
            },
            None => {},
        }
        self.maybe_age_history();
        self.path_pop();
        proof {
            assert(self.path() =~= old(self).path());
        }

        match outcome_to_store {
            Some(o) => {
                self.emit_proof_node(pos, o, ots_depth);
                o
            },
            None => Outcome::Draw,
        }
    }
}

impl Search {
    /// Follow the table's best moves from `pos`, at most `max_ply` plies:
    /// at each node the entry for the expected outcome (the root's solved
    /// outcome when none is given, then alternating), preferring the entry
    /// whose depth matches the plies left. Stops at a terminal position, a
    /// repeated position, a missing or unsolved entry, or a missing move.
    /// The flag tells whether the line was cut at `max_ply` short of a
    /// terminal position.
    pub fn extract_pv_internal(&self, pos: &Position, expected: Option<Outcome>, expected_depth: Option<u32>) -> (r: (
        Vec<Move>,
        bool,
    ))
        requires
            self.wf(),
            pos.wf(),
        ensures
            r.0.len() <= self.spec_max_ply(),
            r.1 ==> r.0.len() == self.spec_max_ply(),
            forall|i: int| 0 <= i < r.0.len() ==> (#[trigger] r.0@[i]) != Move::spec_none(),
            r.0.len() > 0 ==> self.table().spec_probe(pos.key()) is Some && r.0@[0] == self.table().spec_probe(
                pos.key(),
            )->0.best_move,
            spec_replay(pos.contents(), r.0@) is Some,
    {
        let mut pv: Vec<Move> = Vec::new();
        let mut seen: Vec<u64> = Vec::new();
        let mut current = pos.clone();
        let mut expected = expected;
        let mut remaining = expected_depth;
        let mut ply: usize = 0;
        let mut terminal_reached = false;
        while ply < self.max_ply
            invariant
                self.wf(),
                current.wf(),
                ply <= self.max_ply,
                pv.len() == ply,
                pv.len() == 0 ==> current.key() == pos.key(),
                forall|i: int| 0 <= i < pv.len() ==> (#[trigger] pv@[i]) != Move::spec_none(),
                pv.len() > 0 ==> self.table().spec_probe(pos.key()) is Some && pv@[0] == self.table().spec_probe(
                    pos.key(),
                )->0.best_move,
                spec_replay(pos.contents(), pv@) == Some(current.contents()),
            decreases self.max_ply - ply,
        {
            let rep_key = current.repetition_key();
            if contains_key(&seen, rep_key) {
                break;
            }
            if current.outcome().is_some() {
                terminal_reached = true;
                break;
            }
            let entry = match self.tt.probe(current.hash()) {
                Some(e) => *e,
                None => break,
            };
            let node_expected = match expected {
                Some(e) => e,
                None => match entry.best_result() {
                    Some((_, o, _)) => {
                        expected = Some(o);
                        o
                    },
                    None => break,
                },
            };
            let node_remaining = match remaining {
                Some(r) => r,
                None => match entry.result_for(node_expected) {
                    Some(res) => res.depth,
                    None => break,
                },
            };
            let result = match entry.result_for_depth(node_expected, node_remaining) {
                Some(res) => Some(res),
                None => entry.result_for(node_expected),
            };
            match result {
                Some(res) => {
                    let mv = res.best_move;
                    if mv.is_none() {
                        break;
                    }
                    let ghost before = current.contents();
                    if !current.try_do_move(mv) {
                        break;
                    }
                    proof {
                        crate::position::lemma_replay_push(pos.contents(), pv@, mv);
                    }
                    seen.push(rep_key);
                    pv.push(mv);
                    expected = match expected {
                        Some(e) => Some(e.flip()),
                        None => None,
                    };
                    remaining = Some(if res.depth > 0 { res.depth - 1 } else { 0 });
                },
                None => break,
            }
            ply += 1;
        }
        let truncated = pv.len() == self.max_ply && !terminal_reached && current.outcome().is_none();
        (pv, truncated)
    }

    /// The best-effort line from the table at `pos`.
    pub fn extract_pv(&self, pos: &Position) -> (r: Vec<Move>)
        requires
            self.wf(),
            pos.wf(),
        ensures
            r.len() <= self.spec_max_ply(),
            r.len() > 0 ==> self.table().spec_probe(pos.key()) is Some && r@[0] == self.table().spec_probe(
                pos.key(),
            )->0.best_move,
            spec_replay(pos.contents(), r@) is Some,
    {
        self.extract_pv_internal(pos, None, None).0
    }

    /// The line from `pos` when it is a legal line ending in the expected
    /// outcome (or, when cut at `max_ply`, at least legal); `None` otherwise.
    pub fn extract_pv_checked(&self, pos: &Position, expected: Outcome, expected_depth: Option<u32>) -> (r: Option<Vec<Move>>)
        requires
            self.wf(),
            pos.wf(),
        ensures
            r matches Some(pv) ==> pv.len() <= self.spec_max_ply(),
            r matches Some(pv) ==> spec_replay(pos.contents(), pv@) is Some,
            r matches Some(pv) ==> (pv.len() < self.spec_max_ply() ==> match spec_replay(pos.contents(), pv@) {
                Some(c) => spec_contents_outcome(c) == Some(if pv.len() % 2 == 0 { expected } else { expected.spec_flip() }),
                None => false,
            }),
    {
        let (pv, truncated) = self.extract_pv_internal(pos, Some(expected), expected_depth);
        if truncated {
            if Self::validate_pv_prefix(&pv, pos).is_some() {
                return Some(pv);
            }
            return None;
        }
        if Self::validate_pv(&pv, pos, expected, expected_depth) {
            Some(pv)
        } else {
            None
        }
    }

    /// Whether `pv` is a legal line from `pos` of the expected length that
    /// ends in a terminal position whose outcome, seen from the side to move
    /// at `pos`, is `expected`.
    pub fn validate_pv(pv: &Vec<Move>, pos: &Position, expected: Outcome, expected_depth: Option<u32>) -> (r: bool)
        requires
            pos.wf(),
        ensures
            r == ((expected_depth matches Some(d) ==> pv.len() == d) && match spec_replay(pos.contents(), pv@) {
                Some(c) => spec_contents_outcome(c) == Some(if pv.len() % 2 == 0 { expected } else { expected.spec_flip() }),
                None => false,
            }),
    {
        if let Some(d) = expected_depth {
            if pv.len() != d as usize {
                return false;
            }
        }
        let current = match Self::validate_pv_prefix(pv, pos) {
            Some(c) => c,
            None => return false,
        };
        let final_outcome = current.outcome();
        let final_expected = if pv.len() % 2 == 0 { expected } else { expected.flip() };
        final_outcome == Some(final_expected)
    }

    /// Replay `pv` from `pos`, checking each move against the legal moves;
    /// the position reached, or `None` at the first illegal move.
    pub fn validate_pv_prefix(pv: &Vec<Move>, pos: &Position) -> (r: Option<Position>)
        requires
            pos.wf(),
        ensures
            r matches Some(p) ==> p.wf() && p.history_len() == pv.len(),
            r matches Some(p) ==> (pv.len() > 0 ==> p.history()[0] == pos.keys()),
            pv.len() == 0 ==> (r matches Some(p) && p.keys() == pos.keys()),
            r is Some <==> spec_replay(pos.contents(), pv@) is Some,
            r matches Some(p) ==> spec_replay(pos.contents(), pv@) == Some(p.contents()),
    {
        let mut current = pos.clone();
        let mut i: usize = 0;
        proof {
            assert(pv@.skip(0) =~= pv@);
        }
        while i < pv.len()
            invariant
                i <= pv.len(),
                current.wf(),
                current.history_len() == i,
                i == 0 ==> current.keys() == pos.keys(),
                i > 0 ==> current.history()[0] == pos.keys(),
                spec_replay(pos.contents(), pv@) == spec_replay(current.contents(), pv@.skip(i as int)),
            decreases pv.len() - i,
        {
            let m = pv[i];
            proof {
                assert(pv@.skip(i as int)[0] == m);
                assert(pv@.skip(i as int).drop_first() =~= pv@.skip(i + 1));
            }
            if !current.try_do_move(m) {
                return None;
            }
            i += 1;
        }
        proof {
            assert(pv@.skip(pv.len() as int).len() == 0);
        }
        Some(current)
    }
}

impl Search {
    /// Empty the search path (back to the prefix keys, when set) and the
    /// move line.
    fn reset_search_state(&mut self)
        requires
            old(self).wf(),
        ensures
            final(self).wf(),
            final(self).same_settings(*old(self)),
            final(self).spec_run_stats() == old(self).spec_run_stats(),
            final(self).table() == old(self).table(),
            final(self).evals() == old(self).evals(),
            final(self).node_count() == old(self).node_count(),
            final(self).line() == Seq::<Move>::empty(),
            final(self).path() == (match old(self).prefix_path {
                Some(keys) => keys@,
                None => Seq::<u64>::empty(),
            }),
    {
        self.path_stack.clear();
        self.move_stack.clear();
        self.max_depth_reached = 0;
        match &self.prefix_path {
            Some(keys) => {
                let mut copy: Vec<u64> = Vec::new();
                let mut i: usize = 0;
                while i < keys.len()
                    invariant
                        i <= keys.len(),
                        copy@ == keys@.take(i as int),
                    decreases keys.len() - i,
                {
                    copy.push(keys[i]);
                    i += 1;
                    proof {
                        assert(copy@ =~= keys@.take(i as int));
                    }
                }
                proof {
                    assert(copy@ =~= keys@);
                }
                self.path_stack = copy;
            },
            None => {},
        }
    }

    /// Start a run: reset the path and the counters and set the deadline to
    /// the timeout from now (no deadline when that instant cannot be
    /// represented).
    fn begin_run(&mut self)
        requires
            old(self).wf(),
        ensures
            final(self).wf(),
            final(self).table() == old(self).table(),
            final(self).evals() == 0,
            final(self).node_count() == 0,
            final(self).line() == Seq::<Move>::empty(),
            final(self).spec_run_stats() == (0u64, 0u32, 0u64, PvStatus::NoPv, false),
            final(self).budget() == old(self).budget(),
            final(self).spec_max_ply() == old(self).spec_max_ply(),
            final(self).spec_first_outcome_only() == old(self).spec_first_outcome_only(),
            final(self).spec_signals() == old(self).spec_signals(),
            final(self).epsilon() == old(self).epsilon(),
            final(self).spec_refine_cap() == old(self).spec_refine_cap(),
    {
        self.reset_search_state();
        self.nodes = 0;
        self.child_evals = 0;
        self.first_outcome_evals = 0;
        self.refinement_rounds = 0;
        self.refinement_evals = 0;
        self.pv_status = PvStatus::NoPv;
        self.last_round_cap_cut = false;
        let start = signals::instant_now();
        self.deadline = signals::instant_plus_secs(&start, self.timeout_secs);
    }

    /// One bounded search of `pos` to `max_depth` plies, in work chunks that
    /// grow (geometrically or linearly) until the root is decided, the
    /// bounded tree is exhausted, or a limit stops it: the clock, a flag, the
    /// child-evaluation budget, or `round_work_cap` evaluations for this
    /// call. Returns the outcome, the table's line from `pos`, and why it
    /// stopped.
    pub fn bounded_search(&mut self, pos: &mut Position, max_depth: u32, round_work_cap: u64) -> (r: (
        Outcome,
        Vec<Move>,
        RoundTermination,
    ))
        requires
            old(self).wf(),
            old(pos).wf(),
        ensures
            final(self).wf(),
            final(pos).wf(),
            final(pos).keys() == old(pos).keys(),
            final(pos).contents() == old(pos).contents(),
            final(pos).board_history() == old(pos).board_history(),
            final(pos).history() == old(pos).history(),
            final(self).same_settings(*old(self)),
            final(self).spec_run_stats() == old(self).spec_run_stats(),
            old(self).evals() <= final(self).evals(),
            r.0 != Outcome::Draw <==> r.2 == RoundTermination::Decisive,
            r.0 != Outcome::Draw ==> final(self).solved_at(old(pos).key(), r.0),
            r.1.len() <= final(self).spec_max_ply(),
            r.1.len() > 0 ==> final(self).table().spec_probe(old(pos).key()) is Some
                && r.1@[0] == final(self).table().spec_probe(old(pos).key())->0.best_move,
            spec_replay(old(pos).contents(), r.1@) is Some,
            old(self).evals() >= old(self).budget() ==> r.0 == Outcome::Draw && final(self).table() == old(self).table(),
            round_work_cap == 0 ==> r.0 == Outcome::Draw,
            old(self).unlimited() && old(self).evals() < old(self).budget() && round_work_cap > 0 ==> (spec_contents_outcome(
                old(pos).contents(),
            ) matches Some(o) ==> r.0 == o),
    {
        let mut outcome = Outcome::Draw;
        let mut termination = RoundTermination::ResourceCut;
        let mut chunk: u64 = 500_000;
        let round_evals_start = self.child_evals;

        while !self.time_exceeded() && !self.child_eval_budget_exceeded() && chunk > 0
            invariant_except_break
                outcome == Outcome::Draw,
                termination == RoundTermination::ResourceCut,
                old(self).unlimited() && old(self).evals() < old(self).budget() && round_work_cap > 0 && spec_contents_outcome(
                    old(pos).contents(),
                ) is Some && spec_contents_outcome(old(pos).contents()) != Some(Outcome::Draw) ==> self.evals() == round_evals_start
                    && chunk > 0,
            invariant
                self.wf(),
                pos.wf(),
                pos.keys() == old(pos).keys(),
                pos.history() == old(pos).history(),
                pos.contents() == old(pos).contents(),
                pos.board_history() == old(pos).board_history(),
                self.same_settings(*old(self)),
                self.spec_run_stats() == old(self).spec_run_stats(),
                old(self).evals() == round_evals_start,
                round_evals_start <= self.evals(),
                round_evals_start >= self.budget() ==> self.table() == old(self).table(),
            ensures
                outcome != Outcome::Draw <==> termination == RoundTermination::Decisive,
                outcome != Outcome::Draw ==> self.solved_at(old(pos).key(), outcome),
                round_evals_start >= self.budget() ==> self.table() == old(self).table() && outcome == Outcome::Draw,
                round_work_cap == 0 ==> outcome == Outcome::Draw,
                old(self).unlimited() && old(self).evals() < old(self).budget() && round_work_cap > 0 ==> (spec_contents_outcome(
                    old(pos).contents(),
                ) matches Some(o) ==> outcome == o),
            decreases u64::MAX - self.evals(),
        {
            self.reset_search_state();
            let before = self.child_evals;
            // Cap the call at the remaining budget and at what is left of the
            // round cap: a cut then looks like an ordinary chunk cutoff.
            let remaining_budget = self.child_eval_budget.saturating_sub(self.child_evals);
            let round_remaining = round_work_cap.saturating_sub(self.child_evals - round_evals_start);
            let m1 = if chunk < remaining_budget { chunk } else { remaining_budget };
            let call_max_work = if m1 < round_remaining { m1 } else { round_remaining };
            if call_max_work == 0 {
                // On a tie the global budget was spent too: a resource cut.
                termination = if round_remaining < remaining_budget {
                    RoundTermination::CapCut
                } else {
                    RoundTermination::ResourceCut
                };
                break;
            }
            assert(old(self).unlimited() ==> self.unlimited());
            let o = self.dfpn(pos, INF, INF, max_depth, call_max_work, true);
            if o != Outcome::Draw {
                outcome = o;
                termination = RoundTermination::Decisive;
                break;
            }
            let work_done = self.child_evals - before;
            if work_done < call_max_work {
                // The chunk was not used up: the bounded tree is exhausted,
                // unless a limit fired during it.
                termination = if self.time_exceeded() || self.child_eval_budget_exceeded() {
                    RoundTermination::ResourceCut
                } else {
                    RoundTermination::Exhausted
                };
                break;
            }
            chunk = if self.linear_chunks {
                chunk.saturating_add(self.chunk_increment)
            } else {
                let a = chunk as u128;
                let b = self.chunk_multiplier_num as u128;
                proof {
                    assert(a * b <= 0xffff_ffff_ffff_ffffu128 * 0xffff_ffff_ffff_ffffu128) by (nonlinear_arith)
                        requires a <= 0xffff_ffff_ffff_ffffu128, b <= 0xffff_ffff_ffff_ffffu128;
                }
                #[verifier::truncate] ((a * b / (self.chunk_multiplier_den as u128)) as u64)
            };
        }
        let pv = self.extract_pv(pos);
        (outcome, pv, termination)
    }
}

impl Search {
    /// One bounded search of `pos` to `max_depth` plies from a fresh run.
    /// Returns the outcome, the table's line and the nodes visited.
    pub fn search_depth(&mut self, pos: &mut Position, max_depth: u32) -> (r: (Outcome, Vec<Move>, u64))
        requires
            old(self).wf(),
            old(pos).wf(),
        ensures
            final(self).wf(),
            final(pos).wf(),
            final(pos).keys() == old(pos).keys(),
            final(pos).contents() == old(pos).contents(),
            final(pos).board_history() == old(pos).board_history(),
            final(pos).history() == old(pos).history(),
            r.0 != Outcome::Draw ==> final(self).solved_at(old(pos).key(), r.0),
            r.1.len() <= final(self).spec_max_ply(),
            r.2 == final(self).node_count(),
    {
        self.begin_run();
        let (outcome, pv, _termination) = self.bounded_search(pos, max_depth, u64::MAX);
        (outcome, pv, self.nodes)
    }

    /// A bounded OR-node search of `pos` whose repetition path starts with
    /// `prefix_keys` (the positions before `pos`). Returns the outcome, the
    /// line length of a win (0 otherwise) and the nodes visited; the prefix
    /// setting is restored afterwards.
    pub fn search_depth_with_prefix(&mut self, pos: &mut Position, max_depth: u32, prefix_keys: &[u64]) -> (r: (
        Outcome,
        u32,
        u64,
    ))
        requires
            old(self).wf(),
            old(pos).wf(),
        ensures
            final(self).wf(),
            final(pos).wf(),
            final(pos).keys() == old(pos).keys(),
            final(pos).contents() == old(pos).contents(),
            final(pos).board_history() == old(pos).board_history(),
            final(pos).history() == old(pos).history(),
            final(self).spec_prefix() == old(self).spec_prefix(),
            r.0 != Outcome::Draw ==> final(self).solved_at(old(pos).key(), r.0),
            r.0 != Outcome::Win ==> r.1 == 0,
            r.2 == final(self).node_count(),
    {
        let saved_prefix = self.prefix_path.take();
        let mut keys: Vec<u64> = Vec::new();
        let mut i: usize = 0;
        while i < prefix_keys.len()
            invariant
                i <= prefix_keys.len(),
                keys@ == prefix_keys@.take(i as int),
            decreases prefix_keys.len() - i,
        {
            keys.push(prefix_keys[i]);
            i += 1;
            proof {
                assert(keys@ =~= prefix_keys@.take(i as int));
            }
        }
        self.prefix_path = Some(keys);
        self.begin_run();
        let (outcome, pv, _termination) = self.bounded_search(pos, max_depth, u64::MAX);
        let depth: u32 = if outcome == Outcome::Win {
            #[verifier::truncate] (pv.len() as u32)
        } else {
            0
        };
        self.prefix_path = saved_prefix;
        (outcome, depth, self.nodes)
    }

    /// Solve `pos`: the first decisive outcome, then refinement rounds that
    /// look for a line two plies shorter until a round fails. Returns the
    /// outcome, the shortest line found and the nodes visited.
    pub fn solve(&mut self, pos: &mut Position) -> (r: (Outcome, Vec<Move>, u64))
        requires
            old(self).wf(),
            old(pos).wf(),
        ensures
            final(self).wf(),
            final(pos).wf(),
            final(pos).keys() == old(pos).keys(),
            final(pos).contents() == old(pos).contents(),
            final(pos).board_history() == old(pos).board_history(),
            final(pos).history() == old(pos).history(),
            r.2 == final(self).node_count(),
            spec_replay(old(pos).contents(), r.1@) is Some,
            (final(self).spec_run_stats().3 == PvStatus::NoPv) <==> r.0 == Outcome::Draw,
            final(self).spec_first_outcome_only() ==> final(self).spec_run_stats().1 == 0,
            final(self).spec_run_stats().3 == PvStatus::FirstOutcome ==> final(self).spec_run_stats().1 == 0 || !final(self).spec_first_outcome_only(),
            old(self).budget() == 0 ==> r.0 == Outcome::Draw && final(self).table() == old(self).table(),
            final(self).unlimited() && old(self).budget() > 0 ==> (spec_contents_outcome(old(pos).contents()) matches Some(o)
                ==> r.0 == o),
    {
        self.solve_with_progress(pos, |o: Outcome, line: &[Move]| {})
    }

    /// As [`Search::solve`], calling `on_progress` with each decisive line
    /// found: the first one and every shorter one. The status of the line
    /// afterwards tells whether it is proven shortest.
    pub fn solve_with_progress<F: Fn(Outcome, &[Move])>(&mut self, pos: &mut Position, on_progress: F) -> (r: (
        Outcome,
        Vec<Move>,
        u64,
    ))
        requires
            old(self).wf(),
            old(pos).wf(),
            forall|o: Outcome, line: &[Move]| #[trigger] on_progress.requires((o, line)),
        ensures
            final(self).wf(),
            final(pos).wf(),
            final(pos).keys() == old(pos).keys(),
            final(pos).contents() == old(pos).contents(),
            final(pos).board_history() == old(pos).board_history(),
            final(pos).history() == old(pos).history(),
            r.2 == final(self).node_count(),
            spec_replay(old(pos).contents(), r.1@) is Some,
            (final(self).spec_run_stats().3 == PvStatus::NoPv) <==> r.0 == Outcome::Draw,
            final(self).spec_first_outcome_only() ==> final(self).spec_run_stats().1 == 0,
            final(self).spec_run_stats().3 == PvStatus::FirstOutcome ==> final(self).spec_run_stats().1 == 0 || !final(self).spec_first_outcome_only(),
            old(self).budget() == 0 ==> r.0 == Outcome::Draw && final(self).table() == old(self).table(),
            final(self).unlimited() && old(self).budget() > 0 ==> (spec_contents_outcome(old(pos).contents()) matches Some(o)
                ==> r.0 == o),
    {
        self.begin_run();
        let ghost settings = *self;

        // 1. The first decisive outcome, at unbounded depth.
        let (first_outcome, first_pv, _first_phase) = self.bounded_search(pos, u32::MAX, u64::MAX);
        let mut outcome = first_outcome;
        let mut pv = first_pv;
        if outcome != Outcome::Draw || pv.len() > 0 {
            on_progress(outcome, pv.as_slice());
        }
        self.first_outcome_evals = self.child_evals;

        // 2. Tighten the bound by two plies per round.
        let mut n: u32 = #[verifier::truncate] (pv.len() as u32);
        let mut improved = false;
        let mut round_status: Option<PvStatus> = None;
        let mut rounds: u32 = 0;
        while !self.first_outcome_only && outcome != Outcome::Draw && n > 2 && !self.time_exceeded()
            && !self.child_eval_budget_exceeded()
            invariant_except_break
                round_status is None,
            invariant
                self.wf(),
                pos.wf(),
                pos.keys() == old(pos).keys(),
                pos.history() == old(pos).history(),
                pos.contents() == old(pos).contents(),
                pos.board_history() == old(pos).board_history(),
                self.same_settings(settings),
                self.first_outcome_evals <= self.child_evals,
                self.refinement_rounds == rounds,
                round_status is Some ==> round_status != Some(PvStatus::NoPv) && round_status != Some(PvStatus::FirstOutcome),
                outcome != Outcome::Draw || rounds == 0,
                self.first_outcome_only ==> rounds == 0,
                improved ==> rounds > 0,
                round_status is Some ==> outcome != Outcome::Draw,
                spec_replay(old(pos).contents(), pv@) is Some,
                self.budget() == 0 ==> outcome == Outcome::Draw && self.table() == old(self).table(),
                self.unlimited() && self.budget() > 0 ==> (spec_contents_outcome(old(pos).contents()) matches Some(o)
                    ==> outcome == o),
                forall|o: Outcome, line: &[Move]| #[trigger] on_progress.requires((o, line)),
            decreases n,
        {
            let bound = n - 2;
            let round_cap = self.refinement_round_cap();
            let (new_outcome, new_pv, termination) = self.bounded_search(pos, bound, round_cap);
            self.refinement_rounds = self.refinement_rounds.saturating_add(1);
            rounds = self.refinement_rounds;
            self.refinement_evals = self.child_evals - self.first_outcome_evals;
            if new_outcome == Outcome::Draw {
                round_status = Some(
                    match termination {
                        RoundTermination::Exhausted => PvStatus::ProvenShortest,
                        RoundTermination::CapCut => {
                            self.last_round_cap_cut = true;
                            PvStatus::Unproven
                        },
                        _ => PvStatus::Unproven,
                    },
                );
                break;
            }
            if new_pv.len() >= n as usize {
                round_status = Some(PvStatus::Unproven);
                break;
            }
            outcome = new_outcome;
            pv = new_pv;
            n = #[verifier::truncate] (pv.len() as u32);
            improved = true;
            on_progress(outcome, pv.as_slice());
        }

        let status = match round_status {
            Some(st) => st,
            None => if outcome == Outcome::Draw {
                PvStatus::NoPv
            } else if n <= 2 {
                PvStatus::ProvenShortest
            } else if improved {
                PvStatus::Unproven
            } else {
                PvStatus::FirstOutcome
            },
        };
        self.pv_status = status;
        (outcome, pv, self.nodes)
    }
}

/// The killer bonus of `m` at ply `depth`.
pub open spec fn spec_killer_score(killers: KillerTable, m: Move, depth: int) -> int {
    if depth < MAX_KILLER_DEPTH && (killers.killer(depth, 0) == m || killers.killer(depth, 1) == m) {
        SCORE_KILLER as int
    } else {
        0
    }
}

/// `x` held to the `i32` range.
pub open spec fn spec_clamp_i32(x: int) -> int {
    if x > i32::MAX {
        i32::MAX as int
    } else if x < i32::MIN {
        i32::MIN as int
    } else {
        x
    }
}

impl Search {
    /// The move-ordering scores of every legal move of `pos` at the current
    /// depth, as `(move, static, history, killer, total)`, highest total
    /// first (stable); the total saturates at the `i32` range.
    pub fn move_order_breakdown(&self, pos: &Position, is_or_node: bool) -> (r: Vec<(Move, i32, i32, i32, i32)>)
        requires
            self.wf(),
            pos.wf(),
        ensures
            forall|i: int, j: int| 0 <= i < j < r.len() ==> (#[trigger] r@[i]).4 >= (#[trigger] r@[j]).4,
            forall|i: int| 0 <= i < r.len() ==> (#[trigger] r@[i]).4 == spec_clamp_i32(r@[i].1 + r@[i].2 + r@[i].3),
            forall|i: int| 0 <= i < r.len() ==> (#[trigger] r@[i]).3 == spec_killer_score(self.spec_killers(), r@[i].0, self.path().len() as int),
    {
        let moves = pos.legal_moves_vec();
        let us = pos.side_to_move();
        let depth = self.path_stack.len();
        let snap = board_snapshot(pos);
        let nearest = nearest_map_from(snap.them_commoners);
        let n = moves.len();
        let mut rows: Vec<(Move, i32, i32, i32, i32)> = Vec::new();
        let mut keyed: Vec<(Move, i64, usize)> = Vec::new();
        let mut i: usize = 0;
        while i < n
            invariant
                n == moves.len(),
                i <= n,
                rows.len() == i,
                keyed.len() == i,
                self.wf(),
                snap.wf(),
                nearest.len() == 64,
                forall|k: int| 0 <= k < i ==> (#[trigger] keyed@[k]).2 == k && keyed@[k].1 == rows@[k].4 as i64,
                forall|k: int| 0 <= k < i ==> (#[trigger] rows@[k]).4 == spec_clamp_i32(rows@[k].1 + rows@[k].2 + rows@[k].3),
                forall|k: int| 0 <= k < i ==> (#[trigger] rows@[k]).3 == spec_killer_score(self.killers, rows@[k].0, depth as int),
                depth == self.path_stack.len(),
            decreases n - i,
        {
            let m = moves[i];
            let (is_capture, attackers) = move_facts(pos, &snap, m);
            let static_score = self.scorer.score_with_map(&snap, m, is_capture, attackers, &nearest, is_or_node);
            let hist = self.history.get(us, m.from_sq(), m.to_sq());
            let killer = killer_bonus(&self.killers, m, depth);
            let total_wide: i64 = static_score as i64 + hist as i64 + killer as i64;
            let total: i32 = if total_wide > i32::MAX as i64 {
                i32::MAX
            } else if total_wide < i32::MIN as i64 {
                i32::MIN
            } else {
                total_wide as i32
            };
            rows.push((m, static_score, hist, killer, total));
            keyed.push((m, total as i64, i));
            i += 1;
        }
        let ghost orig = keyed@;
        sort_by_score(&mut keyed);
        let mut out: Vec<(Move, i32, i32, i32, i32)> = Vec::new();
        let mut k: usize = 0;
        while k < n
            invariant
                k <= n,
                keyed.len() == n,
                rows.len() == n,
                out.len() == k,
                forall|t: int| 0 <= t < n ==> 0 <= (#[trigger] keyed@[t]).2 < n && keyed@[t] == orig[keyed@[t].2 as int],
                forall|t: int| 0 <= t < n ==> (#[trigger] orig[t]).2 == t && orig[t].1 == rows@[t].4 as i64,
                forall|t: int| 0 <= t < k ==> (#[trigger] out@[t]).4 as i64 == keyed@[t].1,
                forall|t: int| 0 <= t < n ==> (#[trigger] rows@[t]).4 == spec_clamp_i32(rows@[t].1 + rows@[t].2 + rows@[t].3),
                forall|t: int| 0 <= t < n ==> (#[trigger] rows@[t]).3 == spec_killer_score(self.killers, rows@[t].0, depth as int),
                forall|t: int| 0 <= t < k ==> #[trigger] out@[t] == rows@[keyed@[t].2 as int],
            decreases n - k,
        {
            let idx = keyed[k].2;
            out.push(rows[idx]);
            k += 1;
        }
        proof {
            assert forall|a: int, b: int| 0 <= a < b < out.len() implies (#[trigger] out@[a]).4 >= (#[trigger] out@[b]).4 by {
                assert(crate::search::ordering::spec_ranks_before(keyed@[a], keyed@[b]));
            }
        }
        out
    }
}
} // verus!
