//! The reconstruction walk: top-down resolution, hole filling, and the
//! proven nodes handed to the proof-tree builder.

use std::collections::HashMap;
use std::sync::atomic::AtomicBool;
use std::sync::Arc;

use vstd::prelude::*;

use crate::movegen;
use crate::moves::Move;
use crate::notation::{move_to_uci, moves_to_uci_path, spec_uci_suffix};
use crate::position::{Outcome, Position};
use crate::proof_event::{spec_last_move, NodeProven, ProofEvent};
use crate::proof_tree::node::ProofTree;
use crate::proof_tree::validate::copy_moves;
use crate::proof_tree::worker::{spec_recorded_at, spec_recorded_parts, ProofTreeWorker};
use crate::reconstruct::{
    build_solved_map, classify_node, seed_search, ReconstructConfig, ReconstructOutput, ReconstructStats, Resolution,
};
use crate::search::dfpn::Search;
use crate::search::tt::TtEntry;
use crate::tt_snapshot::SolvedRecord;

use crate::movegen::{spec_fullmove_small, spec_parse_fen};

verus! {

broadcast use vstd::std_specs::hash::group_hash_axioms;

/// Fill searches are bounded by child evaluations only; their wall-clock
/// limit is a century, so reconstruction stays deterministic.
pub const FILL_TIMEOUT_SECS: u64 = 100 * 365 * 24 * 60 * 60;

/// The deepest line the walk follows.
pub const MAX_WALK_PLIES: u32 = 0xFFFF_FFFF;

fn bump(x: u64) -> (r: u64)
    ensures
        r == (if x < u64::MAX { x + 1 } else { x as int }),
{
    if x < u64::MAX {
        x + 1
    } else {
        x
    }
}

/// `a + b`, stopping at the largest count.
fn sat_add(a: u64, b: u64) -> (r: u64)
    ensures
        r == (if a + b <= u64::MAX { a + b } else { u64::MAX as int }),
{
    if a <= u64::MAX - b {
        a + b
    } else {
        u64::MAX
    }
}

/// Whether `key` occurs in `v[..len]`.
fn contains_before(v: &Vec<u64>, len: usize, key: u64) -> (r: bool)
    requires
        len <= v.len(),
    ensures
        r == v@.take(len as int).contains(key),
{
    let mut i: usize = 0;
    while i < len
        invariant
            i <= len,
            len <= v.len(),
            forall|j: int| 0 <= j < i ==> v@[j] != key,
        decreases len - i,
    {
        if v[i] == key {
            proof {
                assert(v@.take(len as int)[i as int] == key);
            }
            return true;
        }
        i += 1;
    }
    proof {
        assert forall|j: int| 0 <= j < len implies v@.take(len as int)[j] != key by {
            assert(v@.take(len as int)[j] == v@[j]);
        }
    }
    false
}

fn prefix_before(v: &Vec<u64>, len: usize) -> (r: Vec<u64>)
    requires
        len <= v.len(),
    ensures
        r@ == v@.take(len as int),
{
    let mut out: Vec<u64> = Vec::new();
    let mut i: usize = 0;
    while i < len
        invariant
            i <= len,
            len <= v.len(),
            out@ == v@.take(i as int),
        decreases len - i,
    {
        out.push(v[i]);
        i += 1;
        proof {
            assert(out@ =~= v@.take(i as int));
        }
    }
    out
}

fn contains_move(v: &Vec<Move>, m: Move) -> (r: bool)
    ensures
        r == v@.contains(m),
{
    let mut i: usize = 0;
    while i < v.len()
        invariant
            i <= v.len(),
            forall|j: int| 0 <= j < i ==> v@[j] != m,
        decreases v.len() - i,
    {
        if v[i] == m {
            return true;
        }
        i += 1;
    }
    false
}

/// The state of one reconstruction walk.
pub struct Walker {
    fill_base: u32,
    fill_depth_cap: u32,
    fill_attempt_budget: u64,
    fill_total_budget: u64,
    map: HashMap<u64, SolvedRecord>,
    fill: Search,
    worker: ProofTreeWorker,
    pos: Position,
    /// Moves from the root to the current node.
    path: Vec<Move>,
    /// Repetition keys of the root up to the current node, inclusive.
    prefix: Vec<u64>,
    stats: ReconstructStats,
    fill_evals: u64,
}

impl Walker {
    pub closed spec fn wf(self) -> bool {
        &&& self.fill.wf()
        &&& self.worker.wf()
        &&& self.pos.wf()
        &&& self.prefix.len() > 0
    }

    /// The walk's position, line and prefix, which a visit restores.
    pub closed spec fn place(self) -> ((u64, u64, u16), Seq<(u64, u64, u16)>, Seq<Move>, Seq<u64>, Seq<u64>, Seq<Seq<u64>>) {
        (self.pos.keys(), self.pos.history(), self.path@, self.prefix@, self.pos.contents(), self.pos.board_history())
    }

    /// The position the walk stands on.
    pub closed spec fn position(self) -> Position {
        self.pos
    }

    /// The root's walker: the snapshot map, a fill search seeded with the
    /// snapshot, and a builder for the tree of `root_fen`.
    fn new(root_fen: &str, pos: Position, solved: &[SolvedRecord], config: &ReconstructConfig) -> (r: Walker)
        requires
            pos.wf(),
        ensures
            r.wf(),
    {
        let (map, duplicates) = build_solved_map(solved);
        let mut stats = ReconstructStats {
            hit: 0,
            terminal: 0,
            clock_hit: 0,
            clock_miss_draw: 0,
            repetition: 0,
            absent: 0,
            filled: 0,
            unfillable: 0,
            anomalies: 0,
            duplicate_keys: duplicates,
        };
        let mut fill = Search::new(config.tt_mb);
        fill.set_timeout(FILL_TIMEOUT_SECS);
        seed_search(&mut fill, solved);
        let budget = if config.pt_size_mb <= usize::MAX / (1024 * 1024) {
            config.pt_size_mb * (1024 * 1024)
        } else {
            usize::MAX
        };
        let worker = ProofTreeWorker::new(String::from_str(root_fen), budget, Arc::new(AtomicBool::new(false)));
        let mut prefix: Vec<u64> = Vec::new();
        prefix.push(pos.repetition_key());
        Walker {
            fill_base: config.fill_base,
            fill_depth_cap: config.fill_depth_cap,
            fill_attempt_budget: config.fill_attempt_budget,
            fill_total_budget: config.fill_total_budget,
            map,
            fill,
            worker,
            pos,
            path: Vec::new(),
            prefix,
            stats,
            fill_evals: 0,
        }
    }

    /// The records the walk resolves nodes from, by position key.
    pub closed spec fn solved_map(self) -> Map<u64, SolvedRecord> {
        self.map@
    }

    /// The slots of the fill search's table.
    pub closed spec fn fill_slots(self) -> Seq<TtEntry> {
        self.fill.table().slots()
    }

    /// The fill settings and the child evaluations spent on fills:
    /// `(base, depth cap, per-attempt budget, total budget, spent)`.
    pub closed spec fn fill_limits(self) -> (u32, u32, u64, u64, u64) {
        (self.fill_base, self.fill_depth_cap, self.fill_attempt_budget, self.fill_total_budget, self.fill_evals)
    }

    /// The current line as text: `root` and the moves in UCI.
    fn path_text(&self) -> (r: String)
        ensures
            r@ == "root"@ + spec_uci_suffix(self.place().2),
    {
        moves_to_uci_path(self.path.as_slice())
    }

    /// The proof tree built so far.
    pub closed spec fn built_tree(self) -> ProofTree {
        self.worker.spec_tree()
    }

    /// Hand the current node to the builder as proven.
    fn emit(&mut self, outcome: Outcome, depth: u32)
        requires
            old(self).wf(),
        ensures
            final(self).wf(),
            final(self).place() == old(self).place(),
            ({
                let before = old(self).built_tree().nodes@;
                let after = final(self).built_tree().nodes@;
                let path = old(self).place().2;
                ||| final(self).built_tree() == old(self).built_tree()
                ||| after.len() >= 0xFFFF_FFFF - 2
                ||| exists|id: int|
                    #[trigger] spec_recorded_parts(
                        before,
                        after,
                        path,
                        spec_last_move(path),
                        old(self).place().0.0,
                        outcome,
                        depth,
                        id,
                    )
            }),
    {
        let np = NodeProven::new(copy_moves(&self.path), self.pos.hash(), outcome, depth);
        let ghost npg = np;
        let ghost before = self.worker.spec_tree().nodes@;
        self.worker.handle_event(ProofEvent::NodeProven(np));
        proof {
            let after = self.worker.spec_tree().nodes@;
            assert(npg.hash == old(self).place().0.0);
            assert(npg.path@ == old(self).place().2);
            assert(self.built_tree() == old(self).built_tree() || after.len() >= 0xFFFF_FFFF - 2 || exists|id: int|
                #[trigger] spec_recorded_at(before, after, npg, id));
            if exists|id: int| #[trigger] spec_recorded_at(before, after, npg, id) {
                let id = choose|id: int| #[trigger] spec_recorded_at(before, after, npg, id);
                assert(spec_recorded_parts(before, after, npg.path@, npg.mv, npg.hash, npg.outcome, npg.depth, id));
            }
        }
    }

    /// Check a resolved outcome against what the parent's proof needs: a
    /// decisive outcome at the root, the expected one elsewhere.
    fn expect(&mut self, expected: Option<Outcome>, resolved: Outcome) -> (r: Result<(), String>)
        requires
            old(self).wf(),
        ensures
            final(self).wf(),
            final(self).place() == old(self).place(),
            r is Ok <==> (match expected {
                None => resolved != Outcome::Draw,
                Some(e) => e == resolved,
            }),
    {
        match expected {
            None => {
                if resolved == Outcome::Draw {
                    return Err(String::from_str("snapshot does not prove a decisive root"));
                }
                Ok(())
            },
            Some(e) => {
                if e == resolved {
                    Ok(())
                } else {
                    self.stats.anomalies = bump(self.stats.anomalies);
                    let mut msg = String::from_str("anomaly: node at ");
                    msg.append(self.path_text().as_str());
                    msg.append(" resolved ");
                    msg.append(resolved.as_str());
                    msg.append(" but ");
                    msg.append(e.as_str());
                    msg.append(" required");
                    Err(msg)
                }
            },
        }
    }

    /// Copy the fill search's solved entries into the walk's map, first
    /// wins.
    fn harvest(&mut self)
        requires
            old(self).wf(),
        ensures
            final(self).wf(),
            final(self).place() == old(self).place(),
            forall|k: u64| #[trigger] old(self).solved_map().contains_key(k) ==> final(self).solved_map().contains_key(k)
                && final(self).solved_map()[k] == old(self).solved_map()[k],
            forall|i: int| 0 <= i < old(self).fill_slots().len() && (#[trigger] old(self).fill_slots()[i]).valid
                && old(self).fill_slots()[i].outcome is Some ==> final(self).solved_map().contains_key(old(self).fill_slots()[i].key),
            forall|k: u64| #[trigger] final(self).solved_map().contains_key(k) ==> old(self).solved_map().contains_key(k) || exists|i: int|
                0 <= i < old(self).fill_slots().len() && (#[trigger] old(self).fill_slots()[i]).valid && old(self).fill_slots()[i].outcome
                    is Some && old(self).fill_slots()[i].key == k && final(self).solved_map()[k] == (SolvedRecord {
                    key: k,
                    outcome: old(self).fill_slots()[i].outcome->0,
                    depth: old(self).fill_slots()[i].depth,
                    best_move: old(self).fill_slots()[i].best_move,
                }),
    {
        let entries = self.fill.tt().entries();
        let ghost slots = entries@;
        let ghost map0 = self.map@;
        let mut i: usize = 0;
        while i < entries.len()
            invariant
                i <= entries.len(),
                self.wf(),
                self.place() == old(self).place(),
                slots == entries@,
                slots == old(self).fill_slots(),
                map0 == old(self).solved_map(),
                forall|k: u64| #[trigger] map0.contains_key(k) ==> self.map@.contains_key(k) && self.map@[k] == map0[k],
                forall|j: int| 0 <= j < i && (#[trigger] slots[j]).valid && slots[j].outcome is Some ==> self.map@.contains_key(
                    slots[j].key,
                ),
                forall|k: u64| #[trigger] self.map@.contains_key(k) ==> map0.contains_key(k) || exists|j: int|
                    0 <= j < i && (#[trigger] slots[j]).valid && slots[j].outcome is Some && slots[j].key == k && self.map@[k] == (
                    SolvedRecord {
                        key: k,
                        outcome: slots[j].outcome->0,
                        depth: slots[j].depth,
                        best_move: slots[j].best_move,
                    }),
            decreases entries.len() - i,
        {
            let e = entries[i];
            if e.valid {
                if let Some(outcome) = e.outcome {
                    if !self.map.contains_key(&e.key) {
                        let ghost before = self.map@;
                        self.map.insert(e.key, SolvedRecord { key: e.key, outcome, depth: e.depth, best_move: e.best_move });
                        proof {
                            assert forall|k: u64| #[trigger] map0.contains_key(k) implies self.map@.contains_key(k) && self.map@[k]
                                == map0[k] by {
                                assert(before.contains_key(k));
                            }
                            assert forall|k: u64| #[trigger] self.map@.contains_key(k) implies map0.contains_key(k) || exists|j: int|
                                0 <= j < i + 1 && (#[trigger] slots[j]).valid && slots[j].outcome is Some && slots[j].key == k
                                    && self.map@[k] == (SolvedRecord {
                                    key: k,
                                    outcome: slots[j].outcome->0,
                                    depth: slots[j].depth,
                                    best_move: slots[j].best_move,
                                }) by {
                                if k == e.key {
                                    assert(slots[i as int] == e);
                                } else {
                                    assert(before.contains_key(k));
                                }
                            }
                        }
                    }
                }
            }
            i += 1;
        }
    }

    /// Fill a hole at the current node with bounded local solves of
    /// doubling depth that keep the walk's repetition history. Returns the
    /// proven outcome and its depth (the win depth of a win, the solving
    /// bound of a loss).
    fn fill_hole(&mut self, expected: Option<Outcome>, parent_depth: Option<u32>) -> (r: Result<(Outcome, u32), String>)
        requires
            old(self).wf(),
            expected is None || expected == Some(Outcome::Win) || expected == Some(Outcome::Loss),
        ensures
            final(self).wf(),
            final(self).place() == old(self).place(),
            r matches Ok((o, _)) ==> o != Outcome::Draw && (expected matches Some(e) ==> o == e),
            ({
                let lim = old(self).fill_limits();
                let start = match parent_depth {
                    Some(d) => d,
                    None => lim.0,
                };
                let first = if start >= 1 { start } else { 1 };
                &&& first > lim.1 ==> r is Err
                &&& lim.3 > 0 && lim.4 >= lim.3 ==> r is Err
            }),
            r is Ok ==> final(self).solved_map().contains_key(old(self).place().0.0),
    {
        let start = match parent_depth {
            Some(d) => d,
            None => self.fill_base,
        };
        let mut bound: u32 = if start >= 1 { start } else { 1 };
        let ghost first = bound;
        loop
            invariant
                self.wf(),
                self.place() == old(self).place(),
                bound >= 1,
                bound >= first,
                first == (if start >= 1 { start } else { 1 }),
                start == (match parent_depth {
                    Some(d) => d,
                    None => old(self).fill_limits().0,
                }),
                self.fill_limits().1 == old(self).fill_limits().1,
                self.fill_limits().3 == old(self).fill_limits().3,
                self.fill_limits().4 >= old(self).fill_limits().4,
                expected is None || expected == Some(Outcome::Win) || expected == Some(Outcome::Loss),
            decreases u32::MAX - bound,
        {
            if bound > self.fill_depth_cap {
                self.stats.unfillable = bump(self.stats.unfillable);
                let mut msg = String::from_str("unfillable hole at ");
                msg.append(self.path_text().as_str());
                msg.append(": fill depth cap ");
                crate::text::push_decimal(&mut msg, self.fill_depth_cap as u64);
                msg.append(" exhausted");
                return Err(msg);
            }
            if self.fill_total_budget > 0 && self.fill_evals >= self.fill_total_budget {
                return Err(String::from_str("BudgetExhausted: fill total budget exhausted"));
            }
            let prefix = prefix_before(&self.prefix, self.prefix.len() - 1);
            self.fill.set_child_eval_budget(self.fill_attempt_budget);
            let (outcome, win_depth, _nodes) = self.fill.search_depth_with_prefix(&mut self.pos, bound, prefix.as_slice());
            self.fill_evals = sat_add(self.fill_evals, self.fill.child_evaluations());
            match outcome {
                Outcome::Draw => {
                    if bound == u32::MAX {
                        self.stats.unfillable = bump(self.stats.unfillable);
                        let mut msg = String::from_str("unfillable hole at ");
                        msg.append(self.path_text().as_str());
                        msg.append(": fill depth cap ");
                        crate::text::push_decimal(&mut msg, self.fill_depth_cap as u64);
                        msg.append(" exhausted");
                        return Err(msg);
                    }
                    bound = if bound <= u32::MAX / 2 { bound * 2 } else { u32::MAX };
                },
                _ => {
                    if let Some(e) = expected {
                        if outcome != e {
                            self.stats.anomalies = bump(self.stats.anomalies);
                            let mut msg = String::from_str("anomaly: fill at ");
                            msg.append(self.path_text().as_str());
                            msg.append(" resolved ");
                            msg.append(outcome.as_str());
                            msg.append(" but ");
                            msg.append(e.as_str());
                            msg.append(" required");
                            return Err(msg);
                        }
                    }
                    proof {
                        self.fill.lemma_wf_table();
                        self.fill.table().lemma_probe_is_slot(self.pos.key());
                        let e = self.fill.table().spec_probe(self.pos.key())->0;
                        let t = choose|t: int| 0 <= t < self.fill_slots().len() && #[trigger] self.fill_slots()[t] == e;
                        assert(self.fill_slots()[t].valid && self.fill_slots()[t].outcome is Some);
                    }
                    self.harvest();
                    self.stats.filled = bump(self.stats.filled);
                    let depth = if outcome == Outcome::Win {
                        win_depth
                    } else {
                        bound
                    };
                    return Ok((outcome, depth));
                },
            }
        }
    }

    /// Resolve the node at the current position and walk its proven
    /// subtree. `expected` is `None` at the root and the outcome the
    /// parent's proof needs elsewhere; `parent_depth` seeds the bound of a
    /// fill. `plies_left` bounds the walk's depth.
    fn visit(&mut self, expected: Option<Outcome>, parent_depth: Option<u32>, plies_left: u32) -> (r: Result<Outcome, String>)
        requires
            old(self).wf(),
            expected is None || expected == Some(Outcome::Win) || expected == Some(Outcome::Loss),
        ensures
            final(self).wf(),
            final(self).place() == old(self).place(),
            r matches Ok(o) ==> o != Outcome::Draw && (expected matches Some(e) ==> o == e),
        decreases plies_left, 2int,
    {
        if self.worker.memory_flag_raised() {
            return Err(String::from_str("proof-tree memory limit reached during reconstruction"));
        }
        let mut moves: Vec<Move> = Vec::new();
        let mut state = movegen::state_new();
        self.pos.legal_moves_with_state(&mut moves, &mut state);
        if let Some(terminal) = self.pos.outcome_from_state(&state, &moves) {
            self.stats.terminal = bump(self.stats.terminal);
            match self.expect(expected, terminal) {
                Ok(()) => {},
                Err(e) => {
                    return Err(e);
                },
            }
            self.emit(terminal, 0);
            return Ok(terminal);
        }
        let hash = self.pos.hash();
        let board_key = self.pos.repetition_key();
        let rep_on_prefix = contains_before(&self.prefix, self.prefix.len() - 1, board_key);
        let (outcome, depth, record_best, filled): (Outcome, u32, Move, bool) = match classify_node(
            &self.map,
            hash,
            board_key,
            rep_on_prefix,
        ) {
            Resolution::Hit(record) => {
                self.stats.hit = bump(self.stats.hit);
                match self.expect(expected, record.outcome) {
                    Ok(()) => {},
                    Err(e) => {
                        return Err(e);
                    },
                }
                (record.outcome, record.depth, record.best_move, false)
            },
            Resolution::ClockHit(record) => {
                self.stats.clock_hit = bump(self.stats.clock_hit);
                match self.expect(expected, record.outcome) {
                    Ok(()) => {},
                    Err(e) => {
                        return Err(e);
                    },
                }
                (record.outcome, record.depth, record.best_move, false)
            },
            Resolution::ClockMissDraw => {
                self.stats.clock_miss_draw = bump(self.stats.clock_miss_draw);
                match self.fill_hole(expected, parent_depth) {
                    Ok((o, d)) => (o, d, Move::none(), true),
                    Err(e) => {
                        return Err(e);
                    },
                }
            },
            Resolution::Repetition => {
                self.stats.repetition = bump(self.stats.repetition);
                self.stats.anomalies = bump(self.stats.anomalies);
                let mut msg = String::from_str("anomaly: repetition-context node at ");
                msg.append(self.path_text().as_str());
                msg.append(" (a GHI draw cannot be a child inside a valid proof)");
                return Err(msg);
            },
            Resolution::Absent => {
                self.stats.absent = bump(self.stats.absent);
                match self.fill_hole(expected, parent_depth) {
                    Ok((o, d)) => (o, d, Move::none(), true),
                    Err(e) => {
                        return Err(e);
                    },
                }
            },
        };
        let best_move = if filled {
            let harvested = match self.map.get(&hash) {
                Some(rec) => if rec.outcome == outcome {
                    Some(rec.best_move)
                } else {
                    None
                },
                None => None,
            };
            match harvested {
                Some(m) => m,
                None => {
                    self.stats.anomalies = bump(self.stats.anomalies);
                    let mut msg = String::from_str("anomaly: filled node at ");
                    msg.append(self.path_text().as_str());
                    msg.append(" has no harvested record");
                    return Err(msg);
                },
            }
        } else {
            record_best
        };
        self.emit(outcome, depth);
        match outcome {
            Outcome::Win => {
                match self.descend_best(&moves, best_move, depth, plies_left) {
                    Ok(()) => Ok(Outcome::Win),
                    Err(e) => Err(e),
                }
            },
            Outcome::Loss => {
                let mut i: usize = 0;
                while i < moves.len()
                    invariant
                        self.wf(),
                        self.place() == old(self).place(),
                        moves.len() == old(self).position().legal_codes().len(),
                        forall|j: int| 0 <= j < moves.len() ==> #[trigger] moves@[j]@ == old(self).position().legal_codes()[j],
                    decreases moves.len() - i,
                {
                    proof {
                        crate::position::lemma_listed_is_legal(self.pos, moves@, i as int);
                    }
                    match self.step(moves[i], Outcome::Win, depth, plies_left) {
                        Ok(()) => {},
                        Err(e) => {
                            return Err(e);
                        },
                    }
                    i += 1;
                }
                Ok(Outcome::Loss)
            },
            Outcome::Draw => Err(String::from_str("a draw cannot pass the expectation check")),
        }
    }

    /// Check a won node's best move and descend into it.
    fn descend_best(&mut self, legal: &Vec<Move>, best_move: Move, depth: u32, plies_left: u32) -> (r: Result<(), String>)
        requires
            old(self).wf(),
            legal.len() == old(self).position().legal_codes().len(),
            forall|j: int| 0 <= j < legal.len() ==> #[trigger] legal@[j]@ == old(self).position().legal_codes()[j],
        ensures
            final(self).wf(),
            final(self).place() == old(self).place(),
            best_move == Move::spec_none() || !legal@.contains(best_move) ==> r is Err,
        decreases plies_left, 1int,
    {
        if best_move == Move::none() {
            self.stats.anomalies = bump(self.stats.anomalies);
            let mut msg = String::from_str("anomaly: non-terminal Win node at ");
            msg.append(self.path_text().as_str());
            msg.append(" has best_move NONE");
            return Err(msg);
        }
        if !contains_move(legal, best_move) {
            self.stats.anomalies = bump(self.stats.anomalies);
            let mut msg = String::from_str("anomaly: Win best_move ");
            msg.append(move_to_uci(best_move).as_str());
            msg.append(" is not legal at ");
            msg.append(self.path_text().as_str());
            return Err(msg);
        }
        proof {
            crate::position::lemma_contained_is_legal(self.pos, legal@, best_move);
        }
        self.step(best_move, Outcome::Loss, depth, plies_left)
    }

    /// Play `mv`, visit the child, and take the move back.
    fn step(&mut self, mv: Move, child_expected: Outcome, parent_depth: u32, plies_left: u32) -> (r: Result<(), String>)
        requires
            old(self).wf(),
            old(self).position().is_legal(mv),
            child_expected == Outcome::Win || child_expected == Outcome::Loss,
        ensures
            final(self).wf(),
            final(self).place() == old(self).place(),
            plies_left == 0 ==> r is Err,
        decreases plies_left, 0int,
    {
        if plies_left == 0 {
            let mut msg = String::from_str("walk exceeds the ply limit at ");
            msg.append(self.path_text().as_str());
            return Err(msg);
        }
        self.path.push(mv);
        self.pos.do_move(mv);
        self.prefix.push(self.pos.repetition_key());
        let result = self.visit(Some(child_expected), Some(parent_depth), plies_left - 1);
        let ghost after_visit = self.pos;
        self.prefix.pop();
        self.pos.undo_move(mv);
        self.path.pop();
        proof {
            crate::position::lemma_undo_reverts_do(old(self).pos, after_visit, self.pos);
            assert(self.path@ =~= old(self).path@);
            assert(self.prefix@ =~= old(self).prefix@);
        }
        match result {
            Ok(_) => Ok(()),
            Err(e) => Err(e),
        }
    }
}

/// Reconstruct a proof tree from the root FEN and a snapshot's solved
/// records. On failure the output carries the reason and the counters so
/// far, and no tree.
pub fn run(root_fen: &str, solved: &[SolvedRecord], config: &ReconstructConfig) -> (r: ReconstructOutput)
    ensures
        r.tree is Some <==> r.error is None,
        r.tree is Some ==> r.root_outcome is Some,
        r.root_outcome matches Some(o) ==> o != Outcome::Draw,
        !(spec_fullmove_small(root_fen@) && spec_parse_fen(root_fen@) is Some) ==> r.tree is None && r.root_outcome is None
            && r.fill_evals == 0 && (r.error matches Some(e) && e@.len() >= 18 && e@.take(18) == "invalid root FEN: "@),
{
    let pos = match Position::from_fen(root_fen) {
        Ok(p) => p,
        Err(e) => {
            let mut msg = String::from_str("invalid root FEN: ");
            msg.append(e.message.as_str());
            proof {
                reveal_strlit("invalid root FEN: ");
                assert(msg@.take(18) =~= "invalid root FEN: "@);
            }
            return ReconstructOutput {
                stats: ReconstructStats {
                    hit: 0,
                    terminal: 0,
                    clock_hit: 0,
                    clock_miss_draw: 0,
                    repetition: 0,
                    absent: 0,
                    filled: 0,
                    unfillable: 0,
                    anomalies: 0,
                    duplicate_keys: 0,
                },
                fill_evals: 0,
                root_outcome: None,
                tree: None,
                error: Some(msg),
            };
        },
    };
    let mut walker = Walker::new(root_fen, pos, solved, config);
    let result = walker.visit(None, None, MAX_WALK_PLIES);
    let root_outcome = match &result {
        Ok(o) => Some(*o),
        Err(_) => None,
    };
    let limited = walker.worker.memory_flag_raised();
    let success = result.is_ok() && !limited;
    let mut error: Option<String> = None;
    let tree = if success {
        match walker.worker.finalize_tree() {
            Ok(()) => Some(walker.worker.tree().clone()),
            Err(_) => {
                error = Some(String::from_str("proof-tree finalization failed"));
                None
            },
        }
    } else {
        None
    };
    if tree.is_none() && error.is_none() {
        error = match result {
            Ok(_) => Some(String::from_str("proof-tree memory limit reached during reconstruction")),
            Err(e) => Some(e),
        };
    }
    ReconstructOutput { stats: walker.stats, fill_evals: walker.fill_evals, root_outcome, tree, error }
}

} // verus!
