//! Offline proof-tree reconstruction from the root FEN and the solved
//! records of a table snapshot.
//!
//! The walk goes top-down from the root. Each needed node is resolved, in
//! this order: a static terminal; an exact hit on its full key (clock
//! included); a clock scan over the board key combined with every clock
//! key `0..=100`, adopting a win or loss record (`clock_hit`) but not a
//! draw, which may depend on the clock (`clock_miss_draw`, a hole); a
//! repetition of the walk's own prefix (an anomaly inside a proof); and
//! otherwise a hole (`absent`). Holes are filled by bounded local solves
//! that keep the walk's repetition history. A won node descends into its
//! best move only, a lost node into every legal reply; a child that does
//! not have the outcome its parent's proof requires aborts the walk. Every
//! resolved node is handed to the proof-tree builder as a proven node, and
//! the tree is finalized only after a complete walk.

pub mod walker;

use std::collections::{HashMap, HashSet};

use vstd::prelude::*;

use crate::moves::Move;
use crate::notation::move_to_bits;
use crate::position::Outcome;
use crate::proof_tree::node::{lemma_children_after, spec_children, ProofTree};
use crate::search::dfpn::Search;
use crate::text::{push_decimal, spec_decimal};
use crate::tt_snapshot::SolvedRecord;
use crate::zobrist::{rule50_key, spec_rule50_key};

use crate::movegen::{spec_fullmove_small, spec_parse_fen};

verus! {

/// Snapshot-lookup classification of one needed proof node.
#[derive(Clone, Copy, Debug, PartialEq, Eq, Structural)]
pub enum HoleClass {
    /// Exact full-key hit in the snapshot map.
    Hit,
    /// Statically terminal.
    Terminal,
    /// Clock-scan hit adopting a win/loss record under another clock.
    ClockHit,
    /// Clock-scan hit on a draw record; not adopted, becomes a hole.
    ClockMissDraw,
    /// The live search scored an uncached repetition draw here.
    Repetition,
    /// No snapshot entry; becomes a hole.
    Absent,
    /// A hole filled by a bounded local solve.
    Filled,
    /// A hole that stayed a draw at the depth cap.
    Unfillable,
    /// Proof-structure contradiction.
    Anomaly,
}

/// Counters for the reconstruction walk, one per [`HoleClass`].
#[derive(Clone, Debug, Default, PartialEq, Eq)]
pub struct ReconstructStats {
    pub hit: u64,
    pub terminal: u64,
    pub clock_hit: u64,
    pub clock_miss_draw: u64,
    pub repetition: u64,
    pub absent: u64,
    pub filled: u64,
    pub unfillable: u64,
    pub anomalies: u64,
    /// Duplicate snapshot keys collapsed by first-wins map building.
    pub duplicate_keys: u64,
}

pub open spec fn spec_count(s: ReconstructStats, class: HoleClass) -> u64 {
    match class {
        HoleClass::Hit => s.hit,
        HoleClass::Terminal => s.terminal,
        HoleClass::ClockHit => s.clock_hit,
        HoleClass::ClockMissDraw => s.clock_miss_draw,
        HoleClass::Repetition => s.repetition,
        HoleClass::Absent => s.absent,
        HoleClass::Filled => s.filled,
        HoleClass::Unfillable => s.unfillable,
        HoleClass::Anomaly => s.anomalies,
    }
}

/// Nodes the walk resolved: each counted once by its lookup class.
pub open spec fn spec_total(s: ReconstructStats) -> int {
    s.hit + s.terminal + s.clock_hit + s.clock_miss_draw + s.repetition + s.absent
}

/// `holes: hit=<n> terminal=<n> ... anomalies=<n>`.
pub open spec fn spec_holes_line(s: ReconstructStats) -> Seq<char> {
    "holes: hit="@ + spec_decimal(s.hit as nat) + " terminal="@ + spec_decimal(s.terminal as nat) + " clock_hit="@
        + spec_decimal(s.clock_hit as nat) + " clock_miss_draw="@ + spec_decimal(s.clock_miss_draw as nat)
        + " repetition="@ + spec_decimal(s.repetition as nat) + " absent="@ + spec_decimal(s.absent as nat)
        + " filled="@ + spec_decimal(s.filled as nat) + " unfillable="@ + spec_decimal(s.unfillable as nat)
        + " anomalies="@ + spec_decimal(s.anomalies as nat)
}

impl ReconstructStats {
    /// The counter for `class`.
    pub fn count(&self, class: HoleClass) -> (r: u64)
        ensures
            r == spec_count(*self, class),
    {
        match class {
            HoleClass::Hit => self.hit,
            HoleClass::Terminal => self.terminal,
            HoleClass::ClockHit => self.clock_hit,
            HoleClass::ClockMissDraw => self.clock_miss_draw,
            HoleClass::Repetition => self.repetition,
            HoleClass::Absent => self.absent,
            HoleClass::Filled => self.filled,
            HoleClass::Unfillable => self.unfillable,
            HoleClass::Anomaly => self.anomalies,
        }
    }

    /// Total number of nodes the walk resolved (filled nodes are already
    /// counted as clock-miss draws or absent).
    pub fn total(&self) -> (r: u64)
        requires
            spec_total(*self) <= u64::MAX,
        ensures
            r == spec_total(*self),
    {
        self.hit + self.terminal + self.clock_hit + self.clock_miss_draw + self.repetition + self.absent
    }

    /// The hole-rate breakdown line.
    pub fn holes_line(&self) -> (r: String)
        ensures
            r@ == spec_holes_line(*self),
    {
        let mut s = String::from_str("holes: hit=");
        push_decimal(&mut s, self.hit);
        s.append(" terminal=");
        push_decimal(&mut s, self.terminal);
        s.append(" clock_hit=");
        push_decimal(&mut s, self.clock_hit);
        s.append(" clock_miss_draw=");
        push_decimal(&mut s, self.clock_miss_draw);
        s.append(" repetition=");
        push_decimal(&mut s, self.repetition);
        s.append(" absent=");
        push_decimal(&mut s, self.absent);
        s.append(" filled=");
        push_decimal(&mut s, self.filled);
        s.append(" unfillable=");
        push_decimal(&mut s, self.unfillable);
        s.append(" anomalies=");
        push_decimal(&mut s, self.anomalies);
        s
    }
}

/// Budgets and sizes for a reconstruction run.
#[derive(Clone, Debug)]
pub struct ReconstructConfig {
    /// Fill-search transposition-table size in megabytes.
    pub tt_mb: usize,
    /// Proof-tree worker memory budget in megabytes.
    pub pt_size_mb: usize,
    /// Fill bound for the root hole.
    pub fill_base: u32,
    /// Fill bound ceiling; a hole still drawn at this bound is unfillable.
    pub fill_depth_cap: u32,
    /// Per-attempt child-eval budget for one fill search.
    pub fill_attempt_budget: u64,
    /// Global child-eval budget over all fills; `0` means unbounded.
    pub fill_total_budget: u64,
}

impl Default for ReconstructConfig {
    fn default() -> (r: ReconstructConfig)
        ensures
            r.tt_mb == 128 && r.pt_size_mb == 256 && r.fill_base == 8 && r.fill_depth_cap == 32,
            r.fill_attempt_budget == 10_000_000 && r.fill_total_budget == 0,
    {
        ReconstructConfig {
            tt_mb: 128,
            pt_size_mb: 256,
            fill_base: 8,
            fill_depth_cap: 32,
            fill_attempt_budget: 10_000_000,
            fill_total_budget: 0,
        }
    }
}


broadcast use vstd::std_specs::hash::group_hash_axioms;

/// The lookup map of a snapshot's solved records: the first record of each
/// key wins.
pub open spec fn spec_solved_map(s: Seq<SolvedRecord>) -> Map<u64, SolvedRecord>
    decreases s.len(),
{
    if s.len() == 0 {
        Map::empty()
    } else {
        let m = spec_solved_map(s.drop_last());
        if m.contains_key(s.last().key) {
            m
        } else {
            m.insert(s.last().key, s.last())
        }
    }
}

/// Number of records whose key an earlier record already has.
pub open spec fn spec_duplicates(s: Seq<SolvedRecord>) -> nat
    decreases s.len(),
{
    if s.len() == 0 {
        0
    } else {
        spec_duplicates(s.drop_last()) + (if spec_solved_map(s.drop_last()).contains_key(s.last().key) { 1nat } else { 0nat })
    }
}

proof fn lemma_duplicates_bound(s: Seq<SolvedRecord>)
    ensures
        spec_duplicates(s) <= s.len(),
    decreases s.len(),
{
    if s.len() > 0 {
        lemma_duplicates_bound(s.drop_last());
    }
}

/// The first-wins lookup map of `solved` and the number of duplicate keys
/// it collapsed.
pub fn build_solved_map(solved: &[SolvedRecord]) -> (r: (HashMap<u64, SolvedRecord>, u64))
    ensures
        r.0@ == spec_solved_map(solved@),
        r.1 == spec_duplicates(solved@),
{
    let mut map: HashMap<u64, SolvedRecord> = HashMap::new();
    let mut duplicates: u64 = 0;
    let mut i: usize = 0;
    proof {
        assert(map@ =~= spec_solved_map(solved@.take(0)));
    }
    while i < solved.len()
        invariant
            i <= solved.len(),
            map@ == spec_solved_map(solved@.take(i as int)),
            duplicates == spec_duplicates(solved@.take(i as int)),
            duplicates <= i,
        decreases solved.len() - i,
    {
        let rec = solved[i];
        proof {
            assert(solved@.take(i + 1).drop_last() =~= solved@.take(i as int));
            assert(solved@.take(i + 1).last() == rec);
            lemma_duplicates_bound(solved@.take(i as int));
        }
        if map.contains_key(&rec.key) {
            duplicates += 1;
        } else {
            map.insert(rec.key, rec);
        }
        i += 1;
    }
    proof {
        assert(solved@.take(solved.len() as int) =~= solved@);
    }
    (map, duplicates)
}

/// Seed the search's table with the snapshot's solved records, as the
/// search stores its own solved entries (no best child, no work, bounds
/// from the outcome, unlimited remaining depth, the current generation),
/// in snapshot order and first-wins on duplicate keys. Returns how many
/// records were seeded.
pub fn seed_search(search: &mut Search, solved: &[SolvedRecord]) -> (r: usize)
    requires
        old(search).wf(),
    ensures
        final(search).wf(),
        final(search).same_settings(*old(search)),
        r + spec_duplicates(solved@) == solved.len(),
{
    let mut seen: HashSet<u64> = HashSet::new();
    let mut seeded: usize = 0;
    let mut i: usize = 0;
    proof {
        Search::lemma_same_settings(*search, *search, *search);
        assert(seen@ =~= spec_solved_map(solved@.take(0)).dom());
    }
    while i < solved.len()
        invariant
            i <= solved.len(),
            search.wf(),
            search.same_settings(*old(search)),
            seen@ == spec_solved_map(solved@.take(i as int)).dom(),
            seeded + spec_duplicates(solved@.take(i as int)) == i,
        decreases solved.len() - i,
    {
        let rec = solved[i];
        proof {
            assert(solved@.take(i + 1).drop_last() =~= solved@.take(i as int));
            assert(solved@.take(i + 1).last() == rec);
        }
        if seen.contains(&rec.key) {
            i += 1;
            continue;
        }
        seen.insert(rec.key);
        proof {
            assert(seen@ =~= spec_solved_map(solved@.take(i + 1)).dom());
        }
        let (pn, dn) = rec.outcome.to_pn_dn();
        let ghost mid = *search;
        search.tt_store(rec.key, rec.best_move, u8::MAX, 0, Some(rec.outcome), pn, dn, rec.depth, u32::MAX);
        proof {
            Search::lemma_same_settings(*search, mid, *old(search));
        }
        seeded += 1;
        i += 1;
    }
    proof {
        assert(solved@.take(solved.len() as int) =~= solved@);
    }
    seeded
}

/// The first clock `c` in `0..=100` whose key `board_key ^ rule50_key(c)`
/// has a record in `map`.
pub open spec fn spec_clock_hit(map: Map<u64, SolvedRecord>, board_key: u64, c: int) -> bool {
    &&& 0 <= c <= 100
    &&& map.contains_key(board_key ^ spec_rule50_key(c as u16))
    &&& forall|d: int| 0 <= d < c ==> !#[trigger] map.contains_key(board_key ^ spec_rule50_key(d as u16))
}

/// The record stored under the board key with some clock, scanning clocks
/// `0..=100` in order.
pub fn clock_scan<'a>(map: &'a HashMap<u64, SolvedRecord>, board_key: u64) -> (r: Option<&'a SolvedRecord>)
    ensures
        r matches Some(rec) ==> exists|c: int| spec_clock_hit(map@, board_key, c) && map@[board_key ^ spec_rule50_key(c as u16)] == *rec,
        r is None ==> forall|d: int| 0 <= d <= 100 ==> !#[trigger] map@.contains_key(board_key ^ spec_rule50_key(d as u16)),
{
    let mut c: u16 = 0;
    while c <= 100
        invariant
            c <= 101,
            forall|d: int| 0 <= d < c ==> !#[trigger] map@.contains_key(board_key ^ spec_rule50_key(d as u16)),
        decreases 101 - c,
    {
        let key = board_key ^ rule50_key(c);
        match map.get(&key) {
            Some(rec) => {
                proof {
                    assert(spec_clock_hit(map@, board_key, c as int));
                }
                return Some(rec);
            },
            None => {},
        }
        c += 1;
    }
    None
}

/// How a needed node is resolved from the snapshot.
#[derive(Debug, Clone, Copy)]
pub enum Resolution {
    Hit(SolvedRecord),
    ClockHit(SolvedRecord),
    ClockMissDraw,
    Repetition,
    Absent,
}

/// The snapshot resolution of a node: an exact hit on `hash`; else a clock
/// scan hit, adopted unless it is a draw; else a repetition of the walk's
/// prefix; else absent.
pub fn classify_node(map: &HashMap<u64, SolvedRecord>, hash: u64, board_key: u64, rep_on_prefix: bool) -> (r: Resolution)
    ensures
        map@.contains_key(hash) ==> r == Resolution::Hit(map@[hash]),
        !map@.contains_key(hash) ==> match r {
            Resolution::ClockHit(rec) => rec.outcome != Outcome::Draw && exists|c: int|
                spec_clock_hit(map@, board_key, c) && map@[board_key ^ spec_rule50_key(c as u16)] == rec,
            Resolution::ClockMissDraw => exists|c: int|
                spec_clock_hit(map@, board_key, c) && map@[board_key ^ spec_rule50_key(c as u16)].outcome == Outcome::Draw,
            Resolution::Repetition => rep_on_prefix && forall|d: int|
                0 <= d <= 100 ==> !#[trigger] map@.contains_key(board_key ^ spec_rule50_key(d as u16)),
            Resolution::Absent => !rep_on_prefix && forall|d: int|
                0 <= d <= 100 ==> !#[trigger] map@.contains_key(board_key ^ spec_rule50_key(d as u16)),
            Resolution::Hit(_) => false,
        },
{
    if let Some(rec) = map.get(&hash) {
        return Resolution::Hit(*rec);
    }
    if let Some(rec) = clock_scan(map, board_key) {
        return if rec.outcome == Outcome::Draw {
            Resolution::ClockMissDraw
        } else {
            Resolution::ClockHit(*rec)
        };
    }
    if rep_on_prefix {
        return Resolution::Repetition;
    }
    Resolution::Absent
}


fn copy_path(path: &Vec<u16>) -> (r: Vec<u16>)
    ensures
        r@ == path@,
{
    let mut out: Vec<u16> = Vec::new();
    let mut i: usize = 0;
    while i < path.len()
        invariant
            i <= path.len(),
            out@ == path@.take(i as int),
        decreases path.len() - i,
    {
        out.push(path[i]);
        i += 1;
        proof {
            assert(out@ =~= path@.take(i as int));
        }
    }
    proof {
        assert(path@.take(path.len() as int) =~= path@);
    }
    out
}

fn dfs_signature(
    tree: &ProofTree,
    id: usize,
    path: Vec<u16>,
    on_path: &mut HashSet<u64>,
    signature: &mut HashMap<Vec<u16>, (Option<Outcome>, u32)>,
)
    requires
        tree.wf(),
        id < tree.nodes.len(),
    decreases tree.nodes.len() - id,
{
    let node = tree.nodes[id];
    signature.insert(copy_path(&path), (node.outcome, node.depth));
    // A node whose position is already on the path is not descended again
    // (trees read from a dump have hash 0 everywhere and are acyclic).
    let guard_active = node.hash != 0;
    if guard_active && on_path.contains(&node.hash) {
        return;
    }
    if guard_active {
        on_path.insert(node.hash);
    }
    let kids = tree.children(id);
    let mut i: usize = 0;
    while i < kids.len()
        invariant
            i <= kids.len(),
            tree.wf(),
            id < tree.nodes.len(),
            forall|k: int| 0 <= k < kids.len() ==> id < #[trigger] kids@[k] < tree.nodes.len(),
        decreases kids.len() - i,
    {
        let child = kids[i];
        let mut child_path = copy_path(&path);
        child_path.push(move_to_bits(tree.nodes[child].mv));
        dfs_signature(tree, child, child_path, on_path, signature);
        i += 1;
    }
    if guard_active {
        on_path.remove(&node.hash);
    }
}

/// The structure of a proof tree: the move-code path of every node mapped
/// to its outcome and depth. Two trees are isomorphic iff their signatures
/// are equal, whatever order their nodes were created in.
pub fn tree_signature(tree: &ProofTree) -> (r: HashMap<Vec<u16>, (Option<Outcome>, u32)>)
    requires
        tree.wf(),
{
    let mut signature: HashMap<Vec<u16>, (Option<Outcome>, u32)> = HashMap::new();
    let mut on_path: HashSet<u64> = HashSet::new();
    dfs_signature(tree, 0, Vec::new(), &mut on_path, &mut signature);
    signature
}


/// The result of one reconstruction.
#[derive(Debug)]
pub struct ReconstructOutput {
    /// Lookup, fill and anomaly counters.
    pub stats: ReconstructStats,
    /// Child evaluations spent by all fill searches together.
    pub fill_evals: u64,
    /// The proven root outcome, when the walk resolved the root.
    pub root_outcome: Option<Outcome>,
    /// The finalized proof tree, when the walk completed.
    pub tree: Option<ProofTree>,
    /// Why it failed; `None` on success.
    pub error: Option<String>,
}

/// Reconstruct a proof tree from the root FEN and a snapshot's solved
/// records (see the module documentation).
pub fn reconstruct(root_fen: &str, solved: &[SolvedRecord], config: &ReconstructConfig) -> (r: ReconstructOutput)
    ensures
        r.tree is Some <==> r.error is None,
        r.tree is Some ==> r.root_outcome is Some,
        r.root_outcome matches Some(o) ==> o != Outcome::Draw,
        !(spec_fullmove_small(root_fen@) && spec_parse_fen(root_fen@) is Some) ==> r.tree is None && r.root_outcome is None
            && r.fill_evals == 0 && (r.error matches Some(e) && e@.len() >= 18 && e@.take(18) == "invalid root FEN: "@),
{
    walker::run(root_fen, solved, config)
}

} // verus!
