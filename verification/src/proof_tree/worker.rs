//! The proof-tree builder: it turns the search's events into the proof tree
//! and canonicalises the tree once the search is over.
//!
//! Each event names a node by its move path from the root. Missing
//! ancestors are created as placeholders (no outcome) and are realized when
//! their own event arrives. A proven win keeps only its shortest losing
//! child, a proven loss keeps its winning children, a draw keeps none.
//! Finalization copies a canonical expanded subtree onto every node with the
//! same position key and outcome, drops placeholders, and recomputes depths.
//! The thread and channels that feed this state machine live with the
//! program, not here.

use std::collections::HashMap;
use std::sync::atomic::AtomicBool;
use std::sync::Arc;

use vstd::prelude::*;

use crate::moves::Move;
use crate::notation::{move_to_bits, spec_canonical_bits};
use crate::position::Outcome;
use crate::proof_event::{NodeProven, ProofEvent};
use crate::proof_tree::binary::{assign_depths, derive_depth, spec_derived_depth};
use crate::proof_tree::node::{children_of, lemma_chain_children, spec_chain, spec_children, spec_tree_wf, ProofNode, ProofTree};
use crate::search::dfpn::contains_key;

verus! {

broadcast use vstd::std_specs::hash::group_hash_axioms;

/// Statistics over the in-memory proof tree.
#[derive(Debug, Clone, Copy)]
pub struct ProofStats {
    pub nodes: usize,
    pub win_nodes: usize,
    pub loss_nodes: usize,
    pub root_depth: u32,
}

/// Why finalization failed.
#[derive(Debug, Clone, Copy, PartialEq, Eq, Structural)]
pub enum FinalizeError {
    /// The root never received its own event.
    RootNeverRealized,
    /// A proven non-terminal node was left without children:
    /// `(id, outcome, depth)`.
    UnexpandedInternalNode(usize, Option<Outcome>, u32),
    /// Copying canonical subtrees would exceed the node-id range.
    TooManyNodes,
}

/// Number of nodes of `nodes` whose outcome is `o`.
pub open spec fn spec_count_outcome(nodes: Seq<ProofNode>, o: Outcome) -> nat
    decreases nodes.len(),
{
    if nodes.len() == 0 {
        0
    } else {
        spec_count_outcome(nodes.drop_last(), o) + (if nodes.last().outcome == Some(o) { 1nat } else { 0nat })
    }
}

/// Bytes estimated for `nodes` nodes of `node_size` bytes with `links`
/// child links and `entries` indexed child moves, plus half again.
pub open spec fn spec_memory_estimate(nodes: int, links: int, entries: int, node_size: int) -> int {
    (nodes * node_size + links * 8 + nodes * 48 + entries * 16) * 3 / 2
}

/// The state of the proof-tree builder.
pub struct ProofTreeWorker {
    tree: ProofTree,
    /// Running totals for the memory estimate: child links and indexed
    /// child moves.
    children_len: usize,
    child_index_entries: usize,
    budget: usize,
    memory_limited: Arc<AtomicBool>,
}

/// The canonical node chosen so far for one `(hash, outcome)`: its id,
/// whether its depth agrees with its children, and its depth.
type Canon = (usize, bool, u32);

/// The move codes from the root down to node `id`, following parent links.
pub open spec fn spec_node_line(nodes: Seq<ProofNode>, id: int) -> Seq<u16>
    decreases id,
{
    if id <= 0 || id >= nodes.len() {
        Seq::empty()
    } else {
        match nodes[id].parent {
            Some(p) => if (p as int) < id {
                spec_node_line(nodes, p as int).push(spec_canonical_bits(nodes[id].mv@))
            } else {
                Seq::empty()
            },
            None => Seq::empty(),
        }
    }
}

/// A node's line depends only on the parent links and moves up to it.
proof fn lemma_node_line_stable(a: Seq<ProofNode>, b: Seq<ProofNode>, x: int)
    requires
        0 <= x < a.len() <= b.len(),
        forall|i: int| 0 <= i <= x ==> (#[trigger] a[i]).parent == b[i].parent && a[i].mv == b[i].mv,
    ensures
        spec_node_line(a, x) == spec_node_line(b, x),
    decreases x,
{
    if x > 0 {
        match a[x].parent {
            Some(p) => {
                if (p as int) < x && p >= 0 {
                    lemma_node_line_stable(a, b, p as int);
                }
            },
            None => {},
        }
    }
}

/// Two versions of a node agree on everything but their child links.
pub open spec fn spec_same_node_facts(a: ProofNode, b: ProofNode) -> bool {
    &&& a.parent == b.parent
    &&& a.mv == b.mv
    &&& a.hash == b.hash
    &&& a.outcome == b.outcome
    &&& a.depth == b.depth
}

/// Node `id` of `after` records `event`: it carries the event's move and
/// hash, takes the event's outcome unless it already had one (a realized
/// node keeps its outcome and only takes a smaller depth), and hangs under
/// the node of the path without its last move (the root for the empty path).
pub open spec fn spec_recorded_at(before: Seq<ProofNode>, after: Seq<ProofNode>, event: NodeProven, id: int) -> bool {
    spec_recorded_parts(before, after, event.path@, event.mv, event.hash, event.outcome, event.depth, id)
}

/// [`spec_recorded_at`] for an event given by its parts.
pub open spec fn spec_recorded_parts(
    before: Seq<ProofNode>,
    after: Seq<ProofNode>,
    path: Seq<Move>,
    mv: Move,
    hash: u64,
    outcome: Outcome,
    depth: u32,
    id: int,
) -> bool {
    let realized = id < before.len() && before[id].outcome is Some;
    &&& 0 <= id < after.len()
    &&& after[id].hash == hash
    &&& after[id].mv == mv
    &&& after[id].outcome == (if realized { before[id].outcome } else { Some(outcome) })
    &&& after[id].depth == (if realized && depth >= before[id].depth { before[id].depth } else { depth })
    &&& path.len() == 0 ==> id == 0
    &&& path.len() > 0 ==> (after[id].parent matches Some(p) && spec_node_line(after, p as int) == spec_path_codes(path.drop_last()))
}

/// The node whose line is a path's codes is the root for the empty path,
/// and otherwise hangs under the node of the path without its last move.
proof fn lemma_line_parent(nodes: Seq<ProofNode>, id: int, path: Seq<Move>)
    requires
        spec_tree_wf(nodes),
        0 <= id < nodes.len(),
        spec_node_line(nodes, id) == spec_path_codes(path),
    ensures
        path.len() == 0 ==> id == 0,
        path.len() > 0 ==> (nodes[id].parent matches Some(p) && (p as int) < id && spec_node_line(nodes, p as int) == spec_path_codes(
            path.drop_last(),
        )),
{
    assert(spec_path_codes(path).len() == path.len());
    if id > 0 {
        let p = nodes[id].parent->0 as int;
        assert(spec_node_line(nodes, id) == spec_node_line(nodes, p).push(spec_canonical_bits(nodes[id].mv@)));
        if path.len() > 0 {
            assert(spec_path_codes(path.drop_last()) =~= spec_path_codes(path).drop_last());
        }
    }
}

/// A record survives steps that keep every node's facts and only add
/// placeholders.
proof fn lemma_recorded_stable(n0: Seq<ProofNode>, a: Seq<ProofNode>, b: Seq<ProofNode>, event: NodeProven, id: int)
    requires
        spec_recorded_at(n0, a, event, id),
        a.len() <= b.len(),
        forall|k: int| 0 <= k < a.len() ==> spec_same_node_facts(#[trigger] b[k], a[k]),
        event.path@.len() > 0 ==> (a[id].parent matches Some(p) && (p as int) < a.len()),
    ensures
        spec_recorded_at(n0, b, event, id),
{
    assert(spec_same_node_facts(b[id], a[id]));
    if event.path@.len() > 0 {
        let p = a[id].parent->0 as int;
        if p >= 0 {
            assert forall|k: int| 0 <= k <= p implies (#[trigger] a[k]).parent == b[k].parent && a[k].mv == b[k].mv by {
                assert(spec_same_node_facts(b[k], a[k]));
            }
            lemma_node_line_stable(a, b, p);
        }
    }
}

/// The moves of `path` as move codes.
pub open spec fn spec_path_codes(path: Seq<Move>) -> Seq<u16> {
    path.map_values(|m: Move| spec_canonical_bits(m@))
}

/// The entries of `ids` whose node has outcome `o`, in order.
pub open spec fn spec_select(nodes: Seq<ProofNode>, ids: Seq<int>, o: Outcome) -> Seq<int>
    decreases ids.len(),
{
    if ids.len() == 0 {
        Seq::empty()
    } else {
        let rest = spec_select(nodes, ids.drop_last(), o);
        if nodes[ids.last()].outcome == Some(o) {
            rest.push(ids.last())
        } else {
            rest
        }
    }
}

/// A child list linked through `kept` (newest first) reads back as `kept`
/// from its `j`-th entry on.
proof fn lemma_linked_chain(nodes: Seq<ProofNode>, kept: Seq<usize>, j: int)
    requires
        0 <= j < kept.len(),
        forall|k: int| 0 <= k < kept.len() ==> (#[trigger] kept[k] as int) < nodes.len() && nodes.len() < u32::MAX,
        forall|a: int, b: int| 0 <= a < b < kept.len() ==> #[trigger] kept[a] > #[trigger] kept[b],
        forall|k: int| 0 <= k < kept.len() ==> (#[trigger] nodes[kept[k] as int]).next_sibling == (if k + 1 < kept.len() {
            Some(kept[k + 1] as u32)
        } else {
            None
        }),
    ensures
        spec_chain(nodes, kept[j] as int) == kept.subrange(j, kept.len() as int).map_values(|x: usize| x as int),
    decreases kept.len() - j,
{
    if j + 1 < kept.len() {
        lemma_linked_chain(nodes, kept, j + 1);
        assert(kept[j] > kept[j + 1]);
        assert(kept.subrange(j, kept.len() as int).map_values(|x: usize| x as int) =~= seq![kept[j] as int] + kept.subrange(
            j + 1,
            kept.len() as int,
        ).map_values(|x: usize| x as int));
    } else {
        assert(kept.subrange(j, kept.len() as int).map_values(|x: usize| x as int) =~= seq![kept[j] as int]);
    }
}

impl ProofTreeWorker {
    pub closed spec fn wf(self) -> bool {
        self.tree.wf()
    }

    /// The tree being built.
    pub closed spec fn spec_tree(self) -> ProofTree {
        self.tree
    }

    /// A builder for the tree of `root_fen` with a memory budget in bytes;
    /// `memory_limited` is raised once the estimate exceeds it.
    pub fn new(root_fen: String, budget: usize, memory_limited: Arc<AtomicBool>) -> (r: ProofTreeWorker)
        ensures
            r.wf(),
            r.spec_tree().nodes@.len() == 1,
            r.spec_tree().nodes@[0].outcome is None,
    {
        ProofTreeWorker {
            tree: ProofTree::new(root_fen, 0, None, 0),
            children_len: 0,
            child_index_entries: 0,
            budget,
            memory_limited,
        }
    }

    /// The tree built so far.
    pub fn tree(&self) -> (r: &ProofTree)
        ensures
            *r == self.spec_tree(),
    {
        &self.tree
    }

    /// Apply one event from the search.
    pub fn handle_event(&mut self, event: ProofEvent)
        requires
            old(self).wf(),
        ensures
            final(self).wf(),
            event is Clear ==> final(self).spec_tree().nodes@.len() == 1 && final(self).spec_tree().nodes@[0].outcome is None
                && final(self).spec_tree().root_fen@ == old(self).spec_tree().root_fen@,
            event matches ProofEvent::NodeProven(np) ==> {
                ||| final(self).spec_tree() == old(self).spec_tree()
                ||| final(self).spec_tree().nodes.len() >= 0xFFFF_FFFF - 2
                ||| exists|id: int| #[trigger] spec_recorded_at(old(self).spec_tree().nodes@, final(self).spec_tree().nodes@, np, id)
            },
    {
        match event {
            ProofEvent::Clear => self.clear(),
            ProofEvent::NodeProven(np) => self.process_event(np),
        }
    }

    /// Forget every node but a fresh root.
    pub fn clear(&mut self)
        requires
            old(self).wf(),
        ensures
            final(self).wf(),
            final(self).spec_tree().nodes@.len() == 1,
            final(self).spec_tree().nodes@[0].outcome is None,
            final(self).spec_tree().root_fen@ == old(self).spec_tree().root_fen@,
    {
        let fen = self.tree.root_fen.clone();
        self.tree = ProofTree::new(fen, 0, None, 0);
        self.children_len = 0;
        self.child_index_entries = 0;
    }

    /// Record a proven node: locate or create it (and its ancestors), realize
    /// it, and select the children of it and of its parent. Nothing happens
    /// once the memory flag is raised.
    pub fn process_event(&mut self, event: NodeProven)
        requires
            old(self).wf(),
        ensures
            final(self).wf(),
            final(self).spec_tree().root_fen == old(self).spec_tree().root_fen,
            ({
                let before = old(self).spec_tree().nodes@;
                let after = final(self).spec_tree().nodes@;
                ||| final(self).spec_tree() == old(self).spec_tree()
                ||| after.len() >= 0xFFFF_FFFF - 2
                ||| exists|id: int| #[trigger] spec_recorded_at(before, after, event, id)
            }),
    {
        if self.memory_flag_raised() {
            return;
        }
        let ghost n0 = self.tree.nodes@;
        let id = match self.find_or_create_node(&event.path, event.path.len()) {
            Some(id) => id,
            None => {
                self.raise_memory_flag();
                return;
            },
        };
        let ghost n1 = self.tree.nodes@;
        proof {
            assert(event.path@.take(event.path@.len() as int) =~= event.path@);
            lemma_line_parent(n1, id as int, event.path@);
        }
        let was_dummy = self.tree.nodes[id].outcome.is_none();
        self.apply_event(id, &event);
        if was_dummy {
            self.reconcile_children(id);
        }
        let ghost n3 = self.tree.nodes@;
        proof {
            assert forall|k: int| 0 <= k < n3.len() && k != id implies spec_same_node_facts(#[trigger] n3[k], n1[k]) by {}
            assert(spec_recorded_at(n0, n3, event, id as int)) by {
                if id < n0.len() {
                    assert(spec_same_node_facts(n1[id as int], n0[id as int]));
                }
                if event.path@.len() > 0 {
                    let p = n1[id as int].parent->0 as int;
                    assert forall|k: int| 0 <= k <= p implies (#[trigger] n1[k]).parent == n3[k].parent && n1[k].mv == n3[k].mv by {
                        assert(spec_same_node_facts(n3[k], n1[k]));
                    }
                    lemma_node_line_stable(n1, n3, p);
                }
            }
        }
        if event.path.len() > 0 {
            let parent_id = match self.find_or_create_node(&event.path, event.path.len() - 1) {
                Some(p) => p,
                None => {
                    self.raise_memory_flag();
                    proof {
                        lemma_recorded_stable(n0, n3, self.tree.nodes@, event, id as int);
                    }
                    return;
                },
            };
            if self.tree.nodes[parent_id].outcome.is_some() {
                self.reconcile_children(parent_id);
            }
            proof {
                lemma_recorded_stable(n0, n3, self.tree.nodes@, event, id as int);
            }
        }
        if self.estimate_memory() > self.budget {
            self.raise_memory_flag();
        }
    }

    /// Whether the memory flag is raised.
    pub fn memory_flag_raised(&self) -> bool {
        let flag: &AtomicBool = &self.memory_limited;
        flag.load(std::sync::atomic::Ordering::Acquire)
    }

    fn raise_memory_flag(&self) {
        let flag: &AtomicBool = &self.memory_limited;
        flag.store(true, std::sync::atomic::Ordering::Release);
    }

    /// The child of `id` reached by a move with code `key`, if any.
    fn find_child(&self, id: usize, key: u16) -> (r: Option<usize>)
        requires
            self.wf(),
            id < self.tree.nodes.len(),
        ensures
            r matches Some(c) ==> id < c < self.tree.nodes.len() && spec_children(self.spec_tree().nodes@, id as int).contains(c as int)
                && spec_canonical_bits(self.spec_tree().nodes@[c as int].mv@) == key,
            r is None ==> forall|t: int| 0 <= t < spec_children(self.spec_tree().nodes@, id as int).len() ==> spec_canonical_bits(
                self.spec_tree().nodes@[#[trigger] spec_children(self.spec_tree().nodes@, id as int)[t]].mv@,
            ) != key,
    {
        let cs = self.tree.children(id);
        let ghost sc = spec_children(self.tree.nodes@, id as int);
        assert(sc.len() == cs.len());
        let mut k: usize = 0;
        while k < cs.len()
            invariant
                k <= cs.len(),
                sc == spec_children(self.tree.nodes@, id as int),
                cs@.map_values(|x: usize| x as int) == sc,
                forall|t: int| 0 <= t < cs.len() ==> id < #[trigger] cs@[t] < self.tree.nodes.len(),
                forall|t: int| 0 <= t < k ==> spec_canonical_bits(self.tree.nodes@[#[trigger] sc[t]].mv@) != key,
            decreases cs.len() - k,
        {
            let c = cs[k];
            assert(sc[k as int] == c as int);
            if move_to_bits(self.tree.nodes[c].mv) == key {
                assert(sc.contains(c as int));
                return Some(c);
            }
            k += 1;
        }
        None
    }

    /// The node of the first `len` moves of `path`, creating placeholder
    /// nodes as needed; `None` when the tree cannot take more nodes.
    fn find_or_create_node(&mut self, path: &Vec<Move>, len: usize) -> (r: Option<usize>)
        requires
            old(self).wf(),
            len <= path.len(),
        ensures
            final(self).wf(),
            r matches Some(id) ==> id < final(self).spec_tree().nodes.len(),
            final(self).spec_tree().nodes.len() >= old(self).spec_tree().nodes.len(),
            final(self).spec_tree().nodes.len() <= old(self).spec_tree().nodes.len() + len,
            r is None ==> final(self).spec_tree().nodes.len() >= 0xFFFF_FFFF - 2,
            old(self).spec_tree().nodes.len() + len < 0xFFFF_FFFF - 2 ==> r is Some,
            final(self).spec_tree().root_fen == old(self).spec_tree().root_fen,
            r matches Some(id) ==> spec_node_line(final(self).spec_tree().nodes@, id as int) == spec_path_codes(path@.take(len as int)),
            forall|k: int| 0 <= k < old(self).spec_tree().nodes.len() ==> spec_same_node_facts(
                #[trigger] final(self).spec_tree().nodes@[k],
                old(self).spec_tree().nodes@[k],
            ),
            forall|k: int|
                old(self).spec_tree().nodes.len() <= k < final(self).spec_tree().nodes.len() ==> (#[trigger] final(self).spec_tree().nodes@[k]).outcome
                    is None,
    {
        let mut id: usize = 0;
        let mut i: usize = 0;
        while i < len
            invariant
                self.wf(),
                i <= len,
                len <= path.len(),
                id < self.tree.nodes.len(),
                self.tree.nodes.len() >= old(self).tree.nodes.len(),
                self.tree.nodes.len() <= old(self).tree.nodes.len() + i,
                self.tree.root_fen == old(self).tree.root_fen,
                spec_node_line(self.tree.nodes@, id as int) == spec_path_codes(path@.take(i as int)),
                forall|k: int| 0 <= k < old(self).tree.nodes.len() ==> spec_same_node_facts(
                    #[trigger] self.tree.nodes@[k],
                    old(self).tree.nodes@[k],
                ),
                forall|k: int| old(self).tree.nodes.len() <= k < self.tree.nodes.len() ==> (#[trigger] self.tree.nodes@[k]).outcome is None,
            decreases len - i,
        {
            let mv = path[i];
            let key = move_to_bits(mv);
            proof {
                assert(path@.take(i + 1) =~= path@.take(i as int).push(mv));
                assert(spec_path_codes(path@.take(i + 1)) =~= spec_path_codes(path@.take(i as int)).push(key));
            }
            match self.find_child(id, key) {
                Some(c) => {
                    proof {
                        let nodes = self.tree.nodes@;
                        let ch = spec_children(nodes, id as int);
                        let t = choose|t: int| 0 <= t < ch.len() && ch[t] == c as int;
                        match nodes[id as int].first_child {
                            Some(f) => {
                                lemma_chain_children(nodes, f as int, id as u32);
                                assert(nodes[ch[t]].parent == Some(id as u32));
                            },
                            None => {},
                        }
                    }
                    id = c;
                },
                None => {
                    if self.tree.nodes.len() >= 0xFFFF_FFFF - 2 {
                        return None;
                    }
                    let ghost before = self.tree.nodes@;
                    let new_id = self.tree.add_node(id, mv, 0, None, 0, 0);
                    proof {
                        let after = self.tree.nodes@;
                        assert forall|k: int| 0 <= k <= id implies (#[trigger] before[k]).parent == after[k].parent && before[k].mv
                            == after[k].mv by {}
                        lemma_node_line_stable(before, after, id as int);
                        assert forall|k: int| 0 <= k < old(self).tree.nodes.len() implies spec_same_node_facts(
                            #[trigger] after[k],
                            old(self).tree.nodes@[k],
                        ) by {
                            assert(spec_same_node_facts(before[k], old(self).tree.nodes@[k]));
                        }
                    }
                    self.children_len = self.children_len.saturating_add(1);
                    self.child_index_entries = self.child_index_entries.saturating_add(1);
                    id = new_id;
                },
            }
            i += 1;
        }
        Some(id)
    }

    /// Realize node `id` with the event's outcome and depth; a realized node
    /// keeps its outcome and only takes a smaller depth.
    fn apply_event(&mut self, id: usize, event: &NodeProven)
        requires
            old(self).wf(),
            id < old(self).spec_tree().nodes.len(),
        ensures
            final(self).wf(),
            final(self).spec_tree().nodes.len() == old(self).spec_tree().nodes.len(),
            ({
                let before = old(self).spec_tree().nodes@[id as int];
                let after = final(self).spec_tree().nodes@[id as int];
                &&& after.mv == event.mv
                &&& after.hash == event.hash
                &&& after.outcome == (if before.outcome is None { Some(event.outcome) } else { before.outcome })
                &&& after.depth == (if before.outcome is None || event.depth < before.depth {
                    event.depth
                } else {
                    before.depth
                })
            }),
            forall|i: int| 0 <= i < final(self).spec_tree().nodes.len() && i != id ==> #[trigger] final(self).spec_tree().nodes@[i]
                == old(self).spec_tree().nodes@[i],
            final(self).spec_tree().nodes@[id as int].parent == old(self).spec_tree().nodes@[id as int].parent,
            final(self).spec_tree().root_fen == old(self).spec_tree().root_fen,
    {
        let mut node = self.tree.nodes[id];
        node.mv = event.mv;
        node.hash = event.hash;
        match node.outcome {
            None => {
                node.outcome = Some(event.outcome);
                node.depth = event.depth;
            },
            Some(_) => {
                if event.depth < node.depth {
                    node.depth = event.depth;
                }
            },
        }
        let ghost before = self.tree.nodes@;
        self.tree.nodes.set(id, node);
        proof {
            let after = self.tree.nodes@;
            assert forall|k: int| 0 <= k < after.len() implies (#[trigger] after[k]).parent == before[k].parent
                && after[k].first_child == before[k].first_child && after[k].next_sibling == before[k].next_sibling by {}
            assert(spec_tree_wf(after));
        }
    }

    /// Make `kept` (a newest-first subsequence of `parent_id`'s children)
    /// the child list of `parent_id`.
    fn relink(&mut self, parent_id: usize, kept: &Vec<usize>)
        requires
            old(self).wf(),
            parent_id < old(self).spec_tree().nodes.len(),
            forall|k: int| 0 <= k < kept.len() ==> parent_id < #[trigger] kept@[k] < old(self).spec_tree().nodes.len()
                && old(self).spec_tree().nodes@[kept@[k] as int].parent == Some(parent_id as u32),
            forall|a: int, b: int| 0 <= a < b < kept.len() ==> #[trigger] kept@[a] > #[trigger] kept@[b],
        ensures
            final(self).wf(),
            final(self).spec_tree().nodes.len() == old(self).spec_tree().nodes.len(),
            forall|i: int| 0 <= i < final(self).spec_tree().nodes.len() ==> (#[trigger] final(self).spec_tree().nodes@[i]).outcome
                == old(self).spec_tree().nodes@[i].outcome && final(self).spec_tree().nodes@[i].depth == old(
                self,
            ).spec_tree().nodes@[i].depth,
            final(self).spec_tree().nodes@[parent_id as int].first_child == (if kept.len() > 0 {
                Some(kept@[0] as u32)
            } else {
                None
            }),
            forall|k: int| 0 <= k < kept.len() ==> (#[trigger] final(self).spec_tree().nodes@[kept@[k] as int]).next_sibling == (if k
                + 1 < kept.len() {
                Some(kept@[k + 1] as u32)
            } else {
                None
            }),
            final(self).spec_tree().root_fen == old(self).spec_tree().root_fen,
            spec_children(final(self).spec_tree().nodes@, parent_id as int) == kept@.map_values(|x: usize| x as int),
            forall|i: int| 0 <= i < final(self).spec_tree().nodes.len() ==> spec_same_node_facts(
                #[trigger] final(self).spec_tree().nodes@[i],
                old(self).spec_tree().nodes@[i],
            ),
    {
        let n = kept.len();
        let ghost nodes0 = self.tree.nodes@;
        let mut k: usize = 0;
        while k < n
            invariant
                k <= n,
                n == kept.len(),
                self.tree.nodes.len() == nodes0.len(),
                spec_tree_wf(self.tree.nodes@),
                parent_id < nodes0.len(),
                forall|t: int| 0 <= t < kept.len() ==> parent_id < #[trigger] kept@[t] < nodes0.len() && self.tree.nodes@[kept@[t] as int].parent
                    == Some(parent_id as u32),
                forall|a: int, b: int| 0 <= a < b < kept.len() ==> #[trigger] kept@[a] > #[trigger] kept@[b],
                forall|i: int| 0 <= i < nodes0.len() ==> spec_same_node_facts(#[trigger] self.tree.nodes@[i], nodes0[i]),
                forall|t: int| 0 <= t < k ==> (#[trigger] self.tree.nodes@[kept@[t] as int]).next_sibling == (if t + 1 < n {
                    Some(kept@[t + 1] as u32)
                } else {
                    None
                }),
                self.tree.root_fen == old(self).tree.root_fen,
            decreases n - k,
        {
            let c = kept[k];
            let next: Option<u32> = if k + 1 < n { Some(kept[k + 1] as u32) } else { None };
            proof {
                assert forall|t: int| 0 <= t < k implies kept@[t] != c by {
                    assert(kept@[t] > kept@[k as int]);
                }
            }
            let mut node = self.tree.nodes[c];
            node.next_sibling = next;
            let ghost before = self.tree.nodes@;
            self.tree.nodes.set(c, node);
            proof {
                let after = self.tree.nodes@;
                assert forall|i: int| 0 <= i < after.len() implies ((#[trigger] after[i]).next_sibling matches Some(s) ==> (s as int)
                    < i && after[s as int].parent == after[i].parent) by {
                    if i == c as int {
                        if k + 1 < n {
                            assert(kept@[k + 1] < kept@[k as int]);
                        }
                    } else {
                        assert(after[i] == before[i]);
                    }
                }
                assert forall|i: int| 0 <= i < after.len() implies ((#[trigger] after[i]).first_child matches Some(q) ==> i < q
                    < after.len() && after[q as int].parent == Some(i as u32)) by {
                    if i != c as int {
                        assert(after[i] == before[i]);
                    }
                }
                assert forall|i: int| 0 < i < after.len() implies ((#[trigger] after[i]).parent matches Some(q) && (q as int) < i) by {
                    assert(after[i].parent == before[i].parent);
                }
                assert(spec_tree_wf(after));
            }
            k += 1;
        }
        proof {
            assert forall|t: int| 0 <= t < n implies kept@[t] != parent_id by {}
        }
        let mut parent = self.tree.nodes[parent_id];
        parent.first_child = if n > 0 { Some(kept[0] as u32) } else { None };
        let ghost before = self.tree.nodes@;
        self.tree.nodes.set(parent_id, parent);
        proof {
            let after = self.tree.nodes@;
            assert forall|i: int| 0 <= i < after.len() implies ((#[trigger] after[i]).first_child matches Some(q) ==> i < q
                < after.len() && after[q as int].parent == Some(i as u32)) by {
                if i != parent_id as int {
                    assert(after[i] == before[i]);
                }
            }
            assert forall|i: int| 0 <= i < after.len() implies ((#[trigger] after[i]).next_sibling matches Some(s) ==> (s as int) < i
                && after[s as int].parent == after[i].parent) by {
                assert(after[i].next_sibling == before[i].next_sibling);
                assert(after[i].parent == before[i].parent);
            }
            assert forall|i: int| 0 < i < after.len() implies ((#[trigger] after[i]).parent matches Some(q) && (q as int) < i) by {
                assert(after[i].parent == before[i].parent);
            }
            assert(spec_tree_wf(after));
            if n > 0 {
                assert forall|t: int| 0 <= t < kept.len() implies (#[trigger] after[kept@[t] as int]).next_sibling == (if t + 1
                    < kept.len() {
                    Some(kept@[t + 1] as u32)
                } else {
                    None
                }) by {
                    assert(kept@[t] != parent_id);
                }
                lemma_linked_chain(after, kept@, 0);
                assert(kept@.subrange(0, kept.len() as int) =~= kept@);
            } else {
                assert(kept@.map_values(|x: usize| x as int) =~= Seq::<int>::empty());
            }
        }
    }

    /// Select the children a proven parent keeps: at a win, the shallowest
    /// losing child (the earliest added among equals); at a loss, every
    /// winning child; at a draw, none. A placeholder parent is left alone.
    fn reconcile_children(&mut self, parent_id: usize)
        requires
            old(self).wf(),
            parent_id < old(self).spec_tree().nodes.len(),
        ensures
            final(self).wf(),
            final(self).spec_tree().nodes.len() == old(self).spec_tree().nodes.len(),
            forall|i: int| 0 <= i < final(self).spec_tree().nodes.len() ==> spec_same_node_facts(
                #[trigger] final(self).spec_tree().nodes@[i],
                old(self).spec_tree().nodes@[i],
            ),
            final(self).spec_tree().root_fen == old(self).spec_tree().root_fen,
            ({
                let nodes = old(self).spec_tree().nodes@;
                let ch = spec_children(nodes, parent_id as int);
                let after = spec_children(final(self).spec_tree().nodes@, parent_id as int);
                &&& nodes[parent_id as int].outcome is None ==> final(self).spec_tree() == old(self).spec_tree()
                &&& nodes[parent_id as int].outcome == Some(Outcome::Draw) ==> after.len() == 0
                &&& nodes[parent_id as int].outcome == Some(Outcome::Loss) ==> after == spec_select(nodes, ch, Outcome::Win)
                &&& nodes[parent_id as int].outcome == Some(Outcome::Win) ==> {
                    &&& after.len() <= 1
                    &&& (exists|t: int| 0 <= t < ch.len() && nodes[#[trigger] ch[t]].outcome == Some(Outcome::Loss)
                        && nodes[ch[t]].depth < u32::MAX) ==> after.len() == 1
                    &&& after.len() == 1 ==> ch.contains(after[0]) && nodes[after[0]].outcome == Some(Outcome::Loss) && forall|t: int|
                        0 <= t < ch.len() && nodes[#[trigger] ch[t]].outcome == Some(Outcome::Loss) ==> nodes[after[0]].depth
                        <= nodes[ch[t]].depth
                }
            }),
    {
        let ghost nodes = self.tree.nodes@;
        let parent_outcome = match self.tree.nodes[parent_id].outcome {
            Some(o) => o,
            None => return,
        };
        let old_children = self.tree.children(parent_id);
        let n = old_children.len();
        let ghost ch = spec_children(nodes, parent_id as int);
        assert(ch.len() == n);
        assert forall|t: int| 0 <= t < n implies #[trigger] ch[t] == old_children@[t] as int by {}
        let mut kept: Vec<usize> = Vec::new();
        if parent_outcome == Outcome::Win {
            // The earliest added child comes last in the list.
            let mut best: Option<usize> = None;
            let mut best_depth: u32 = u32::MAX;
            let mut k: usize = n;
            while k > 0
                invariant
                    k <= n,
                    n == old_children.len(),
                    forall|t: int| 0 <= t < n ==> parent_id < #[trigger] old_children@[t] < self.tree.nodes.len(),
                    best matches Some(b) ==> parent_id < b < self.tree.nodes.len() && self.tree.nodes@[b as int].parent == Some(
                        parent_id as u32,
                    ),
                    forall|t: int| 0 <= t < n ==> self.tree.nodes@[#[trigger] old_children@[t] as int].parent == Some(parent_id as u32),
                    self.tree.nodes@ == nodes,
                    forall|t: int| 0 <= t < n ==> #[trigger] ch[t] == old_children@[t] as int,
                    ch.len() == n,
                    best is None ==> best_depth == u32::MAX,
                    best matches Some(b) ==> nodes[b as int].outcome == Some(Outcome::Loss) && nodes[b as int].depth == best_depth
                        && ch.contains(b as int),
                    forall|t: int| k <= t < n && nodes[#[trigger] ch[t]].outcome == Some(Outcome::Loss) ==> best_depth <= nodes[ch[t]].depth,
                    forall|t: int| k <= t < n && nodes[#[trigger] ch[t]].outcome == Some(Outcome::Loss) && nodes[ch[t]].depth < u32::MAX
                        ==> best is Some,
                decreases k,
            {
                k = k - 1;
                assert(ch[k as int] == old_children@[k as int] as int);
                let c = old_children[k];
                let child = self.tree.nodes[c];
                if child.outcome == Some(Outcome::Loss) && child.depth < best_depth {
                    best_depth = child.depth;
                    best = Some(c);
                }
            }
            if let Some(b) = best {
                kept.push(b);
            }
        } else if parent_outcome == Outcome::Loss {
            let mut k: usize = 0;
            while k < n
                invariant
                    k <= n,
                    n == old_children.len(),
                    forall|t: int| 0 <= t < n ==> parent_id < #[trigger] old_children@[t] < self.tree.nodes.len(),
                    forall|t: int| 0 <= t < n ==> self.tree.nodes@[#[trigger] old_children@[t] as int].parent == Some(parent_id as u32),
                    forall|a: int, b: int| 0 <= a < b < n ==> #[trigger] old_children@[a] > #[trigger] old_children@[b],
                    forall|t: int| 0 <= t < kept.len() ==> exists|u: int| 0 <= u < k && old_children@[u] == #[trigger] kept@[t],
                    forall|a: int, b: int| 0 <= a < b < kept.len() ==> #[trigger] kept@[a] > #[trigger] kept@[b],
                    self.tree.nodes@ == nodes,
                    forall|t: int| 0 <= t < n ==> #[trigger] ch[t] == old_children@[t] as int,
                    ch.len() == n,
                    kept@.map_values(|x: usize| x as int) == spec_select(nodes, ch.take(k as int), Outcome::Win),
                decreases n - k,
            {
                let c = old_children[k];
                proof {
                    assert(ch.take(k + 1).drop_last() =~= ch.take(k as int));
                    assert(ch.take(k + 1).last() == c as int);
                }
                if self.tree.nodes[c].outcome == Some(Outcome::Win) {
                    let ghost before = kept@;
                    kept.push(c);
                    proof {
                        assert(kept@.map_values(|x: usize| x as int) =~= before.map_values(|x: usize| x as int).push(c as int));
                        assert forall|a: int, b: int| 0 <= a < b < kept.len() implies #[trigger] kept@[a] > #[trigger] kept@[b] by {
                            if b == kept.len() - 1 {
                                let u = choose|u: int| 0 <= u < k && old_children@[u] == before[a];
                                assert(old_children@[u] > old_children@[k as int]);
                            }
                        }
                        assert forall|t: int| 0 <= t < kept.len() implies exists|u: int| 0 <= u < k + 1 && old_children@[u]
                            == #[trigger] kept@[t] by {
                            if t == kept.len() - 1 {
                                assert(old_children@[k as int] == kept@[t]);
                            } else {
                                let u = choose|u: int| 0 <= u < k && old_children@[u] == before[t];
                                assert(old_children@[u] == kept@[t]);
                            }
                        }
                    }
                }
                k += 1;
            }
            proof {
                assert(ch.take(n as int) =~= ch);
                assert forall|t: int| 0 <= t < kept.len() implies parent_id < #[trigger] kept@[t] < self.tree.nodes.len()
                    && self.tree.nodes@[kept@[t] as int].parent == Some(parent_id as u32) by {
                    let u = choose|u: int| 0 <= u < n && old_children@[u] == kept@[t];
                    assert(self.tree.nodes@[old_children@[u] as int].parent == Some(parent_id as u32));
                }
            }
        }
        let removed = if n >= kept.len() { n - kept.len() } else { 0 };
        self.child_index_entries = self.child_index_entries.saturating_sub(removed);
        self.children_len = self.children_len.saturating_sub(removed);
        self.relink(parent_id, &kept);
    }

    /// Running totals of child links and indexed child moves.
    pub closed spec fn spec_link_counts(self) -> (usize, usize) {
        (self.children_len, self.child_index_entries)
    }

    /// Rough memory use of the tree and its indexes, with half again as
    /// headroom; `usize::MAX` when that does not fit.
    pub fn estimate_memory(&self) -> (r: usize)
        requires
            self.wf(),
        ensures
            ({
                let est = spec_memory_estimate(
                    self.spec_tree().nodes.len() as int,
                    self.spec_link_counts().0 as int,
                    self.spec_link_counts().1 as int,
                    vstd::layout::size_of_as_usize::<ProofNode>() as int,
                );
                r == (if est > usize::MAX { usize::MAX as int } else { est })
            }),
    {
        let node_size = core::mem::size_of::<ProofNode>() as u128;
        let nodes = self.tree.nodes.len() as u128;
        proof {
            assert(nodes * node_size <= 0x1_0000_0000u128 * 0x1_0000_0000_0000_0000u128) by (nonlinear_arith)
                requires nodes <= 0x1_0000_0000u128, node_size <= 0x1_0000_0000_0000_0000u128;
        }
        let total: u128 = nodes * node_size + (self.children_len as u128) * 8 + nodes * 48 + (self.child_index_entries as u128) * 16;
        let padded = total * 3 / 2;
        if padded > usize::MAX as u128 {
            usize::MAX
        } else {
            padded as usize
        }
    }

    /// Node counts and the root depth.
    pub fn stats(&self) -> (r: ProofStats)
        requires
            self.wf(),
        ensures
            r.nodes == self.spec_tree().nodes.len(),
            r.win_nodes == spec_count_outcome(self.spec_tree().nodes@, Outcome::Win),
            r.loss_nodes == spec_count_outcome(self.spec_tree().nodes@, Outcome::Loss),
            r.root_depth == self.spec_tree().nodes@[0].depth,
    {
        let n = self.tree.nodes.len();
        let mut wins: usize = 0;
        let mut losses: usize = 0;
        let mut i: usize = 0;
        while i < n
            invariant
                i <= n,
                n == self.tree.nodes.len(),
                wins == spec_count_outcome(self.tree.nodes@.take(i as int), Outcome::Win),
                losses == spec_count_outcome(self.tree.nodes@.take(i as int), Outcome::Loss),
                wins <= i,
                losses <= i,
            decreases n - i,
        {
            proof {
                assert(self.tree.nodes@.take(i + 1).drop_last() =~= self.tree.nodes@.take(i as int));
            }
            let o = self.tree.nodes[i].outcome;
            if o == Some(Outcome::Win) {
                wins += 1;
            } else if o == Some(Outcome::Loss) {
                losses += 1;
            }
            i += 1;
        }
        proof {
            assert(self.tree.nodes@.take(n as int) =~= self.tree.nodes@);
        }
        ProofStats { nodes: n, win_nodes: wins, loss_nodes: losses, root_depth: self.tree.nodes[0].depth }
    }
}


/// The canonical expanded node per position key, one map per outcome.
pub struct Canonical {
    win: HashMap<u64, (usize, bool, u32)>,
    loss: HashMap<u64, (usize, bool, u32)>,
    draw: HashMap<u64, (usize, bool, u32)>,
}

impl Canonical {
    /// Every entry names a node of `nodes` with the map's outcome.
    pub closed spec fn valid(self, nodes: Seq<ProofNode>) -> bool {
        &&& forall|h: u64| self.win@.contains_key(h) ==> (#[trigger] self.win@[h]).0 < nodes.len() && nodes[self.win@[h].0 as int].outcome
            == Some(Outcome::Win)
        &&& forall|h: u64| self.loss@.contains_key(h) ==> (#[trigger] self.loss@[h]).0 < nodes.len() && nodes[self.loss@[h].0 as int].outcome
            == Some(Outcome::Loss)
        &&& forall|h: u64| self.draw@.contains_key(h) ==> (#[trigger] self.draw@[h]).0 < nodes.len() && nodes[self.draw@[h].0 as int].outcome
            == Some(Outcome::Draw)
    }

    /// The map kept for outcome `o`.
    pub closed spec fn spec_map(self, o: Outcome) -> Map<u64, (usize, bool, u32)> {
        match o {
            Outcome::Win => self.win@,
            Outcome::Loss => self.loss@,
            Outcome::Draw => self.draw@,
        }
    }

    /// The entry chosen for `(hash, o)`, if any.
    pub open spec fn spec_entry(self, hash: u64, o: Outcome) -> Option<(usize, bool, u32)> {
        if self.spec_map(o).contains_key(hash) {
            Some(self.spec_map(o)[hash])
        } else {
            None
        }
    }

    /// Whether an entry `(consistent, depth)` replaces the current one.
    pub open spec fn spec_beats(current: Option<(usize, bool, u32)>, consistent: bool, depth: u32) -> bool {
        match current {
            None => true,
            Some(v) => if consistent != v.1 {
                consistent
            } else {
                depth < v.2
            },
        }
    }

    /// The canonical node of `(hash, o)`, if one was chosen.
    fn lookup(&self, hash: u64, o: Outcome, Ghost(nodes): Ghost<Seq<ProofNode>>) -> (r: Option<usize>)
        requires
            self.valid(nodes),
        ensures
            r matches Some(e) ==> e < nodes.len() && nodes[e as int].outcome == Some(o),
            r == (match self.spec_entry(hash, o) {
                Some(v) => Some(v.0),
                None => None,
            }),
    {
        let m = match o {
            Outcome::Win => &self.win,
            Outcome::Loss => &self.loss,
            Outcome::Draw => &self.draw,
        };
        match m.get(&hash) {
            Some(v) => Some(v.0),
            None => None,
        }
    }

    /// Offer node `id` for `(hash, o)`: a node whose depth agrees with its
    /// children beats one that does not; otherwise the shallower wins; the
    /// first offered keeps ties.
    fn offer(&mut self, hash: u64, o: Outcome, id: usize, consistent: bool, depth: u32, Ghost(nodes): Ghost<Seq<ProofNode>>)
        requires
            old(self).valid(nodes),
            id < nodes.len(),
            nodes[id as int].outcome == Some(o),
        ensures
            final(self).valid(nodes),
            final(self).spec_entry(hash, o) == (if Self::spec_beats(old(self).spec_entry(hash, o), consistent, depth) {
                Some((id, consistent, depth))
            } else {
                old(self).spec_entry(hash, o)
            }),
            forall|h: u64, p: Outcome| (h != hash || p != o) ==> #[trigger] final(self).spec_entry(h, p) == old(self).spec_entry(h, p),
    {
        let m = match o {
            Outcome::Win => &mut self.win,
            Outcome::Loss => &mut self.loss,
            Outcome::Draw => &mut self.draw,
        };
        let better = match m.get(&hash) {
            None => true,
            Some(v) => if consistent != v.1 {
                consistent
            } else {
                depth < v.2
            },
        };
        if better {
            m.insert(hash, (id, consistent, depth));
        }
    }
}

/// Copy node `raw_id` of `old_tree` (through its canonical twin) under
/// `parent_new_id` of `new_tree`, reached by `edge_mv`, with its proof
/// subtree. A position already on the current path (or a descent longer
/// than `fuel`) becomes a leaf. Returns `false` when `new_tree` is full.
fn rebuild(
    old_tree: &ProofTree,
    canon: &Canonical,
    raw_id: usize,
    parent_new_id: usize,
    edge_mv: Move,
    is_root: bool,
    new_tree: &mut ProofTree,
    path_hashes: &mut Vec<u64>,
    fuel: usize,
) -> (r: bool)
    requires
        old_tree.wf(),
        canon.valid(old_tree.nodes@),
        raw_id < old_tree.nodes.len(),
        old(new_tree).wf(),
        parent_new_id < old(new_tree).nodes.len(),
        forall|i: int| 0 <= i < old(new_tree).nodes.len() ==> (#[trigger] old(new_tree).nodes@[i]).outcome is Some,
        is_root ==> old(new_tree).nodes.len() == 1 && parent_new_id == 0,
        is_root ==> old_tree.nodes@[raw_id as int].outcome == old(new_tree).nodes@[0].outcome,
        is_root ==> fuel > 0,
    ensures
        final(new_tree).wf(),
        final(new_tree).nodes.len() >= old(new_tree).nodes.len(),
        forall|i: int| 0 <= i < final(new_tree).nodes.len() ==> (#[trigger] final(new_tree).nodes@[i]).outcome is Some,
        forall|i: int| 0 <= i < old(new_tree).nodes.len() ==> (#[trigger] final(new_tree).nodes@[i]).outcome == old(
            new_tree,
        ).nodes@[i].outcome,
        final(path_hashes)@ == old(path_hashes)@,
        !r ==> final(new_tree).nodes.len() >= 0xFFFF_FFFF - 2,
        old_tree.nodes@[raw_id as int].outcome is None ==> r && *final(new_tree) == *old(new_tree),
        r && !is_root && old_tree.nodes@[raw_id as int].outcome is Some ==> final(new_tree).nodes.len() > old(new_tree).nodes.len(),
    decreases fuel,
{
    let node = old_tree.nodes[raw_id];
    let outcome = match node.outcome {
        Some(o) => o,
        None => return true,
    };
    let eff_id = match canon.lookup(node.hash, outcome, Ghost(old_tree.nodes@)) {
        Some(e) => e,
        None => raw_id,
    };
    let eff = old_tree.nodes[eff_id];
    let hash = eff.hash;
    let depth = eff.depth;
    if !is_root && (fuel == 0 || contains_key(path_hashes, hash)) {
        if new_tree.nodes.len() >= 0xFFFF_FFFF - 2 {
            return false;
        }
        let _ = new_tree.add_node(parent_new_id, edge_mv, hash, Some(outcome), depth, eff.work);
        return true;
    }
    let new_id = if is_root {
        let mut root = new_tree.nodes[0];
        root.hash = hash;
        root.outcome = Some(outcome);
        root.depth = depth;
        let ghost before = new_tree.nodes@;
        new_tree.nodes.set(0, root);
        proof {
            let after = new_tree.nodes@;
            assert forall|k: int| 0 <= k < after.len() implies (#[trigger] after[k]).parent == before[k].parent
                && after[k].first_child == before[k].first_child && after[k].next_sibling == before[k].next_sibling by {}
            assert(spec_tree_wf(after));
        }
        0
    } else {
        if new_tree.nodes.len() >= 0xFFFF_FFFF - 2 {
            return false;
        }
        path_hashes.push(hash);
        new_tree.add_node(parent_new_id, edge_mv, hash, Some(outcome), depth, eff.work)
    };
    let ghost mid_len = new_tree.nodes.len();
    let cs = old_tree.children(eff_id);
    let mut ok = true;
    let mut k: usize = cs.len();
    while k > 0
        invariant
            k <= cs.len(),
            fuel > 0,
            old_tree.wf(),
            canon.valid(old_tree.nodes@),
            forall|t: int| 0 <= t < cs.len() ==> #[trigger] cs@[t] < old_tree.nodes.len(),
            new_tree.wf(),
            new_id < new_tree.nodes.len(),
            new_tree.nodes.len() >= mid_len,
            mid_len >= old(new_tree).nodes.len(),
            forall|i: int| 0 <= i < new_tree.nodes.len() ==> (#[trigger] new_tree.nodes@[i]).outcome is Some,
            forall|i: int| 0 <= i < old(new_tree).nodes.len() ==> (#[trigger] new_tree.nodes@[i]).outcome == (if is_root && i == 0 {
                Some(outcome)
            } else {
                old(new_tree).nodes@[i].outcome
            }),
            is_root ==> path_hashes@ == old(path_hashes)@,
            !is_root ==> path_hashes@ == old(path_hashes)@.push(hash),
            !ok ==> new_tree.nodes.len() >= 0xFFFF_FFFF - 2,
            !is_root ==> mid_len > old(new_tree).nodes.len(),
        decreases k,
    {
        k = k - 1;
        let c = cs[k];
        let child_mv = old_tree.nodes[c].mv;
        if !rebuild(old_tree, canon, c, new_id, child_mv, false, new_tree, path_hashes, fuel - 1) {
            ok = false;
            break;
        }
    }
    if !is_root {
        let _ = path_hashes.pop();
        proof {
            assert(path_hashes@ =~= old(path_hashes)@);
        }
    }
    ok
}

impl ProofTreeWorker {
    /// Canonicalise the tree once the search is over: choose for every
    /// position key and outcome the expanded node whose depth best agrees
    /// with its children (then the shallowest), copy that node's subtree
    /// onto every node with the same key and outcome, drop placeholders,
    /// cut repeated positions on a path to leaves, and recompute every depth
    /// bottom-up. Fails, leaving the tree as it was, when the root was never
    /// proven or the copy would not fit.
    pub fn finalize_tree(&mut self) -> (r: Result<(), FinalizeError>)
        requires
            old(self).wf(),
        ensures
            final(self).wf(),
            old(self).spec_tree().nodes@[0].outcome is None <==> r == Err::<(), FinalizeError>(FinalizeError::RootNeverRealized),
            r is Err ==> final(self).spec_tree() == old(self).spec_tree(),
            r matches Err(FinalizeError::UnexpandedInternalNode(_, o, d)) ==> (o == Some(Outcome::Win) || o == Some(Outcome::Loss))
                && d != 0,
            r is Ok ==> {
                let nodes = final(self).spec_tree().nodes@;
                &&& nodes[0].outcome == old(self).spec_tree().nodes@[0].outcome
                &&& forall|i: int| 0 <= i < nodes.len() ==> (#[trigger] nodes[i]).outcome is Some && nodes[i].depth
                    == spec_derived_depth(nodes, i)
                &&& forall|i: int| 0 <= i < nodes.len() && (#[trigger] nodes[i]).outcome != Some(Outcome::Draw) && nodes[i].depth != 0
                    ==> nodes[i].first_child is Some
            },
    {
        let root = self.tree.nodes[0];
        let root_outcome = match root.outcome {
            Some(o) => o,
            None => return Err(FinalizeError::RootNeverRealized),
        };
        let n = self.tree.nodes.len();
        let ghost nodes = self.tree.nodes@;
        let mut canon = Canonical { win: HashMap::new(), loss: HashMap::new(), draw: HashMap::new() };
        proof {
            assert(canon.valid(nodes));
        }
        let mut id: usize = 0;
        while id < n
            invariant
                id <= n,
                n == self.tree.nodes.len(),
                nodes == self.tree.nodes@,
                self.wf(),
                canon.valid(nodes),
            decreases n - id,
        {
            let node = self.tree.nodes[id];
            if let Some(o) = node.outcome {
                if node.depth == 0 || node.first_child.is_some() {
                    let implied = if node.depth == 0 { 0 } else { derive_depth(&self.tree.nodes, id) };
                    canon.offer(node.hash, o, id, node.depth == implied, node.depth, Ghost(nodes));
                }
            }
            id += 1;
        }
        let mut new_tree = ProofTree::new(self.tree.root_fen.clone(), root.hash, root.outcome, root.depth);
        let mut path_hashes: Vec<u64> = Vec::new();
        let fuel = if n < usize::MAX { n + 1 } else { n };
        if !rebuild(&self.tree, &canon, 0, 0, Move::none(), true, &mut new_tree, &mut path_hashes, fuel) {
            return Err(FinalizeError::TooManyNodes);
        }
        assign_depths(&mut new_tree.nodes);
        // A proven non-terminal node must have children.
        let m = new_tree.nodes.len();
        let mut i: usize = 0;
        while i < m
            invariant
                i <= m,
                m == new_tree.nodes.len(),
                self.wf(),
                self.spec_tree() == old(self).spec_tree(),
                old(self).spec_tree().nodes@[0].outcome is Some,
                forall|j: int| 0 <= j < i && (#[trigger] new_tree.nodes@[j]).outcome != Some(Outcome::Draw) && new_tree.nodes@[j].depth != 0
                    && new_tree.nodes@[j].outcome is Some ==> new_tree.nodes@[j].first_child is Some,
            decreases m - i,
        {
            let node = new_tree.nodes[i];
            let decisive = match node.outcome {
                Some(o) => o != Outcome::Draw,
                None => false,
            };
            if decisive && node.depth != 0 && node.first_child.is_none() {
                return Err(FinalizeError::UnexpandedInternalNode(i, node.outcome, node.depth));
            }
            i += 1;
        }
        // Each node but the root is one child link and one indexed move.
        let links = m - 1;
        self.tree = new_tree;
        self.children_len = links;
        self.child_index_entries = links;
        Ok(())
    }
}
} // verus!
