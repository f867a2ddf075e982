//! Proof-tree nodes and the in-memory tree.

use vstd::prelude::*;

use crate::moves::Move;
use crate::position::Outcome;

verus! {

/// One node of the proof tree. Children form a list: a node names its most
/// recently added child, and each child names the one added before it.
#[derive(Debug, Clone, Copy)]
pub struct ProofNode {
    /// Parent id; `None` for the root.
    pub parent: Option<u32>,
    /// The most recently added child, if any.
    pub first_child: Option<u32>,
    /// The sibling added just before this node, if any.
    pub next_sibling: Option<u32>,
    pub mv: Move,
    pub hash: u64,
    /// `None` for a placeholder ancestor not yet proven by its own event.
    pub outcome: Option<Outcome>,
    pub depth: u32,
    /// Child evaluations spent proving this node's subtree.
    pub work: u64,
}

/// A proof tree over the position `root_fen`; node 0 is the root.
#[derive(Debug, Clone)]
pub struct ProofTree {
    pub root_fen: String,
    pub nodes: Vec<ProofNode>,
}

/// The child list starting at node `c`: `c`, then its older siblings.
pub open spec fn spec_chain(nodes: Seq<ProofNode>, c: int) -> Seq<int>
    decreases c,
{
    if c < 0 || c >= nodes.len() {
        Seq::empty()
    } else {
        match nodes[c].next_sibling {
            Some(s) => if (s as int) < c {
                seq![c] + spec_chain(nodes, s as int)
            } else {
                seq![c]
            },
            None => seq![c],
        }
    }
}

/// The children of node `id`, newest first.
pub open spec fn spec_children(nodes: Seq<ProofNode>, id: int) -> Seq<int> {
    match nodes[id].first_child {
        Some(c) => spec_chain(nodes, c as int),
        None => Seq::empty(),
    }
}

/// Node `id` is proven (not a placeholder) at depth 0.
pub open spec fn spec_is_terminal(nodes: Seq<ProofNode>, id: int) -> bool {
    0 <= id < nodes.len() && nodes[id].outcome is Some && nodes[id].depth == 0
}

/// Parent links point backwards, and child lists only link children of the
/// same parent, each list running from newer to older nodes.
pub open spec fn spec_tree_wf(nodes: Seq<ProofNode>) -> bool {
    &&& 0 < nodes.len() < u32::MAX
    &&& nodes[0].parent is None
    &&& forall|i: int| 0 < i < nodes.len() ==> ((#[trigger] nodes[i]).parent matches Some(p) && (p as int) < i)
    &&& forall|i: int|
        0 <= i < nodes.len() ==> ((#[trigger] nodes[i]).first_child matches Some(c) ==> i < c < nodes.len() && nodes[c as int].parent
            == Some(i as u32))
    &&& forall|i: int|
        0 <= i < nodes.len() ==> ((#[trigger] nodes[i]).next_sibling matches Some(s) ==> (s as int) < i && nodes[s as int].parent
            == nodes[i].parent)
}

pub proof fn lemma_chain_children(nodes: Seq<ProofNode>, c: int, p: u32)
    requires
        spec_tree_wf(nodes),
        0 <= c < nodes.len(),
        nodes[c].parent == Some(p),
    ensures
        forall|k: int| 0 <= k < spec_chain(nodes, c).len() ==> {
            let x = #[trigger] spec_chain(nodes, c)[k];
            &&& p < x <= c
            &&& nodes[x].parent == Some(p)
        },
        forall|a: int, b: int| 0 <= a < b < spec_chain(nodes, c).len() ==> #[trigger] spec_chain(nodes, c)[a] > #[trigger] spec_chain(
            nodes,
            c,
        )[b],
    decreases c,
{
    match nodes[c].next_sibling {
        Some(s) => {
            if (s as int) < c {
                assert(nodes[c] == nodes[c]);
                lemma_chain_children(nodes, s as int, p);
                assert forall|k: int| 0 <= k < spec_chain(nodes, c).len() implies {
                    let x = #[trigger] spec_chain(nodes, c)[k];
                    &&& p < x <= c
                    &&& nodes[x].parent == Some(p)
                } by {
                    if k > 0 {
                        assert(spec_chain(nodes, c)[k] == spec_chain(nodes, s as int)[k - 1]);
                    }
                }
                assert forall|a: int, b: int| 0 <= a < b < spec_chain(nodes, c).len() implies #[trigger] spec_chain(nodes, c)[a]
                    > #[trigger] spec_chain(nodes, c)[b] by {
                    assert(spec_chain(nodes, c)[b] == spec_chain(nodes, s as int)[b - 1]);
                    if a > 0 {
                        assert(spec_chain(nodes, c)[a] == spec_chain(nodes, s as int)[a - 1]);
                    }
                }
            }
        },
        None => {},
    }
    if c > 0 {
        assert(nodes[c] == nodes[c]);
    }
}

/// Every child of `id` is a later node whose parent is `id`.
pub proof fn lemma_children_after(nodes: Seq<ProofNode>, id: int)
    requires
        spec_tree_wf(nodes),
        0 <= id < nodes.len(),
    ensures
        forall|k: int| 0 <= k < spec_children(nodes, id).len() ==> {
            let x = #[trigger] spec_children(nodes, id)[k];
            &&& id < x < nodes.len()
            &&& nodes[x].parent == Some(id as u32)
        },
        forall|a: int, b: int| 0 <= a < b < spec_children(nodes, id).len() ==> #[trigger] spec_children(nodes, id)[a]
            > #[trigger] spec_children(nodes, id)[b],
{
    assert(nodes[id] == nodes[id]);
    match nodes[id].first_child {
        Some(c) => {
            lemma_chain_children(nodes, c as int, id as u32);
        },
        None => {},
    }
}

/// The ids of node `node_id`'s children, newest first.
pub fn children_of(nodes_vec: &Vec<ProofNode>, node_id: usize) -> (r: Vec<usize>)
    requires
        spec_tree_wf(nodes_vec@),
        node_id < nodes_vec.len(),
    ensures
        r@.map_values(|x: usize| x as int) == spec_children(nodes_vec@, node_id as int),
        forall|k: int| 0 <= k < r.len() ==> node_id < #[trigger] r@[k] < nodes_vec.len(),
        forall|k: int| 0 <= k < r.len() ==> nodes_vec@[#[trigger] r@[k] as int].parent == Some(node_id as u32),
        forall|a: int, b: int| 0 <= a < b < r.len() ==> #[trigger] r@[a] > #[trigger] r@[b],
{
    let ghost nodes = nodes_vec@;
    proof {
        lemma_children_after(nodes, node_id as int);
    }
    let mut out: Vec<usize> = Vec::new();
    let mut next: Option<u32> = nodes_vec[node_id].first_child;
    let ghost target = spec_children(nodes, node_id as int);
    while next.is_some()
        invariant
            spec_tree_wf(nodes_vec@),
            nodes == nodes_vec@,
            node_id < nodes.len(),
            target == spec_children(nodes, node_id as int),
            forall|k: int| 0 <= k < out.len() ==> node_id < #[trigger] out@[k] < nodes.len(),
            match next {
                Some(c) => 0 <= c < nodes.len() && nodes[c as int].parent == Some(node_id as u32)
                    && out@.map_values(|x: usize| x as int) + spec_chain(nodes, c as int) == target,
                None => out@.map_values(|x: usize| x as int) == target,
            },
        decreases match next {
            Some(c) => c as int + 1,
            None => 0,
        },
    {
        let c = match next {
            Some(c) => c,
            None => 0,
        };
        let ghost before = out@;
        out.push(c as usize);
        proof {
            assert(nodes[c as int] == nodes[c as int]);
            assert(node_id < c);
            assert(out@.map_values(|x: usize| x as int) =~= before.map_values(|x: usize| x as int).push(c as int));
        }
        let sib = nodes_vec[c as usize].next_sibling;
        next = match sib {
            Some(s) => if s < c {
                Some(s)
            } else {
                None
            },
            None => None,
        };
        proof {
            match sib {
                Some(s) => {
                    if s < c {
                        assert(spec_chain(nodes, c as int) =~= seq![c as int] + spec_chain(nodes, s as int));
                    } else {
                        assert(spec_chain(nodes, c as int) =~= seq![c as int]);
                    }
                },
                None => {
                    assert(spec_chain(nodes, c as int) =~= seq![c as int]);
                },
            }
        }
    }
    proof {
        lemma_children_after(nodes, node_id as int);
        let m = out@.map_values(|x: usize| x as int);
        assert forall|k: int| 0 <= k < out.len() implies nodes_vec@[#[trigger] out@[k] as int].parent == Some(node_id as u32) by {
            assert(m[k] == out@[k] as int);
        }
        assert forall|a: int, b: int| 0 <= a < b < out.len() implies #[trigger] out@[a] > #[trigger] out@[b] by {
            assert(m[a] == out@[a] as int);
            assert(m[b] == out@[b] as int);
        }
    }
    out
}


impl ProofTree {
    pub open spec fn wf(self) -> bool {
        spec_tree_wf(self.nodes@)
    }

    /// A tree with only its root.
    pub fn new(root_fen: String, root_hash: u64, root_outcome: Option<Outcome>, root_depth: u32) -> (r: ProofTree)
        ensures
            r.wf(),
            r.root_fen@ == root_fen@,
            r.nodes@ == seq![ProofNode {
                parent: None,
                first_child: None,
                next_sibling: None,
                mv: Move::spec_none(),
                hash: root_hash,
                outcome: root_outcome,
                depth: root_depth,
                work: 0,
            }],
    {
        let mut nodes: Vec<ProofNode> = Vec::new();
        nodes.push(ProofNode {
            parent: None,
            first_child: None,
            next_sibling: None,
            mv: Move::none(),
            hash: root_hash,
            outcome: root_outcome,
            depth: root_depth,
            work: 0,
        });
        ProofTree { root_fen, nodes }
    }

    /// The ids of node `node_id`'s children, newest first.
    pub fn children(&self, node_id: usize) -> (r: Vec<usize>)
        requires
            self.wf(),
            node_id < self.nodes.len(),
        ensures
            r@.map_values(|x: usize| x as int) == spec_children(self.nodes@, node_id as int),
            forall|k: int| 0 <= k < r.len() ==> node_id < #[trigger] r@[k] < self.nodes.len(),
            forall|k: int| 0 <= k < r.len() ==> self.nodes@[#[trigger] r@[k] as int].parent == Some(node_id as u32),
            forall|a: int, b: int| 0 <= a < b < r.len() ==> #[trigger] r@[a] > #[trigger] r@[b],
    {
        children_of(&self.nodes, node_id)
    }

    /// Add a child under `parent_id` and return its id: it becomes the
    /// parent's newest child.
    pub fn add_node(&mut self, parent_id: usize, mv: Move, hash: u64, outcome: Option<Outcome>, depth: u32, work: u64) -> (r: usize)
        requires
            old(self).wf(),
            parent_id < old(self).nodes.len(),
            old(self).nodes.len() + 1 < u32::MAX,
        ensures
            final(self).wf(),
            final(self).root_fen == old(self).root_fen,
            r == old(self).nodes.len(),
            final(self).nodes.len() == r + 1,
            final(self).nodes@[r as int] == (ProofNode {
                parent: Some(parent_id as u32),
                first_child: None,
                next_sibling: old(self).nodes@[parent_id as int].first_child,
                mv,
                hash,
                outcome,
                depth,
                work,
            }),
            final(self).nodes@[parent_id as int] == (ProofNode { first_child: Some(r as u32), ..old(self).nodes@[parent_id as int] }),
            forall|i: int| 0 <= i < r && i != parent_id ==> #[trigger] final(self).nodes@[i] == old(self).nodes@[i],
    {
        let id = self.nodes.len();
        let old_first = self.nodes[parent_id].first_child;
        self.nodes.push(ProofNode {
            parent: Some(parent_id as u32),
            first_child: None,
            next_sibling: old_first,
            mv,
            hash,
            outcome,
            depth,
            work,
        });
        let mut p = self.nodes[parent_id];
        p.first_child = Some(id as u32);
        self.nodes.set(parent_id, p);
        proof {
            let nodes = self.nodes@;
            let o = old(self).nodes@;
            assert forall|i: int| 0 < i < nodes.len() implies ((#[trigger] nodes[i]).parent matches Some(q) && (q as int) < i) by {
                if i < id {
                    assert(o[i] == o[i]);
                }
            }
            assert forall|i: int| 0 <= i < nodes.len() implies ((#[trigger] nodes[i]).first_child matches Some(c) ==> i < c
                < nodes.len() && nodes[c as int].parent == Some(i as u32)) by {
                if i < id && i != parent_id {
                    assert(o[i] == o[i]);
                }
            }
            assert forall|i: int| 0 <= i < nodes.len() implies ((#[trigger] nodes[i]).next_sibling matches Some(s) ==> (s as int)
                < i && nodes[s as int].parent == nodes[i].parent) by {
                if i < id {
                    assert(o[i] == o[i]);
                } else {
                    assert(o[parent_id as int] == o[parent_id as int]);
                }
            }
        }
        id
    }

    /// Whether node `node_id` exists, is proven and has depth 0.
    pub fn is_terminal(&self, node_id: usize) -> (r: bool)
        ensures
            r == spec_is_terminal(self.nodes@, node_id as int),
    {
        node_id < self.nodes.len() && self.nodes[node_id].outcome.is_some() && self.nodes[node_id].depth == 0
    }
}


/// The child of an `o` node that a principal line follows, among the first
/// `k` children `cs`: at a win, the first loss child of least depth; at a
/// loss, the last win child of greatest depth; none at a draw.
pub open spec fn spec_pick_prefix(nodes: Seq<ProofNode>, cs: Seq<int>, o: Outcome, k: int) -> Option<int>
    decreases k,
{
    if k <= 0 || k > cs.len() {
        None
    } else {
        let prev = spec_pick_prefix(nodes, cs, o, k - 1);
        let c = cs[k - 1];
        let want = if o == Outcome::Win { Outcome::Loss } else { Outcome::Win };
        if o == Outcome::Draw || nodes[c].outcome != Some(want) {
            prev
        } else {
            match prev {
                None => Some(c),
                Some(b) => if o == Outcome::Win {
                    if nodes[c].depth < nodes[b].depth { Some(c) } else { prev }
                } else {
                    if nodes[c].depth >= nodes[b].depth { Some(c) } else { prev }
                },
            }
        }
    }
}

/// What the pick among the first `k` children `cs` of an `o` node is: at a
/// win or a loss, `None` exactly when none of them has the opposite outcome,
/// and otherwise one of them with the opposite outcome whose depth is at most
/// (at a win) or at least (at a loss) that of every such child.
proof fn lemma_pick_prefix(nodes: Seq<ProofNode>, cs: Seq<int>, o: Outcome, k: int)
    requires
        0 <= k <= cs.len(),
        o != Outcome::Draw,
    ensures
        ({
            let want = o.spec_flip();
            match spec_pick_prefix(nodes, cs, o, k) {
                None => forall|t: int| 0 <= t < k ==> nodes[#[trigger] cs[t]].outcome != Some(want),
                Some(b) => {
                    &&& exists|t: int| 0 <= t < k && #[trigger] cs[t] == b
                    &&& nodes[b].outcome == Some(want)
                    &&& forall|t: int|
                        0 <= t < k && nodes[#[trigger] cs[t]].outcome == Some(want) ==> (if o == Outcome::Win {
                            nodes[b].depth <= nodes[cs[t]].depth
                        } else {
                            nodes[b].depth >= nodes[cs[t]].depth
                        })
                },
            }
        }),
    decreases k,
{
    if k > 0 {
        lemma_pick_prefix(nodes, cs, o, k - 1);
        let want = o.spec_flip();
        match spec_pick_prefix(nodes, cs, o, k) {
            Some(b) => {
                if b == cs[k - 1] {
                    assert(cs[k - 1] == b);
                }
            },
            None => {},
        }
    }
}

/// The principal line follows the shortest proof: from a proven,
/// non-terminal win (loss) node, when some child is a loss (win), the line
/// starts with the move of such a child whose depth is least (greatest)
/// among them and goes on with that child's line; when none is, it is
/// empty.
pub proof fn lemma_ppv_follows_shortest(nodes: Seq<ProofNode>, id: int)
    requires
        spec_tree_wf(nodes),
        0 <= id < nodes.len(),
        !spec_is_terminal(nodes, id),
        nodes[id].outcome == Some(Outcome::Win) || nodes[id].outcome == Some(Outcome::Loss),
    ensures
        ({
            let o = nodes[id].outcome->0;
            let want = o.spec_flip();
            let cs = spec_children(nodes, id);
            let line = spec_ppv_from(nodes, id);
            &&& (forall|t: int| 0 <= t < cs.len() ==> nodes[#[trigger] cs[t]].outcome != Some(want)) ==> line.len() == 0
            &&& (exists|t: int| 0 <= t < cs.len() && nodes[#[trigger] cs[t]].outcome == Some(want)) ==> exists|t: int|
                0 <= t < cs.len() && {
                    let c = #[trigger] cs[t];
                    &&& nodes[c].outcome == Some(want)
                    &&& line.len() > 0
                    &&& line[0] == nodes[c].mv
                    &&& line.drop_first() == spec_ppv_from(nodes, c)
                    &&& forall|u: int|
                        0 <= u < cs.len() && nodes[#[trigger] cs[u]].outcome == Some(want) ==> (if o == Outcome::Win {
                            nodes[c].depth <= nodes[cs[u]].depth
                        } else {
                            nodes[c].depth >= nodes[cs[u]].depth
                        })
                }
        }),
{
    let o = nodes[id].outcome->0;
    let cs = spec_children(nodes, id);
    lemma_children_after(nodes, id);
    lemma_pick_prefix(nodes, cs, o, cs.len() as int);
    let line = spec_ppv_from(nodes, id);
    match spec_pick_prefix(nodes, cs, o, cs.len() as int) {
        Some(b) => {
            let t = choose|t: int| 0 <= t < cs.len() && #[trigger] cs[t] == b;
            assert(line =~= seq![nodes[b].mv] + spec_ppv_from(nodes, b));
            assert(line.drop_first() =~= spec_ppv_from(nodes, b));
            assert(cs[t] == b);
        },
        None => {},
    }
}

/// The principal line from node `id`: follow the picked child until a
/// terminal node, a placeholder, or a node without a proof child.
pub open spec fn spec_ppv_from(nodes: Seq<ProofNode>, id: int) -> Seq<Move>
    decreases nodes.len() - id,
{
    if id < 0 || id >= nodes.len() || spec_is_terminal(nodes, id) {
        Seq::empty()
    } else {
        match nodes[id].outcome {
            None => Seq::empty(),
            Some(o) => {
                let cs = spec_children(nodes, id);
                match spec_pick_prefix(nodes, cs, o, cs.len() as int) {
                    Some(c) => if id < c < nodes.len() {
                        seq![nodes[c].mv] + spec_ppv_from(nodes, c)
                    } else {
                        Seq::empty()
                    },
                    None => Seq::empty(),
                }
            },
        }
    }
}

/// The first of the children `cs` reached by move `m`.
pub open spec fn spec_find_move(nodes: Seq<ProofNode>, cs: Seq<int>, m: Move) -> Option<int>
    decreases cs.len(),
{
    if cs.len() == 0 {
        None
    } else if nodes[cs[0]].mv == m {
        Some(cs[0])
    } else {
        spec_find_move(nodes, cs.drop_first(), m)
    }
}

/// Whether `pv` leads from node `id` through proven non-terminal nodes to a
/// terminal node.
pub open spec fn spec_walk(nodes: Seq<ProofNode>, id: int, pv: Seq<Move>) -> bool
    decreases pv.len(),
{
    if pv.len() == 0 {
        spec_is_terminal(nodes, id)
    } else if spec_is_terminal(nodes, id) || !(0 <= id < nodes.len()) || nodes[id].outcome is None {
        false
    } else {
        match spec_find_move(nodes, spec_children(nodes, id), pv[0]) {
            Some(c) => spec_walk(nodes, c, pv.drop_first()),
            None => false,
        }
    }
}

impl ProofTree {
    /// The principal line of the tree from the root.
    pub fn extract_ppv(&self) -> (r: Vec<Move>)
        requires
            self.wf(),
        ensures
            r@ == spec_ppv_from(self.nodes@, 0),
            !spec_is_terminal(self.nodes@, 0) && self.nodes@[0].outcome == Some(Outcome::Win) ==> ({
                let cs = spec_children(self.nodes@, 0);
                (exists|t: int| 0 <= t < cs.len() && self.nodes@[#[trigger] cs[t]].outcome == Some(Outcome::Loss)) ==> exists|t: int|
                    0 <= t < cs.len() && {
                        let c = #[trigger] cs[t];
                        &&& self.nodes@[c].outcome == Some(Outcome::Loss)
                        &&& r.len() > 0
                        &&& r@[0] == self.nodes@[c].mv
                        &&& forall|u: int|
                            0 <= u < cs.len() && self.nodes@[#[trigger] cs[u]].outcome == Some(Outcome::Loss)
                                ==> self.nodes@[c].depth <= self.nodes@[cs[u]].depth
                    }
            }),
    {
        proof {
            if !spec_is_terminal(self.nodes@, 0) && self.nodes@[0].outcome == Some(Outcome::Win) {
                lemma_ppv_follows_shortest(self.nodes@, 0);
            }
        }
        let ghost nodes = self.nodes@;
        let mut pv: Vec<Move> = Vec::new();
        let mut id: usize = 0;
        while !self.is_terminal(id)
            invariant
                self.wf(),
                nodes == self.nodes@,
                id < nodes.len(),
                pv@ + spec_ppv_from(nodes, id as int) == spec_ppv_from(nodes, 0),
            ensures
                pv@ == spec_ppv_from(nodes, 0),
            decreases nodes.len() - id,
        {
            let outcome = match self.nodes[id].outcome {
                Some(o) => o,
                None => {
                    proof {
                        assert(spec_ppv_from(nodes, id as int) =~= Seq::<Move>::empty());
                        assert(pv@ =~= spec_ppv_from(nodes, 0));
                    }
                    break;
                },
            };
            let cs = self.children(id);
            let ghost csi = spec_children(nodes, id as int);
            let mut best: Option<usize> = None;
            let mut k: usize = 0;
            while k < cs.len()
                invariant
                    k <= cs.len(),
                    cs@.map_values(|x: usize| x as int) == csi,
                    forall|t: int| 0 <= t < cs.len() ==> id < #[trigger] cs@[t] < nodes.len(),
                    nodes == self.nodes@,
                    match best {
                        Some(b) => spec_pick_prefix(nodes, csi, outcome, k as int) == Some(b as int) && id < b < nodes.len(),
                        None => spec_pick_prefix(nodes, csi, outcome, k as int) is None,
                    },
                decreases cs.len() - k,
            {
                let c = cs[k];
                proof {
                    assert(csi[k as int] == c as int);
                }
                let want = if outcome == Outcome::Win { Outcome::Loss } else { Outcome::Win };
                if outcome != Outcome::Draw && self.nodes[c].outcome == Some(want) {
                    best = match best {
                        None => Some(c),
                        Some(b) => if outcome == Outcome::Win {
                            if self.nodes[c].depth < self.nodes[b].depth { Some(c) } else { Some(b) }
                        } else {
                            if self.nodes[c].depth >= self.nodes[b].depth { Some(c) } else { Some(b) }
                        },
                    };
                }
                k += 1;
            }
            match best {
                Some(next) => {
                    pv.push(self.nodes[next].mv);
                    proof {
                        assert(spec_ppv_from(nodes, id as int) =~= seq![nodes[next as int].mv] + spec_ppv_from(nodes, next as int));
                        assert(pv@ + spec_ppv_from(nodes, next as int) =~= spec_ppv_from(nodes, 0));
                    }
                    id = next;
                },
                None => {
                    proof {
                        assert(spec_ppv_from(nodes, id as int) =~= Seq::<Move>::empty());
                        assert(pv@ =~= spec_ppv_from(nodes, 0));
                    }
                    break;
                },
            }
        }
        proof {
            if spec_is_terminal(nodes, id as int) {
                assert(pv@ =~= spec_ppv_from(nodes, 0));
            }
        }
        pv
    }

    /// Whether `pv` is a path in the tree from the root to a terminal node
    /// (moves are matched against the tree only, not replayed).
    pub fn validate_ppv(&self, pv: &[Move]) -> (r: bool)
        requires
            self.wf(),
        ensures
            r == spec_walk(self.nodes@, 0, pv@),
    {
        let ghost nodes = self.nodes@;
        let mut id: usize = 0;
        let mut i: usize = 0;
        proof {
            assert(pv@.subrange(0, pv.len() as int) =~= pv@);
        }
        while i < pv.len()
            invariant
                self.wf(),
                nodes == self.nodes@,
                id < nodes.len(),
                i <= pv.len(),
                spec_walk(nodes, id as int, pv@.subrange(i as int, pv.len() as int)) == spec_walk(nodes, 0, pv@),
            decreases pv.len() - i,
        {
            let ghost rest = pv@.subrange(i as int, pv.len() as int);
            if self.is_terminal(id) {
                return false;
            }
            if self.nodes[id].outcome.is_none() {
                return false;
            }
            let cs = self.children(id);
            let ghost csi = spec_children(nodes, id as int);
            let mv = pv[i];
            let mut found: Option<usize> = None;
            let mut k: usize = 0;
            proof {
                assert(csi.subrange(0, csi.len() as int) =~= csi);
            }
            while k < cs.len()
                invariant_except_break
                    found is None,
                invariant
                    k <= cs.len(),
                    cs@.map_values(|x: usize| x as int) == csi,
                    forall|t: int| 0 <= t < cs.len() ==> id < #[trigger] cs@[t] < nodes.len(),
                    nodes == self.nodes@,
                    spec_find_move(nodes, csi, mv) == spec_find_move(nodes, csi.subrange(k as int, csi.len() as int), mv),
                ensures
                    found matches Some(f) ==> spec_find_move(nodes, csi, mv) == Some(f as int) && id < f < nodes.len(),
                    found is None ==> spec_find_move(nodes, csi, mv) is None,
                decreases cs.len() - k,
            {
                let c = cs[k];
                let ghost tail = csi.subrange(k as int, csi.len() as int);
                proof {
                    assert(csi[k as int] == c as int);
                    assert(tail[0] == c as int);
                    assert(tail.drop_first() =~= csi.subrange(k + 1, csi.len() as int));
                }
                if self.nodes[c].mv == mv {
                    found = Some(c);
                    break;
                }
                k += 1;
            }
            proof {
                if found is None {
                    assert(csi.subrange(cs.len() as int, csi.len() as int) =~= Seq::<int>::empty());
                }
                assert(rest[0] == mv);
                assert(rest.drop_first() =~= pv@.subrange(i + 1, pv.len() as int));
            }
            match found {
                Some(c) => {
                    id = c;
                },
                None => {
                    return false;
                },
            }
            i += 1;
        }
        proof {
            assert(pv@.subrange(i as int, pv.len() as int) =~= Seq::<Move>::empty());
        }
        self.is_terminal(id)
    }
}
} // verus!
