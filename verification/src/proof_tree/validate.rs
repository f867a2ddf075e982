//! Replay-based structural validation of a finalized proof tree.
//!
//! Every root-to-node path is replayed on a real position, and the rules of
//! a proof are checked: every node is a win or a loss and the root is
//! decisive; a non-terminal win has exactly one child, which is a loss and
//! legal; a non-terminal loss has a win child for every legal reply; a
//! depth-0 node is terminal with its outcome; depths agree bottom-up (win:
//! shallowest child plus one, loss: deepest plus one); stored hashes (when
//! not zero) match the replay; no position repeats on a path.

use vstd::prelude::*;

use crate::movegen::{self, spec_after_move, spec_legal_moves, spec_fullmove_small, spec_parse_fen};
use crate::moves::Move;
use crate::notation::{move_to_uci, moves_to_uci_path, spec_uci_suffix};
use crate::position::{spec_contents_key, spec_contents_outcome, Outcome, Position};
use crate::proof_tree::node::{spec_children, ProofTree};
use crate::search::dfpn::contains_key;
use crate::text::{push_decimal, push_hex};

verus! {

/// The kind of a structural proof-tree defect.
#[derive(Debug, Clone, Copy, PartialEq, Eq, Structural, Hash)]
pub enum DefectKind {
    /// A node (or the root) is a draw or a placeholder; also an unparseable
    /// root FEN.
    NotDecisive,
    /// A child of a win node is not a loss.
    ChildNotLoss,
    /// A child of a loss node is not a win.
    ChildNotWin,
    /// A non-terminal win node does not have exactly one child.
    WinNotSingle,
    /// A legal reply of a loss node has no child.
    LossIncomplete,
    /// A child move is not legal in the replayed position.
    IllegalChildMove,
    /// A depth-0 node's outcome is not the replayed position's.
    TerminalMismatch,
    /// A depth disagrees with the bottom-up rule.
    DepthInconsistent,
    /// A stored hash disagrees with the replayed position.
    HashMismatch,
    /// A position repeats on the path.
    CycleLeaf,
}

impl DefectKind {
    /// The label of each kind.
    pub open spec fn spec_label(self) -> Seq<char> {
        match self {
            DefectKind::NotDecisive => "not_decisive"@,
            DefectKind::ChildNotLoss => "child_not_loss"@,
            DefectKind::ChildNotWin => "child_not_win"@,
            DefectKind::WinNotSingle => "win_not_single"@,
            DefectKind::LossIncomplete => "loss_incomplete"@,
            DefectKind::IllegalChildMove => "illegal_child_move"@,
            DefectKind::TerminalMismatch => "terminal_mismatch"@,
            DefectKind::DepthInconsistent => "depth_inconsistent"@,
            DefectKind::HashMismatch => "hash_mismatch"@,
            DefectKind::CycleLeaf => "cycle_leaf"@,
        }
    }

    /// Stable snake-case label.
    pub fn as_str(self) -> (r: &'static str)
        ensures
            r@ == self.spec_label(),
    {
        match self {
            DefectKind::NotDecisive => "not_decisive",
            DefectKind::ChildNotLoss => "child_not_loss",
            DefectKind::ChildNotWin => "child_not_win",
            DefectKind::WinNotSingle => "win_not_single",
            DefectKind::LossIncomplete => "loss_incomplete",
            DefectKind::IllegalChildMove => "illegal_child_move",
            DefectKind::TerminalMismatch => "terminal_mismatch",
            DefectKind::DepthInconsistent => "depth_inconsistent",
            DefectKind::HashMismatch => "hash_mismatch",
            DefectKind::CycleLeaf => "cycle_leaf",
        }
    }
}

/// One defect: the path of the node, its kind and some context.
#[derive(Debug, Clone)]
pub struct TreeDefect {
    pub path: Vec<Move>,
    pub kind: DefectKind,
    pub detail: String,
}

impl TreeDefect {
    /// `path=<path> kind=<kind>: <detail>`.
    pub fn to_text(&self) -> (r: String)
        ensures
            r@ == "path="@ + "root"@ + spec_uci_suffix(self.path@) + " kind="@ + self.kind.spec_label() + ": "@ + self.detail@,
    {
        let mut s = String::from_str("path=");
        let p = moves_to_uci_path(self.path.as_slice());
        s.append(p.as_str());
        s.append(" kind=");
        s.append(self.kind.as_str());
        s.append(": ");
        s.append(self.detail.as_str());
        s
    }
}

pub(crate) fn copy_moves(v: &Vec<Move>) -> (r: Vec<Move>)
    ensures
        r@ == v@,
{
    let mut out: Vec<Move> = Vec::new();
    let mut i: usize = 0;
    while i < v.len()
        invariant
            i <= v.len(),
            out@ == v@.take(i as int),
        decreases v.len() - i,
    {
        out.push(v[i]);
        i += 1;
        proof {
            assert(out@ =~= v@.take(i as int));
        }
    }
    proof {
        assert(v@.take(v.len() as int) =~= v@);
    }
    out
}

/// The bookkeeping of one validation: the defects found so far.
struct Replay {
    defects: Vec<TreeDefect>,
}

fn report(r: &mut Replay, path: &Vec<Move>, kind: DefectKind, detail: String)
    ensures
        final(r).defects.len() == old(r).defects.len() + 1,
        final(r).defects@[old(r).defects.len() as int].kind == kind,
        final(r).defects@[old(r).defects.len() as int].path@ == path@,
        forall|i: int| 0 <= i < old(r).defects.len() ==> #[trigger] final(r).defects@[i] == old(r).defects@[i],
{
    r.defects.push(TreeDefect { path: copy_moves(path), kind, detail });
}

/// Whether some child in `child_ids` is reached by `m`.
fn has_child_move(tree: &ProofTree, child_ids: &Vec<usize>, m: Move) -> (r: bool)
    requires
        forall|k: int| 0 <= k < child_ids.len() ==> #[trigger] child_ids@[k] < tree.nodes.len(),
    ensures
        r <==> exists|k: int| 0 <= k < child_ids.len() && tree.nodes@[#[trigger] child_ids@[k] as int].mv == m,
{
    let mut k: usize = 0;
    while k < child_ids.len()
        invariant
            k <= child_ids.len(),
            forall|t: int| 0 <= t < child_ids.len() ==> #[trigger] child_ids@[t] < tree.nodes.len(),
            forall|t: int| 0 <= t < k ==> tree.nodes@[#[trigger] child_ids@[t] as int].mv != m,
        decreases child_ids.len() - k,
    {
        if tree.nodes[child_ids[k]].mv == m {
            assert(tree.nodes@[child_ids@[k as int] as int].mv == m);
            return true;
        }
        k += 1;
    }
    false
}

fn contains_move(moves: &Vec<Move>, m: Move) -> (r: bool)
    ensures
        r <==> moves@.contains(m),
{
    let mut k: usize = 0;
    while k < moves.len()
        invariant
            k <= moves.len(),
            forall|t: int| 0 <= t < k ==> #[trigger] moves@[t] != m,
        decreases moves.len() - k,
    {
        if moves[k] == m {
            assert(moves@[k as int] == m);
            return true;
        }
        k += 1;
    }
    false
}

/// Some defect from index `from` on has kind `kind` at `path`.
pub open spec fn spec_has_defect(ds: Seq<TreeDefect>, from: int, kind: DefectKind, path: Seq<Move>) -> bool {
    exists|k: int| from <= k < ds.len() && (#[trigger] ds[k]).kind == kind && ds[k].path@ == path
}

proof fn lemma_has_defect_extends(a: Seq<TreeDefect>, b: Seq<TreeDefect>, from: int, kind: DefectKind, path: Seq<Move>)
    requires
        0 <= from,
        a.len() <= b.len(),
        forall|i: int| 0 <= i < a.len() ==> #[trigger] b[i] == a[i],
    ensures
        spec_has_defect(a, from, kind, path) ==> spec_has_defect(b, from, kind, path),
{
    if spec_has_defect(a, from, kind, path) {
        let k = choose|k: int| from <= k < a.len() && (#[trigger] a[k]).kind == kind && a[k].path@ == path;
        assert(b[k] == a[k]);
    }
}

proof fn lemma_defects_extend(a: Seq<TreeDefect>, b: Seq<TreeDefect>, from: int, path: Seq<Move>)
    requires
        0 <= from,
        a.len() <= b.len(),
        forall|i: int| 0 <= i < a.len() ==> #[trigger] b[i] == a[i],
    ensures
        forall|kind: DefectKind| spec_has_defect(a, from, kind, path) ==> #[trigger] spec_has_defect(b, from, kind, path),
{
    assert forall|kind: DefectKind| spec_has_defect(a, from, kind, path) implies #[trigger] spec_has_defect(b, from, kind, path) by {
        lemma_has_defect_extends(a, b, from, kind, path);
    }
}

/// The checks of one node, replayed to contents `c` at `path`, show in the
/// defects `ds` from index `from` on: a node reached again on its own path
/// is a cycle leaf; a reached node that is neither a win nor a loss is not
/// decisive; a decisive one is flagged when its stored hash disagrees with
/// the replayed key, when a depth-0 node's outcome is not the replayed
/// position's terminal outcome, and, at a non-terminal node, when a win
/// does not have exactly one child, when a child does not have the opposite
/// outcome, when a child's move is not legal in the replayed position, and
/// when a loss lacks a child for some legal reply.
pub open spec fn spec_node_checked(
    tree: &ProofTree,
    id: int,
    c: Seq<u64>,
    path: Seq<Move>,
    reached: bool,
    ds: Seq<TreeDefect>,
    from: int,
) -> bool {
    let node = tree.nodes@[id];
    let decisive = node.outcome == Some(Outcome::Win) || node.outcome == Some(Outcome::Loss);
    &&& !reached ==> spec_has_defect(ds, from, DefectKind::CycleLeaf, path)
    &&& reached && !decisive ==> spec_has_defect(ds, from, DefectKind::NotDecisive, path)
    &&& reached && decisive && node.hash != 0 && node.hash != spec_contents_key(c) ==> spec_has_defect(
        ds,
        from,
        DefectKind::HashMismatch,
        path,
    )
    &&& reached && decisive && node.depth == 0 && spec_contents_outcome(c) != node.outcome ==> spec_has_defect(
        ds,
        from,
        DefectKind::TerminalMismatch,
        path,
    )
    &&& reached && decisive && node.depth != 0 && node.outcome == Some(Outcome::Win) && spec_children(tree.nodes@, id).len() != 1
        ==> spec_has_defect(ds, from, DefectKind::WinNotSingle, path)
    &&& reached && decisive && node.depth != 0 && (exists|t: int|
        0 <= t < spec_children(tree.nodes@, id).len() && tree.nodes@[#[trigger] spec_children(tree.nodes@, id)[t]].outcome != Some(
            node.outcome->0.spec_flip(),
        )) ==> spec_has_defect(ds, from, if node.outcome == Some(Outcome::Win) { DefectKind::ChildNotLoss } else { DefectKind::ChildNotWin }, path)
    &&& reached && decisive && node.depth != 0 && (exists|t: int|
        0 <= t < spec_children(tree.nodes@, id).len() && !spec_legal_moves(c).contains(
            tree.nodes@[#[trigger] spec_children(tree.nodes@, id)[t]].mv@,
        )) ==> spec_has_defect(ds, from, DefectKind::IllegalChildMove, path)
    &&& reached && node.outcome == Some(Outcome::Loss) && node.depth != 0 && spec_reply_missing(tree, id, c) ==> spec_has_defect(
        ds,
        from,
        DefectKind::LossIncomplete,
        path,
    )
}

/// Some legal move of the position with contents `c` is the move of no
/// child of node `id`.
pub open spec fn spec_reply_missing(tree: &ProofTree, id: int, c: Seq<u64>) -> bool {
    exists|j: int|
        0 <= j < spec_legal_moves(c).len() && forall|t: int|
            0 <= t < spec_children(tree.nodes@, id).len() ==> tree.nodes@[#[trigger] spec_children(tree.nodes@, id)[t]].mv@
                != #[trigger] spec_legal_moves(c)[j]
}

/// The replay of the subtree of node `id` from a parent with contents
/// `c_parent` at `path`, with the keys of the line so far on `hashes` (for
/// the root: the root's own contents and an empty line): the node's own
/// checks show in `ds` from `from` on, and so do those of every child whose
/// move is legal in the node's replayed position, below a reached, decisive,
/// non-terminal node; and when the subtree is fully checked (see
/// [`spec_bottom_up`]) but the node's stored depth is not its bottom-up
/// depth, a depth defect shows at `path`, the line the validator is back on
/// once it has stepped out of the node (the empty line for the root).
pub open spec fn spec_visit_checked(
    tree: &ProofTree,
    id: int,
    mv: Move,
    is_root: bool,
    c_parent: Seq<u64>,
    path: Seq<Move>,
    hashes: Seq<u64>,
    ds: Seq<TreeDefect>,
    from: int,
) -> bool
    decreases tree.nodes@.len() - id,
{
    let c = if is_root { c_parent } else { spec_after_move(c_parent, mv@) };
    let p = if is_root { path } else { path.push(mv) };
    let reached = is_root || !hashes.contains(spec_contents_key(c));
    let hashes_in = if is_root { hashes } else { hashes.push(spec_contents_key(c)) };
    let node = tree.nodes@[id];
    let ch = spec_children(tree.nodes@, id);
    &&& spec_node_checked(tree, id, c, p, reached, ds, from)
    &&& (spec_bottom_up(tree, id, mv, is_root, c_parent, path, hashes, -1) matches Some(e) ==> (node.depth != e ==> spec_has_defect(
        ds,
        from,
        DefectKind::DepthInconsistent,
        path,
    )))
    &&& (reached && (node.outcome == Some(Outcome::Win) || node.outcome == Some(Outcome::Loss)) && node.depth != 0) ==> forall|t: int|
        0 <= t < ch.len() && id < ch[t] < tree.nodes@.len() && spec_legal_moves(c).contains(tree.nodes@[ch[t]].mv@) ==> spec_visit_checked(
            tree,
            #[trigger] ch[t],
            tree.nodes@[ch[t]].mv,
            false,
            c,
            p,
            hashes_in,
            ds,
            from,
        )
}

/// The bottom-up depth of the replayed subtree of node `id` (replayed as in
/// [`spec_visit_checked`]), when the subtree is fully checked: `k < 0` for
/// the node itself, `k >= 1` for the best of its first `k` children. A node
/// is fully checked when it is reached and decisive and either has no
/// children (bottom-up depth 0) or is not a terminal claim and every child
/// is legal here and fully checked; its bottom-up depth is then one more
/// than the least child depth at a win, the greatest at a loss (held at the
/// top of the range).
pub open spec fn spec_bottom_up(
    tree: &ProofTree,
    id: int,
    mv: Move,
    is_root: bool,
    c_parent: Seq<u64>,
    path: Seq<Move>,
    hashes: Seq<u64>,
    k: int,
) -> Option<u32>
    decreases tree.nodes@.len() - id, if k < 0 { spec_children(tree.nodes@, id).len() as int + 1 } else { k },
{
    let c = if is_root { c_parent } else { spec_after_move(c_parent, mv@) };
    let p = if is_root { path } else { path.push(mv) };
    let reached = is_root || !hashes.contains(spec_contents_key(c));
    let hashes_in = if is_root { hashes } else { hashes.push(spec_contents_key(c)) };
    let node = tree.nodes@[id];
    let ch = spec_children(tree.nodes@, id);
    if k < 0 {
        if !reached || !(node.outcome == Some(Outcome::Win) || node.outcome == Some(Outcome::Loss)) {
            None
        } else if ch.len() == 0 {
            Some(0u32)
        } else if node.depth == 0 {
            None
        } else {
            match spec_bottom_up(tree, id, mv, is_root, c_parent, path, hashes, ch.len() as int) {
                Some(b) => Some(if b == u32::MAX { u32::MAX } else { (b + 1) as u32 }),
                None => None,
            }
        }
    } else if k == 0 || k > ch.len() {
        None
    } else {
        let x = ch[k - 1];
        let kid = if id < x < tree.nodes@.len() && spec_legal_moves(c).contains(tree.nodes@[x].mv@) {
            spec_bottom_up(tree, x, tree.nodes@[x].mv, false, c, p, hashes_in, -1)
        } else {
            None
        };
        if k == 1 {
            kid
        } else {
            match (spec_bottom_up(tree, id, mv, is_root, c_parent, path, hashes, k - 1), kid) {
                (Some(b), Some(d)) => Some(
                    if node.outcome == Some(Outcome::Win) {
                        if d < b { d } else { b }
                    } else {
                        if d > b { d } else { b }
                    },
                ),
                _ => None,
            }
        }
    }
}

/// The bottom-up depth of child `t` of node `id` replayed at contents `c`,
/// path `p` and line keys `hashes_in`: none unless its move is legal there.
pub open spec fn spec_kid_bottom_up(tree: &ProofTree, id: int, c: Seq<u64>, p: Seq<Move>, hashes_in: Seq<u64>, t: int) -> Option<u32> {
    let x = spec_children(tree.nodes@, id)[t];
    if id < x < tree.nodes@.len() && spec_legal_moves(c).contains(tree.nodes@[x].mv@) {
        spec_bottom_up(tree, x, tree.nodes@[x].mv, false, c, p, hashes_in, -1)
    } else {
        None
    }
}

/// A validation that found nothing leaves every replayed, fully checked
/// node at its bottom-up depth: a win one more than its shortest child,
/// a loss one more than its longest.
pub proof fn lemma_clean_depth_is_bottom_up(
    tree: &ProofTree,
    id: int,
    mv: Move,
    is_root: bool,
    c_parent: Seq<u64>,
    path: Seq<Move>,
    hashes: Seq<u64>,
)
    requires
        spec_visit_checked(tree, id, mv, is_root, c_parent, path, hashes, Seq::empty(), 0),
    ensures
        spec_bottom_up(tree, id, mv, is_root, c_parent, path, hashes, -1) matches Some(e) ==> tree.nodes@[id].depth == e,
{
}

proof fn lemma_has_defect_from(ds: Seq<TreeDefect>, a: int, b: int, kind: DefectKind, path: Seq<Move>)
    requires
        b <= a,
    ensures
        spec_has_defect(ds, a, kind, path) ==> spec_has_defect(ds, b, kind, path),
{
    if spec_has_defect(ds, a, kind, path) {
        let k = choose|k: int| a <= k < ds.len() && (#[trigger] ds[k]).kind == kind && ds[k].path@ == path;
        assert(b <= k < ds.len() && ds[k].kind == kind && ds[k].path@ == path);
    }
}

proof fn lemma_node_checked_mono(
    tree: &ProofTree,
    id: int,
    c: Seq<u64>,
    path: Seq<Move>,
    reached: bool,
    ds: Seq<TreeDefect>,
    from: int,
    ds2: Seq<TreeDefect>,
    from2: int,
)
    requires
        spec_node_checked(tree, id, c, path, reached, ds, from),
        0 <= from2 <= from,
        ds.len() <= ds2.len(),
        forall|i: int| 0 <= i < ds.len() ==> #[trigger] ds2[i] == ds[i],
    ensures
        spec_node_checked(tree, id, c, path, reached, ds2, from2),
{
    lemma_kind_mono(ds, from, ds2, from2, DefectKind::CycleLeaf, path);
    lemma_kind_mono(ds, from, ds2, from2, DefectKind::NotDecisive, path);
    lemma_kind_mono(ds, from, ds2, from2, DefectKind::HashMismatch, path);
    lemma_kind_mono(ds, from, ds2, from2, DefectKind::TerminalMismatch, path);
    lemma_kind_mono(ds, from, ds2, from2, DefectKind::WinNotSingle, path);
    lemma_kind_mono(ds, from, ds2, from2, DefectKind::ChildNotLoss, path);
    lemma_kind_mono(ds, from, ds2, from2, DefectKind::ChildNotWin, path);
    lemma_kind_mono(ds, from, ds2, from2, DefectKind::IllegalChildMove, path);
    lemma_kind_mono(ds, from, ds2, from2, DefectKind::LossIncomplete, path);
}

proof fn lemma_kind_mono(ds: Seq<TreeDefect>, from: int, ds2: Seq<TreeDefect>, from2: int, kind: DefectKind, path: Seq<Move>)
    requires
        0 <= from2 <= from,
        ds.len() <= ds2.len(),
        forall|i: int| 0 <= i < ds.len() ==> #[trigger] ds2[i] == ds[i],
    ensures
        spec_has_defect(ds, from, kind, path) ==> spec_has_defect(ds2, from2, kind, path),
{
    lemma_has_defect_extends(ds, ds2, from, kind, path);
    lemma_has_defect_from(ds2, from, from2, kind, path);
}

/// Replay checks stay shown when more defects are appended and the count
/// starts earlier.
proof fn lemma_visit_checked_mono(
    tree: &ProofTree,
    id: int,
    mv: Move,
    is_root: bool,
    c_parent: Seq<u64>,
    path: Seq<Move>,
    hashes: Seq<u64>,
    ds: Seq<TreeDefect>,
    from: int,
    ds2: Seq<TreeDefect>,
    from2: int,
)
    requires
        spec_visit_checked(tree, id, mv, is_root, c_parent, path, hashes, ds, from),
        0 <= from2 <= from,
        ds.len() <= ds2.len(),
        forall|i: int| 0 <= i < ds.len() ==> #[trigger] ds2[i] == ds[i],
    ensures
        spec_visit_checked(tree, id, mv, is_root, c_parent, path, hashes, ds2, from2),
    decreases tree.nodes@.len() - id,
{
    let c = if is_root { c_parent } else { spec_after_move(c_parent, mv@) };
    let p = if is_root { path } else { path.push(mv) };
    let reached = is_root || !hashes.contains(spec_contents_key(c));
    let hashes_in = if is_root { hashes } else { hashes.push(spec_contents_key(c)) };
    let ch = spec_children(tree.nodes@, id);
    lemma_node_checked_mono(tree, id, c, p, reached, ds, from, ds2, from2);
    lemma_kind_mono(ds, from, ds2, from2, DefectKind::DepthInconsistent, path);
    let node = tree.nodes@[id];
    if reached && (node.outcome == Some(Outcome::Win) || node.outcome == Some(Outcome::Loss)) && node.depth != 0 {
        assert forall|t: int|
            0 <= t < ch.len() && id < ch[t] < tree.nodes@.len() && spec_legal_moves(c).contains(tree.nodes@[ch[t]].mv@) implies spec_visit_checked(
            tree,
            #[trigger] ch[t],
            tree.nodes@[ch[t]].mv,
            false,
            c,
            p,
            hashes_in,
            ds2,
            from2,
        ) by {
            lemma_visit_checked_mono(tree, ch[t], tree.nodes@[ch[t]].mv, false, c, p, hashes_in, ds, from, ds2, from2);
        }
    }
}

/// The bottom-up depth check of node `id`, replayed from contents `cp` by
/// `mv` (or the root), after its children were replayed: `kid_done` and
/// `kid_depth` hold, per child, whether its subtree was fully checked and
/// its bottom-up depth. When every child is fully checked and the stored
/// depth is not the node's bottom-up depth, a depth defect is recorded at
/// `path`. Returns whether the node's subtree is fully checked and its
/// bottom-up depth.
fn depth_phase(
    tree: &ProofTree,
    id: usize,
    decisive: bool,
    kid_done: &Vec<bool>,
    kid_depth: &Vec<u32>,
    path: &Vec<Move>,
    r: &mut Replay,
    Ghost(mv): Ghost<Move>,
    Ghost(is_root): Ghost<bool>,
    Ghost(cp): Ghost<Seq<u64>>,
    Ghost(pp): Ghost<Seq<Move>>,
    Ghost(hh): Ghost<Seq<u64>>,
    Ghost(c_node): Ghost<Seq<u64>>,
    Ghost(p_node): Ghost<Seq<Move>>,
    Ghost(hashes_in): Ghost<Seq<u64>>,
) -> (res: (bool, u32))
    requires
        tree.wf(),
        id < tree.nodes.len(),
        decisive == (tree.nodes@[id as int].outcome == Some(Outcome::Win) || tree.nodes@[id as int].outcome == Some(Outcome::Loss)),
        kid_done.len() == spec_children(tree.nodes@, id as int).len(),
        kid_depth.len() == kid_done.len(),
        is_root || !hh.contains(spec_contents_key(if is_root { cp } else { spec_after_move(cp, mv@) })),
        c_node == (if is_root { cp } else { spec_after_move(cp, mv@) }),
        p_node == (if is_root { pp } else { pp.push(mv) }),
        hashes_in == (if is_root { hh } else { hh.push(spec_contents_key(c_node)) }),
        decisive && tree.nodes@[id as int].depth != 0 ==> forall|t: int| 0 <= t < kid_done.len() ==> (if kid_done@[t] {
            Some(kid_depth@[t])
        } else {
            None::<u32>
        }) == #[trigger] spec_kid_bottom_up(tree, id as int, c_node, p_node, hashes_in, t),
        !(decisive && tree.nodes@[id as int].depth != 0) ==> forall|t: int| 0 <= t < kid_done.len() ==> !#[trigger] kid_done@[t],
    ensures
        (if res.0 { Some(res.1) } else { None::<u32> }) == spec_bottom_up(tree, id as int, mv, is_root, cp, pp, hh, -1),
        final(r).defects.len() >= old(r).defects.len(),
        forall|i: int| 0 <= i < old(r).defects.len() ==> #[trigger] final(r).defects@[i] == old(r).defects@[i],
        spec_bottom_up(tree, id as int, mv, is_root, cp, pp, hh, -1) matches Some(e) ==> (tree.nodes@[id as int].depth != e
            ==> spec_has_defect(final(r).defects@, old(r).defects.len() as int, DefectKind::DepthInconsistent, path@)),
{
    let check_depth = decisive;
    let node = tree.nodes[id];
    let ghost chs = spec_children(tree.nodes@, id as int);
    let nk = kid_done.len();
    let mut children_complete = true;
    let mut k: usize = 0;
    while k < nk
        invariant
            k <= nk,
            nk == kid_done.len(),
            children_complete == (forall|t: int| 0 <= t < k ==> #[trigger] kid_done@[t]),
        decreases nk - k,
    {
        if !kid_done[k] {
            children_complete = false;
        }
        k += 1;
    }
    let mut result: (bool, u32) = (false, 0);
    if check_depth {
        let expected: u32 = if nk == 0 {
            0
        } else {
            let use_min = node.outcome == Some(Outcome::Win);
            let mut best: u32 = kid_depth[0];
            proof {
                assert(spec_bottom_up(tree, id as int, mv, is_root, cp, pp, hh, 1) == spec_kid_bottom_up(tree, id as int, c_node, p_node, hashes_in, 0));
                if node.depth != 0 {
                    assert forall|t: int| 0 <= t < nk implies (if kid_done@[t] { Some(kid_depth@[t]) } else { None::<u32> })
                        == #[trigger] spec_kid_bottom_up(tree, id as int, c_node, p_node, hashes_in, t) by {
                        let c2 = if is_root { cp } else { spec_after_move(cp, mv@) };
                        let p2 = if is_root { pp } else { pp.push(mv) };
                        let h2 = if is_root { hh } else { hh.push(spec_contents_key(c2)) };
                        assert(c2 == c_node && p2 == p_node && h2 == hashes_in);
                        assert(decisive);
                        assert(tree.nodes@[id as int].depth != 0);
                        assert(0 <= t < kid_done.len());
                    }
                    if kid_done@[0] {
                        assert(forall|t: int| 0 <= t < 1 ==> #[trigger] kid_done@[t]);
                    } else {
                        assert(!(forall|t: int| 0 <= t < 1 ==> #[trigger] kid_done@[t]));
                    }
                }
            }
            let mut k: usize = 1;
            while k < nk
                invariant
                    1 <= k <= nk,
                    nk == kid_done.len(),
                    nk == kid_depth.len(),
                    nk == chs.len(),
                    chs == spec_children(tree.nodes@, id as int),
                    node == tree.nodes@[id as int],
                    use_min == (node.outcome == Some(Outcome::Win)),
                    c_node == (if is_root { cp } else { spec_after_move(cp, mv@) }),
                    p_node == (if is_root { pp } else { pp.push(mv) }),
                    hashes_in == (if is_root { hh } else { hh.push(spec_contents_key(c_node)) }),
                    node.depth != 0 ==> forall|t: int| 0 <= t < nk ==> (if kid_done@[t] { Some(kid_depth@[t]) } else { None::<u32> })
                        == #[trigger] spec_kid_bottom_up(tree, id as int, c_node, p_node, hashes_in, t),
                    node.depth != 0 && (forall|t: int| 0 <= t < k ==> #[trigger] kid_done@[t]) ==> spec_bottom_up(
                        tree,
                        id as int,
                        mv,
                        is_root,
                        cp,
                        pp,
                        hh,
                        k as int,
                    ) == Some(best),
                    node.depth != 0 && !(forall|t: int| 0 <= t < k ==> #[trigger] kid_done@[t]) ==> spec_bottom_up(
                        tree,
                        id as int,
                        mv,
                        is_root,
                        cp,
                        pp,
                        hh,
                        k as int,
                    ) is None,
                decreases nk - k,
            {
                let d = kid_depth[k];
                proof {
                    assert(spec_kid_bottom_up(tree, id as int, c_node, p_node, hashes_in, k as int) == (if kid_done@[k as int] {
                        Some(kid_depth@[k as int])
                    } else {
                        None::<u32>
                    }) || node.depth == 0);
                }
                if use_min {
                    if d < best {
                        best = d;
                    }
                } else {
                    if d > best {
                        best = d;
                    }
                }
                proof {
                    if node.depth != 0 {
                        if forall|t: int| 0 <= t < k + 1 ==> #[trigger] kid_done@[t] {
                            assert(kid_done@[k as int]);
                            assert(forall|t: int| 0 <= t < k ==> #[trigger] kid_done@[t]);
                        } else if forall|t: int| 0 <= t < k ==> #[trigger] kid_done@[t] {
                            assert(!kid_done@[k as int]);
                        }
                    }
                }
                k += 1;
            }
            best.saturating_add(1)
        };
        if children_complete && node.depth != expected {
            let mut d = String::from_str("stored depth ");
            push_decimal(&mut d, node.depth as u64);
            d.append(" != bottom-up expected ");
            push_decimal(&mut d, expected as u64);
            let ghost before = r.defects@;
            report(r, path, DefectKind::DepthInconsistent, d);
            proof {
                assert(r.defects@[before.len() as int].kind == DefectKind::DepthInconsistent);
            }
        }
        result = (children_complete, expected);
    }
    proof {
        let ch = spec_children(tree.nodes@, id as int);
        if decisive && ch.len() > 0 && node.depth != 0 {
            assert(spec_bottom_up(tree, id as int, mv, is_root, cp, pp, hh, -1) == match spec_bottom_up(
                tree,
                id as int,
                mv,
                is_root,
                cp,
                pp,
                hh,
                ch.len() as int,
            ) {
                Some(b) => Some(if b == u32::MAX { u32::MAX } else { (b + 1) as u32 }),
                None => None,
            });
        }
        if decisive && ch.len() > 0 && node.depth == 0 {
            assert(!kid_done@[0]);
        }
    }
    result
}

/// Visit node `id`, reached by playing `mv` (nothing for the root), check
/// its rules, visit its replayable children, then check its depth.
#[verifier::rlimit(100)]
fn visit(
    tree: &ProofTree,
    id: usize,
    mv: Move,
    is_root: bool,
    pos: &mut Position,
    path: &mut Vec<Move>,
    path_hashes: &mut Vec<u64>,
    r: &mut Replay,
) -> (res: (bool, u32))
    requires
        tree.wf(),
        id < tree.nodes.len(),
        old(pos).wf(),
        !is_root ==> old(pos).is_legal(mv),
    ensures
        (if res.0 { Some(res.1) } else { None::<u32> }) == spec_bottom_up(
            tree,
            id as int,
            mv,
            is_root,
            old(pos).contents(),
            old(path)@,
            old(path_hashes)@,
            -1,
        ),
        final(pos).wf(),
        final(pos).keys() == old(pos).keys(),
        final(pos).history() == old(pos).history(),
        final(pos).contents() == old(pos).contents(),
        final(pos).board_history() == old(pos).board_history(),
        final(path)@ == old(path)@,
        final(path_hashes)@ == old(path_hashes)@,
        final(r).defects.len() >= old(r).defects.len(),
        forall|i: int| 0 <= i < old(r).defects.len() ==> #[trigger] final(r).defects@[i] == old(r).defects@[i],
        is_root && !(tree.nodes@[id as int].outcome == Some(Outcome::Win) || tree.nodes@[id as int].outcome == Some(Outcome::Loss))
            ==> final(r).defects.len() > old(r).defects.len() && final(r).defects@[old(r).defects.len() as int].kind
            == DefectKind::NotDecisive && final(r).defects@[old(r).defects.len() as int].path@ == old(path)@,
        spec_node_checked(
            tree,
            id as int,
            if is_root { old(pos).contents() } else { spec_after_move(old(pos).contents(), mv@) },
            if is_root { old(path)@ } else { old(path)@.push(mv) },
            is_root || !old(path_hashes)@.contains(spec_contents_key(spec_after_move(old(pos).contents(), mv@))),
            final(r).defects@,
            old(r).defects.len() as int,
        ),
        spec_visit_checked(
            tree,
            id as int,
            mv,
            is_root,
            old(pos).contents(),
            old(path)@,
            old(path_hashes)@,
            final(r).defects@,
            old(r).defects.len() as int,
        ),
    decreases tree.nodes.len() - id,
{
    let ghost pos0 = *pos;
    let ghost start_len = r.defects.len();
    let ghost mut keep: Seq<TreeDefect> = r.defects@;
    let ghost mut ds_children: Seq<TreeDefect> = r.defects@;
    let ghost c_node = if is_root { old(pos).contents() } else { spec_after_move(old(pos).contents(), mv@) };
    let ghost p_node = if is_root { old(path)@ } else { old(path)@.push(mv) };
    let mut hash_on_path = false;
    let ghost mut after_do = *pos;
    if !is_root {
        pos.do_move(mv);
        proof {
            after_do = *pos;
        }
        path.push(mv);
        let hash = pos.hash();
        if contains_key(path_hashes, hash) {
            proof {
                after_do.lemma_wf_keys();
            }
            report(r, path, DefectKind::CycleLeaf, String::from_str("position already appears on the current path"));
            proof {
                assert(spec_has_defect(r.defects@, start_len as int, DefectKind::CycleLeaf, p_node)) by {
                    assert(r.defects@[start_len as int].kind == DefectKind::CycleLeaf);
                }
            }
            pos.undo_move(mv);
            let _ = path.pop();
            proof {
                crate::position::lemma_undo_reverts_do(pos0, after_do, *pos);
                assert(path@ =~= old(path)@);
            }
            return (false, 0);
        }
        proof {
            after_do.lemma_wf_keys();
        }
        path_hashes.push(hash);
        hash_on_path = true;
    }
    proof {
        pos.lemma_wf_keys();
    }
    let ghost pos_in = *pos;
    let ghost path_in = path@;
    let ghost hashes_in = path_hashes@;
    proof {
        if !is_root {
            assert(hashes_in == old(path_hashes)@.push(spec_contents_key(c_node)));
        }
    }
    let node = tree.nodes[id];
    let outcome: Option<Outcome> = match node.outcome {
        Some(Outcome::Win) => Some(Outcome::Win),
        Some(Outcome::Loss) => Some(Outcome::Loss),
        Some(Outcome::Draw) => {
            report(r, path, DefectKind::NotDecisive, String::from_str("draw node; the search never emits draw events"));
            None
        },
        None => {
            report(r, path, DefectKind::NotDecisive, String::from_str("unrealized node"));
            None
        },
    };
    let ghost first_len = r.defects.len();
    proof {
        if outcome is None {
            assert(r.defects@[start_len as int].kind == DefectKind::NotDecisive);
            assert(spec_has_defect(r.defects@, start_len as int, DefectKind::NotDecisive, p_node));
        }
        keep = r.defects@;
    }
    let all_kids = tree.children(id);
    let ghost chs = spec_children(tree.nodes@, id as int);
    let mut kid_done: Vec<bool> = Vec::new();
    let mut kid_depth: Vec<u32> = Vec::new();
    let mut q: usize = 0;
    while q < all_kids.len()
        invariant
            q <= all_kids.len(),
            kid_done.len() == q,
            kid_depth.len() == q,
            forall|t: int| 0 <= t < q ==> !#[trigger] kid_done@[t],
        decreases all_kids.len() - q,
    {
        kid_done.push(false);
        kid_depth.push(0);
        q += 1;
    }
    let ghost mut vis: Seq<bool> = kid_done@;
    proof {
        assert forall|t: int| 0 <= t < all_kids.len() implies #[trigger] all_kids@[t] as int == chs[t] by {
            assert(all_kids@.map_values(|x: usize| x as int)[t] == all_kids@[t] as int);
        }
        assert(all_kids@.map_values(|x: usize| x as int).len() == all_kids.len());
        assert(!is_root ==> hashes_in == old(path_hashes)@.push(spec_contents_key(c_node)));
        assert(is_root ==> hashes_in == old(path_hashes)@);
    }
    if let Some(outcome) = outcome {
        let here = pos.hash();
        if node.hash != 0 && node.hash != here {
            let mut d = String::from_str("node hash ");
            push_hex(&mut d, node.hash, 16);
            d.append(" != replayed ");
            push_hex(&mut d, here, 16);
            let ghost before = r.defects@;
            report(r, path, DefectKind::HashMismatch, d);
            proof {
                assert(r.defects@[before.len() as int].kind == DefectKind::HashMismatch);
                assert(spec_has_defect(r.defects@, start_len as int, DefectKind::HashMismatch, p_node));
            }
        }
        proof {
            lemma_defects_extend(keep, r.defects@, start_len as int, p_node);
            keep = r.defects@;
        }
        let mut moves: Vec<Move> = Vec::new();
        let mut state = movegen::state_new();
        pos.legal_moves_with_state(&mut moves, &mut state);
        if node.depth == 0 {
            let static_outcome = pos.outcome_from_state(&state, &moves);
            if static_outcome != Some(outcome) {
                let mut d = String::from_str("depth-0 node outcome ");
                d.append(outcome.as_str());
                d.append(" but replayed position yields ");
                match static_outcome {
                    Some(o) => d.append(o.as_str()),
                    None => d.append("non-terminal"),
                }
                let ghost before = r.defects@;
                report(r, path, DefectKind::TerminalMismatch, d);
                proof {
                    assert(r.defects@[before.len() as int].kind == DefectKind::TerminalMismatch);
                    assert(spec_has_defect(r.defects@, start_len as int, DefectKind::TerminalMismatch, p_node));
                    lemma_has_defect_extends(keep, r.defects@, start_len as int, DefectKind::HashMismatch, p_node);
                    lemma_has_defect_extends(keep, r.defects@, start_len as int, DefectKind::NotDecisive, p_node);
                }
            }
            proof {
                lemma_defects_extend(keep, r.defects@, start_len as int, p_node);
                keep = r.defects@;
            }
        } else {
            let child_ids = &all_kids;
            if outcome == Outcome::Win && child_ids.len() != 1 {
                let mut d = String::from_str("non-terminal win node has ");
                push_decimal(&mut d, child_ids.len() as u64);
                d.append(" children");
                let ghost before = r.defects@;
                report(r, path, DefectKind::WinNotSingle, d);
                proof {
                    assert(r.defects@[before.len() as int].kind == DefectKind::WinNotSingle);
                    assert(spec_has_defect(r.defects@, start_len as int, DefectKind::WinNotSingle, p_node));
                    lemma_has_defect_extends(keep, r.defects@, start_len as int, DefectKind::HashMismatch, p_node);
                }
            }
            proof {
                lemma_defects_extend(keep, r.defects@, start_len as int, p_node);
                keep = r.defects@;
            }
            let (child_kind, expected_child) = if outcome == Outcome::Win {
                (DefectKind::ChildNotLoss, Outcome::Loss)
            } else {
                (DefectKind::ChildNotWin, Outcome::Win)
            };
            let mut k: usize = 0;
            while k < child_ids.len()
                invariant
                    k <= child_ids.len(),
                    forall|t: int| 0 <= t < child_ids.len() ==> id < #[trigger] child_ids@[t] < tree.nodes.len(),
                    r.defects.len() >= first_len,
                    forall|i: int| 0 <= i < first_len ==> #[trigger] r.defects@[i] == old(r).defects@[i] || i >= start_len,
                    forall|i: int| 0 <= i < start_len ==> #[trigger] r.defects@[i] == old(r).defects@[i],
                    start_len <= first_len,
                    r.defects.len() >= keep.len(),
                    forall|i: int| 0 <= i < keep.len() ==> #[trigger] r.defects@[i] == keep[i],
                    path@ == p_node,
                    0 <= start_len,
                    (exists|t: int| 0 <= t < k && tree.nodes@[#[trigger] child_ids@[t] as int].outcome != Some(expected_child))
                        ==> spec_has_defect(r.defects@, start_len as int, child_kind, p_node),
                decreases child_ids.len() - k,
            {
                let child = tree.nodes[child_ids[k]];
                let ghost before = r.defects@;
                if child.outcome != Some(expected_child) {
                    let mut d = String::from_str("child outcome ");
                    match child.outcome {
                        Some(o) => d.append(o.as_str()),
                        None => d.append("none"),
                    }
                    report(r, path, child_kind, d);
                    proof {
                        assert(r.defects@[before.len() as int].kind == child_kind);
                    }
                }
                proof {
                    if exists|t: int| 0 <= t < k && tree.nodes@[#[trigger] child_ids@[t] as int].outcome != Some(expected_child) {
                        lemma_has_defect_extends(before, r.defects@, start_len as int, child_kind, p_node);
                    }
                }
                k += 1;
            }
            proof {
                let ch = spec_children(tree.nodes@, id as int);
                if exists|t: int| 0 <= t < ch.len() && tree.nodes@[#[trigger] ch[t]].outcome != Some(outcome.spec_flip()) {
                    let t = choose|t: int| 0 <= t < ch.len() && tree.nodes@[#[trigger] ch[t]].outcome != Some(outcome.spec_flip());
                    assert(child_ids@.map_values(|x: usize| x as int)[t] == child_ids@[t] as int);
                    assert(tree.nodes@[child_ids@[t] as int].outcome != Some(expected_child));
                }
                lemma_defects_extend(keep, r.defects@, start_len as int, p_node);
                keep = r.defects@;
            }
            // Children whose move is legal are replayed, in child order;
            // illegal ones are reported, last child first.
            let mut to_visit: Vec<usize> = Vec::new();
            let mut to_visit_pos: Vec<usize> = Vec::new();
            let mut k: usize = child_ids.len();
            while k > 0
                invariant
                    k <= child_ids.len(),
                    to_visit_pos.len() == to_visit.len(),
                    forall|u: int| 0 <= u < to_visit.len() ==> k <= #[trigger] to_visit_pos@[u] < child_ids.len() && child_ids@[to_visit_pos@[u] as int] == to_visit@[u],
                    forall|t: int| 0 <= t < child_ids.len() ==> id < #[trigger] child_ids@[t] < tree.nodes.len(),
                    forall|t: int| 0 <= t < to_visit.len() ==> id < #[trigger] to_visit@[t] < tree.nodes.len(),
                    forall|t: int| 0 <= t < to_visit.len() ==> moves@.contains(tree.nodes@[#[trigger] to_visit@[t] as int].mv),
                    r.defects.len() >= first_len,
                    forall|i: int| 0 <= i < start_len ==> #[trigger] r.defects@[i] == old(r).defects@[i],
                    start_len <= first_len,
                    r.defects.len() >= keep.len(),
                    forall|i: int| 0 <= i < keep.len() ==> #[trigger] r.defects@[i] == keep[i],
                    path@ == p_node,
                    0 <= start_len,
                    (exists|t: int| k <= t < child_ids.len() && !moves@.contains(tree.nodes@[#[trigger] child_ids@[t] as int].mv))
                        ==> spec_has_defect(r.defects@, start_len as int, DefectKind::IllegalChildMove, p_node),
                    forall|t: int| k <= t < child_ids.len() && moves@.contains(tree.nodes@[#[trigger] child_ids@[t] as int].mv)
                        ==> to_visit@.contains(child_ids@[t]),
                decreases k,
            {
                k = k - 1;
                let c = child_ids[k];
                let child_mv = tree.nodes[c].mv;
                let ghost before = r.defects@;
                if contains_move(&moves, child_mv) {
                    let ghost tv = to_visit@;
                    to_visit.push(c);
                    to_visit_pos.push(k);
                    proof {
                        assert(to_visit@[tv.len() as int] == c);
                        assert forall|t: int| k <= t < child_ids.len() && moves@.contains(tree.nodes@[#[trigger] child_ids@[t] as int].mv)
                            implies to_visit@.contains(child_ids@[t]) by {
                            if t > k {
                                let u = choose|u: int| 0 <= u < tv.len() && tv[u] == child_ids@[t];
                                assert(to_visit@[u] == tv[u]);
                            }
                        }
                    }
                } else {
                    report(r, path, DefectKind::IllegalChildMove, move_to_uci(child_mv));
                    proof {
                        assert(r.defects@[before.len() as int].kind == DefectKind::IllegalChildMove);
                    }
                }
                proof {
                    if exists|t: int| k + 1 <= t < child_ids.len() && !moves@.contains(tree.nodes@[#[trigger] child_ids@[t] as int].mv) {
                        lemma_has_defect_extends(before, r.defects@, start_len as int, DefectKind::IllegalChildMove, p_node);
                    }
                }
            }
            proof {
                let ch = spec_children(tree.nodes@, id as int);
                if exists|t: int| 0 <= t < ch.len() && !spec_legal_moves(c_node).contains(tree.nodes@[#[trigger] ch[t]].mv@) {
                    let t = choose|t: int| 0 <= t < ch.len() && !spec_legal_moves(c_node).contains(tree.nodes@[#[trigger] ch[t]].mv@);
                    assert(child_ids@.map_values(|x: usize| x as int)[t] == child_ids@[t] as int);
                    crate::position::lemma_codes_contain(moves@, spec_legal_moves(c_node), tree.nodes@[ch[t]].mv);
                    assert(!moves@.contains(tree.nodes@[child_ids@[t] as int].mv));
                }
                lemma_has_defect_extends(keep, r.defects@, start_len as int, child_kind, p_node);
                lemma_defects_extend(keep, r.defects@, start_len as int, p_node);
                keep = r.defects@;
            }
            if outcome == Outcome::Loss {
                let mut k: usize = 0;
                while k < moves.len()
                    invariant
                        k <= moves.len(),
                        forall|t: int| 0 <= t < child_ids.len() ==> id < #[trigger] child_ids@[t] < tree.nodes.len(),
                        r.defects.len() >= first_len,
                        forall|i: int| 0 <= i < start_len ==> #[trigger] r.defects@[i] == old(r).defects@[i],
                        start_len <= first_len,
                        r.defects.len() >= keep.len(),
                        forall|i: int| 0 <= i < keep.len() ==> #[trigger] r.defects@[i] == keep[i],
                        path@ == p_node,
                        0 <= start_len,
                        (exists|j: int| 0 <= j < k && forall|t: int| 0 <= t < child_ids.len() ==> tree.nodes@[#[trigger] child_ids@[t] as int].mv
                            != #[trigger] moves@[j]) ==> spec_has_defect(r.defects@, start_len as int, DefectKind::LossIncomplete, p_node),
                    decreases moves.len() - k,
                {
                    let reply = moves[k];
                    let ghost before = r.defects@;
                    if !has_child_move(tree, child_ids, reply) {
                        let mut d = String::from_str("missing reply ");
                        let u = move_to_uci(reply);
                        d.append(u.as_str());
                        report(r, path, DefectKind::LossIncomplete, d);
                        proof {
                            assert(r.defects@[before.len() as int].kind == DefectKind::LossIncomplete);
                        }
                    }
                    proof {
                        if exists|j: int| 0 <= j < k && forall|t: int| 0 <= t < child_ids.len() ==> tree.nodes@[#[trigger] child_ids@[t] as int].mv
                            != #[trigger] moves@[j] {
                            lemma_has_defect_extends(before, r.defects@, start_len as int, DefectKind::LossIncomplete, p_node);
                        }
                    }
                    k += 1;
                }
                proof {
                    let ch = spec_children(tree.nodes@, id as int);
                    let lg = spec_legal_moves(c_node);
                    if spec_reply_missing(tree, id as int, c_node) {
                        let j = choose|j: int| 0 <= j < lg.len() && forall|t: int| 0 <= t < ch.len() ==> tree.nodes@[#[trigger] ch[t]].mv@ != #[trigger] lg[j];
                        assert forall|t: int| 0 <= t < child_ids.len() implies tree.nodes@[#[trigger] child_ids@[t] as int].mv != moves@[j] by {
                            assert(child_ids@.map_values(|x: usize| x as int)[t] == child_ids@[t] as int);
                            assert(tree.nodes@[ch[t]].mv@ != lg[j]);
                        }
                    }
                }
            }
            proof {
                lemma_has_defect_extends(keep, r.defects@, start_len as int, child_kind, p_node);
                lemma_has_defect_extends(keep, r.defects@, start_len as int, DefectKind::IllegalChildMove, p_node);
                lemma_defects_extend(keep, r.defects@, start_len as int, p_node);
                keep = r.defects@;
            }
            let mut k: usize = to_visit.len();
            while k > 0
                invariant
                    k <= to_visit.len(),
                    tree.wf(),
                    forall|t: int| 0 <= t < to_visit.len() ==> id < #[trigger] to_visit@[t] < tree.nodes.len(),
                    forall|t: int| 0 <= t < to_visit.len() ==> moves@.contains(tree.nodes@[#[trigger] to_visit@[t] as int].mv),
                    moves.len() == pos_in.legal_codes().len(),
                    forall|j: int| 0 <= j < moves.len() ==> #[trigger] moves@[j]@ == pos_in.legal_codes()[j],
                    pos.wf(),
                    pos.keys() == pos_in.keys(),
                    pos.history() == pos_in.history(),
                    pos.contents() == pos_in.contents(),
                    pos.board_history() == pos_in.board_history(),
                    path@ == path_in,
                    path_hashes@ == hashes_in,
                    r.defects.len() >= first_len,
                    forall|i: int| 0 <= i < start_len ==> #[trigger] r.defects@[i] == old(r).defects@[i],
                    start_len <= first_len,
                    r.defects.len() >= keep.len(),
                    forall|i: int| 0 <= i < keep.len() ==> #[trigger] r.defects@[i] == keep[i],
                    c_node == pos_in.contents(),
                    p_node == path_in,
                    to_visit_pos.len() == to_visit.len(),
                    forall|u: int| 0 <= u < to_visit.len() ==> #[trigger] to_visit_pos@[u] < child_ids.len() && child_ids@[to_visit_pos@[u] as int] == to_visit@[u],
                    kid_done.len() == child_ids.len(),
                    kid_depth.len() == child_ids.len(),
                    vis.len() == child_ids.len(),
                    child_ids@ == all_kids@,
                    forall|t: int| 0 <= t < child_ids.len() ==> #[trigger] child_ids@[t] as int == chs[t],
                    chs == spec_children(tree.nodes@, id as int),
                    id < tree.nodes.len(),
                    forall|t: int| 0 <= t < child_ids.len() ==> (if kid_done@[t] { Some(kid_depth@[t]) } else { None::<u32> }) == (if vis[t] {
                        spec_kid_bottom_up(tree, id as int, c_node, p_node, hashes_in, t)
                    } else {
                        None::<u32>
                    }),
                    forall|u: int| k <= u < to_visit.len() ==> vis[#[trigger] to_visit_pos@[u] as int],
                    forall|u: int| k <= u < to_visit.len() ==> spec_visit_checked(
                        tree,
                        #[trigger] to_visit@[u] as int,
                        tree.nodes@[to_visit@[u] as int].mv,
                        false,
                        c_node,
                        p_node,
                        hashes_in,
                        r.defects@,
                        start_len as int,
                    ),
                decreases k,
            {
                k = k - 1;
                let c = to_visit[k];
                proof {
                    crate::position::lemma_contained_is_legal(pos_in, moves@, tree.nodes@[c as int].mv);
                }
                let ghost before = r.defects@;
                let res = visit(tree, c, tree.nodes[c].mv, false, pos, path, path_hashes, r);
                let tpos = to_visit_pos[k];
                kid_done.set(tpos, res.0);
                kid_depth.set(tpos, res.1);
                proof {
                    crate::position::lemma_codes_contain(moves@, spec_legal_moves(c_node), tree.nodes@[c as int].mv);
                    assert(chs[tpos as int] == c as int);
                    vis = vis.update(tpos as int, true);
                    assert forall|t: int| 0 <= t < child_ids.len() implies (if kid_done@[t] { Some(kid_depth@[t]) } else { None::<u32> }) == (if vis[t] {
                        spec_kid_bottom_up(tree, id as int, c_node, p_node, hashes_in, t)
                    } else {
                        None::<u32>
                    }) by {}

                    lemma_visit_checked_mono(
                        tree,
                        c as int,
                        tree.nodes@[c as int].mv,
                        false,
                        c_node,
                        p_node,
                        hashes_in,
                        r.defects@,
                        before.len() as int,
                        r.defects@,
                        start_len as int,
                    );
                    assert forall|u: int| k <= u < to_visit.len() implies spec_visit_checked(
                        tree,
                        #[trigger] to_visit@[u] as int,
                        tree.nodes@[to_visit@[u] as int].mv,
                        false,
                        c_node,
                        p_node,
                        hashes_in,
                        r.defects@,
                        start_len as int,
                    ) by {
                        if u > k {
                            lemma_visit_checked_mono(
                                tree,
                                to_visit@[u] as int,
                                tree.nodes@[to_visit@[u] as int].mv,
                                false,
                                c_node,
                                p_node,
                                hashes_in,
                                before,
                                start_len as int,
                                r.defects@,
                                start_len as int,
                            );
                        }
                    }
                }
            }
            proof {
                ds_children = r.defects@;
                let ch = spec_children(tree.nodes@, id as int);
                assert forall|t: int|
                    0 <= t < ch.len() && id < ch[t] < tree.nodes@.len() && spec_legal_moves(c_node).contains(tree.nodes@[ch[t]].mv@) implies spec_visit_checked(
                    tree,
                    #[trigger] ch[t],
                    tree.nodes@[ch[t]].mv,
                    false,
                    c_node,
                    p_node,
                    hashes_in,
                    ds_children,
                    start_len as int,
                ) by {
                    assert(child_ids@.map_values(|x: usize| x as int)[t] == child_ids@[t] as int);
                    crate::position::lemma_codes_contain(moves@, spec_legal_moves(c_node), tree.nodes@[ch[t]].mv);
                    assert(moves@.contains(tree.nodes@[child_ids@[t] as int].mv));
                    assert(to_visit@.contains(child_ids@[t]));
                    let u = choose|u: int| 0 <= u < to_visit.len() && to_visit@[u] == child_ids@[t];
                    assert(spec_visit_checked(
                        tree,
                        to_visit@[u] as int,
                        tree.nodes@[to_visit@[u] as int].mv,
                        false,
                        c_node,
                        p_node,
                        hashes_in,
                        ds_children,
                        start_len as int,
                    ));
                }
                assert forall|t: int| 0 <= t < child_ids.len() implies (if kid_done@[t] { Some(kid_depth@[t]) } else { None::<u32> })
                    == #[trigger] spec_kid_bottom_up(tree, id as int, c_node, p_node, hashes_in, t) by {
                    if !vis[t] {
                        let x = chs[t];
                        if id < x < tree.nodes@.len() && spec_legal_moves(c_node).contains(tree.nodes@[x].mv@) {
                            assert(child_ids@.map_values(|x: usize| x as int)[t] == child_ids@[t] as int);
                            crate::position::lemma_codes_contain(moves@, spec_legal_moves(c_node), tree.nodes@[x].mv);
                            assert(moves@.contains(tree.nodes@[child_ids@[t] as int].mv));
                            assert(to_visit@.contains(child_ids@[t]));
                            let u = choose|u: int| 0 <= u < to_visit.len() && to_visit@[u] == child_ids@[t];
                            let tp = to_visit_pos@[u] as int;
                            assert(child_ids@[tp] == child_ids@[t]);
                            assert(tp == t);
                            assert(vis[tp]);
                        }
                    }
                }
            }
        }
    }
    // Leave the node.
    if !is_root {
        if hash_on_path {
            let _ = path_hashes.pop();
        }
        let _ = path.pop();
        pos.undo_move(mv);
        proof {
            crate::position::lemma_undo_reverts_do(pos0, after_do, *pos);
            assert(path@ =~= old(path)@);
            assert(path_hashes@ =~= old(path_hashes)@);
        }
    }
    let ghost mv_g = mv;
    let ghost root_g = is_root;
    let ghost cp_g = old(pos).contents();
    let ghost pp_g = old(path)@;
    let ghost hh_g = old(path_hashes)@;
    let ghost before_depth = r.defects@;
    let ghost cn_g = c_node;
    let ghost pn_g = p_node;
    let ghost hn_g = hashes_in;
    let result = depth_phase(
        tree,
        id,
        outcome.is_some(),
        &kid_done,
        &kid_depth,
        path,
        r,
        Ghost(mv_g),
        Ghost(root_g),
        Ghost(cp_g),
        Ghost(pp_g),
        Ghost(hh_g),
        Ghost(cn_g),
        Ghost(pn_g),
        Ghost(hn_g),
    );
    proof {
        lemma_has_defect_extends(keep, r.defects@, start_len as int, DefectKind::NotDecisive, p_node);
        lemma_has_defect_extends(keep, r.defects@, start_len as int, DefectKind::HashMismatch, p_node);
        lemma_has_defect_extends(keep, r.defects@, start_len as int, DefectKind::TerminalMismatch, p_node);
        lemma_has_defect_extends(keep, r.defects@, start_len as int, DefectKind::WinNotSingle, p_node);
        lemma_has_defect_extends(keep, r.defects@, start_len as int, DefectKind::ChildNotLoss, p_node);
        lemma_has_defect_extends(keep, r.defects@, start_len as int, DefectKind::ChildNotWin, p_node);
        lemma_has_defect_extends(keep, r.defects@, start_len as int, DefectKind::IllegalChildMove, p_node);
        lemma_has_defect_extends(keep, r.defects@, start_len as int, DefectKind::LossIncomplete, p_node);
        let node = tree.nodes@[id as int];
        let ch = spec_children(tree.nodes@, id as int);
        let reached = is_root || !old(path_hashes)@.contains(spec_contents_key(c_node));
        if reached && (node.outcome == Some(Outcome::Win) || node.outcome == Some(Outcome::Loss)) && node.depth != 0 {
            assert forall|t: int|
                0 <= t < ch.len() && id < ch[t] < tree.nodes@.len() && spec_legal_moves(c_node).contains(tree.nodes@[ch[t]].mv@) implies spec_visit_checked(
                tree,
                #[trigger] ch[t],
                tree.nodes@[ch[t]].mv,
                false,
                c_node,
                p_node,
                hashes_in,
                r.defects@,
                start_len as int,
            ) by {
                lemma_visit_checked_mono(
                    tree,
                    ch[t],
                    tree.nodes@[ch[t]].mv,
                    false,
                    c_node,
                    p_node,
                    hashes_in,
                    ds_children,
                    start_len as int,
                    r.defects@,
                    start_len as int,
                );
            }
        }
        lemma_has_defect_from(r.defects@, before_depth.len() as int, start_len as int, DefectKind::DepthInconsistent, old(path)@);
    }
    result
}

/// Check the rules of a proof over `tree` by replaying every path from the
/// root FEN. `Ok(())` for a clean proof, otherwise every defect found, in
/// replay order. An unparseable root FEN gives the single defect
/// `NotDecisive`; otherwise every replayed node's checks show in the
/// defects (see [`spec_visit_checked`]), so `Ok` means every replayed node
/// passed them, and every fully checked node (the root among them) stores
/// its bottom-up depth.
pub fn validate_proof_tree(tree: &ProofTree) -> (r: Result<(), Vec<TreeDefect>>)
    requires
        tree.wf(),
    ensures
        r matches Err(defects) ==> defects.len() > 0,
        r is Ok ==> tree.nodes@[0].outcome == Some(Outcome::Win) || tree.nodes@[0].outcome == Some(Outcome::Loss),
        !(spec_fullmove_small(tree.root_fen@) && spec_parse_fen(tree.root_fen@) is Some) ==> (r matches Err(d) && d.len() == 1
            && d@[0].kind == DefectKind::NotDecisive && d@[0].path@.len() == 0),
        spec_fullmove_small(tree.root_fen@) && spec_parse_fen(tree.root_fen@) is Some ==> spec_visit_checked(
            tree,
            0,
            Move::spec_none(),
            true,
            spec_parse_fen(tree.root_fen@)->0,
            Seq::empty(),
            Seq::empty(),
            match r {
                Ok(_) => Seq::empty(),
                Err(d) => d@,
            },
            0,
        ),
        r is Ok ==> (spec_bottom_up(
            tree,
            0,
            Move::spec_none(),
            true,
            spec_parse_fen(tree.root_fen@)->0,
            Seq::empty(),
            Seq::empty(),
            -1,
        ) matches Some(e) ==> tree.nodes@[0].depth == e),
{
    let mut pos = match Position::from_fen(tree.root_fen.as_str()) {
        Ok(p) => p,
        Err(e) => {
            let mut d = String::from_str("root FEN failed to parse: ");
            d.append(e.message.as_str());
            let mut defects: Vec<TreeDefect> = Vec::new();
            defects.push(TreeDefect { path: Vec::new(), kind: DefectKind::NotDecisive, detail: d });
            return Err(defects);
        },
    };
    let mut replay = Replay { defects: Vec::new() };
    let mut path: Vec<Move> = Vec::new();
    let mut path_hashes: Vec<u64> = Vec::new();
    proof {
        assert(path@ =~= Seq::<Move>::empty());
        assert(path_hashes@ =~= Seq::<u64>::empty());
    }
    let none = Move::none();
    let _root = visit(tree, 0, none, true, &mut pos, &mut path, &mut path_hashes, &mut replay);
    if replay.defects.len() == 0 {
        proof {
            assert(replay.defects@ =~= Seq::<TreeDefect>::empty());
            lemma_clean_depth_is_bottom_up(
                tree,
                0,
                Move::spec_none(),
                true,
                spec_parse_fen(tree.root_fen@)->0,
                Seq::empty(),
                Seq::empty(),
            );
        }
        Ok(())
    } else {
        Err(replay.defects)
    }
}

} // verus!
