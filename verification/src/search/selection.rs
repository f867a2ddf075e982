//! DF-PN child bookkeeping: solved-child detection, proof/disproof number
//! aggregation, and the choice of the most-proving child.

use vstd::prelude::*;

use crate::moves::Move;
use crate::position::Outcome;
use crate::zobrist::INF;

verus! {

/// What the search knows about one child of the node being expanded.
#[derive(Clone, Copy, Debug)]
pub struct ChildInfo {
    pub mv: Move,
    pub pn: u64,
    pub dn: u64,
    /// Solved outcome, from the perspective of the side to move at the child.
    pub outcome: Option<Outcome>,
    pub depth: u32,
    /// The child's outcome was a draw by repetition of the current path.
    pub repetition_seen: bool,
    /// A work-bounded re-expansion made no progress on this child.
    pub explored: bool,
}

/// The parent's bounds and its best and second-best children.
#[derive(Clone, Copy, Debug)]
pub struct ChildSelection {
    pub best_child: (Move, u64, u64),
    pub second_child: (u64, u64),
    pub best_child_index: Option<usize>,
    pub pn: u64,
    pub dn: u64,
    pub depth: u32,
    pub best_move: Move,
    pub solved_outcome: Option<Outcome>,
    pub repetition_seen: bool,
}

/// The parent's depth through child `c`: one more ply, saturating.
pub open spec fn spec_d(c: ChildInfo) -> u32 {
    if c.depth == u32::MAX {
        u32::MAX
    } else {
        (c.depth + 1) as u32
    }
}

/// Whether child `c` competes for the parent result `o` derived from child
/// outcome `child_o`. A win (`shortest`) needs a finite depth.
pub open spec fn spec_cand(c: ChildInfo, child_o: Outcome, shortest: bool) -> bool {
    c.outcome == Some(child_o) && (shortest ==> spec_d(c) < u32::MAX)
}

pub open spec fn spec_has_cand(cs: Seq<ChildInfo>, n: int, child_o: Outcome, shortest: bool) -> bool {
    exists|j: int| 0 <= j < n && spec_cand(#[trigger] cs[j], child_o, shortest)
}

/// `idx` is the chosen child among the first `n`: the shortest (or longest)
/// candidate, preferring one not due to a repetition, and the first such.
pub open spec fn spec_is_pick(cs: Seq<ChildInfo>, n: int, child_o: Outcome, shortest: bool, idx: int) -> bool {
    &&& 0 <= idx < n
    &&& spec_cand(cs[idx], child_o, shortest)
    &&& forall|j: int|
        0 <= j < n && spec_cand(#[trigger] cs[j], child_o, shortest) ==> (if shortest {
            spec_d(cs[idx]) <= spec_d(cs[j])
        } else {
            spec_d(cs[idx]) >= spec_d(cs[j])
        })
    &&& forall|j: int|
        0 <= j < idx && spec_cand(#[trigger] cs[j], child_o, shortest) && spec_d(cs[j]) == spec_d(cs[idx]) ==> cs[j].repetition_seen
            && !cs[idx].repetition_seen
    &&& forall|j: int|
        0 <= j < n && spec_cand(#[trigger] cs[j], child_o, shortest) && spec_d(cs[j]) == spec_d(cs[idx]) && !cs[j].repetition_seen
            ==> !cs[idx].repetition_seen
}

pub open spec fn spec_all_solved(cs: Seq<ChildInfo>) -> bool {
    forall|j: int| 0 <= j < cs.len() ==> (#[trigger] cs[j]).outcome is Some
}

/// The children decide the parent (side-to-move perspective):
/// - a win through the shortest child that is a loss for its mover;
/// - otherwise, with every child solved, a draw through the longest draw
///   child, or else a loss through the longest child win.
pub open spec fn spec_solved_by_children(cs: Seq<ChildInfo>, r: Option<(Outcome, u32, Move, bool, usize)>) -> bool {
    let n = cs.len() as int;
    if spec_has_cand(cs, n, Outcome::Loss, true) {
        r matches Some(t) && t.0 == Outcome::Win && spec_is_pick(cs, n, Outcome::Loss, true, t.4 as int)
            && t.1 == spec_d(cs[t.4 as int]) && t.2 == cs[t.4 as int].mv && t.3 == spec_all_solved(cs)
    } else if !spec_all_solved(cs) {
        r is None
    } else if spec_has_cand(cs, n, Outcome::Draw, false) {
        r matches Some(t) && t.0 == Outcome::Draw && spec_is_pick(cs, n, Outcome::Draw, false, t.4 as int)
            && t.1 == spec_d(cs[t.4 as int]) && t.2 == cs[t.4 as int].mv && t.3
    } else if spec_has_cand(cs, n, Outcome::Win, false) {
        r matches Some(t) && t.0 == Outcome::Loss && spec_is_pick(cs, n, Outcome::Win, false, t.4 as int)
            && t.1 == spec_d(cs[t.4 as int]) && t.2 == cs[t.4 as int].mv && t.3
    } else {
        r matches Some(t) && t.0 == Outcome::Loss && t.4 == 0 && t.1 == 0 && t.2 == cs[0].mv && t.3
    }
}

/// Fold one child into a running pick.
fn consider(
    cs: &[ChildInfo],
    i: usize,
    child_o: Outcome,
    shortest: bool,
    cur: Option<usize>,
    cur_d: u32,
) -> (r: (Option<usize>, u32))
    requires
        i < cs.len(),
        cur is None ==> !spec_has_cand(cs@, i as int, child_o, shortest) && cur_d == (if shortest { u32::MAX } else { 0u32 }),
        cur matches Some(k) ==> spec_is_pick(cs@, i as int, child_o, shortest, k as int) && cur_d == spec_d(cs@[k as int]),
    ensures
        r.0 is None ==> !spec_has_cand(cs@, i + 1, child_o, shortest) && r.1 == (if shortest { u32::MAX } else { 0u32 }),
        r.0 matches Some(k) ==> spec_is_pick(cs@, i + 1, child_o, shortest, k as int) && r.1 == spec_d(cs@[k as int]),
{
    let c = &cs[i];
    let d = c.depth.saturating_add(1);
    if c.outcome != Some(child_o) {
        proof {
            assert forall|j: int| 0 <= j < i + 1 && spec_cand(#[trigger] cs@[j], child_o, shortest) implies j < i by {}
        }
        return (cur, cur_d);
    }
    let better = if shortest { d < cur_d } else { d > cur_d };
    let take = match cur {
        None => better,
        Some(k) => better || (d == cur_d && !c.repetition_seen && cs[k].repetition_seen),
    };
    if take {
        (Some(i), d)
    } else {
        proof {
            assert forall|j: int| 0 <= j < i + 1 && spec_cand(#[trigger] cs@[j], child_o, shortest) implies j < i || spec_cand(cs@[i as int], child_o, shortest) by {}
        }
        (cur, cur_d)
    }
}

/// Whether the children already determine the parent's outcome; see
/// [`spec_solved_by_children`]. The tuple is `(outcome, depth, move,
/// all_children_solved, child_index)`.
pub fn is_solved_by_children(children: &[ChildInfo], is_or_node: bool) -> (r: Option<(Outcome, u32, Move, bool, usize)>)
    requires
        children.len() > 0,
    ensures
        spec_solved_by_children(children@, r),
{
    let mut all_solved = true;
    let mut win: Option<usize> = None;
    let mut win_depth: u32 = u32::MAX;
    let mut loss: Option<usize> = None;
    let mut loss_depth: u32 = 0;
    let mut draw: Option<usize> = None;
    let mut draw_depth: u32 = 0;
    let mut i: usize = 0;
    while i < children.len()
        invariant
            i <= children.len(),
            all_solved == (forall|j: int| 0 <= j < i ==> (#[trigger] children@[j]).outcome is Some),
            win is None ==> !spec_has_cand(children@, i as int, Outcome::Loss, true) && win_depth == u32::MAX,
            win matches Some(k) ==> spec_is_pick(children@, i as int, Outcome::Loss, true, k as int) && win_depth == spec_d(children@[k as int]),
            draw is None ==> !spec_has_cand(children@, i as int, Outcome::Draw, false) && draw_depth == 0,
            draw matches Some(k) ==> spec_is_pick(children@, i as int, Outcome::Draw, false, k as int) && draw_depth == spec_d(children@[k as int]),
            loss is None ==> !spec_has_cand(children@, i as int, Outcome::Win, false) && loss_depth == 0,
            loss matches Some(k) ==> spec_is_pick(children@, i as int, Outcome::Win, false, k as int) && loss_depth == spec_d(children@[k as int]),
        decreases children.len() - i,
    {
        if children[i].outcome.is_none() {
            all_solved = false;
        }
        let (w, wd) = consider(children, i, Outcome::Loss, true, win, win_depth);
        let (dr, dd) = consider(children, i, Outcome::Draw, false, draw, draw_depth);
        let (l, ld) = consider(children, i, Outcome::Win, false, loss, loss_depth);
        win = w;
        win_depth = wd;
        draw = dr;
        draw_depth = dd;
        loss = l;
        loss_depth = ld;
        i += 1;
    }
    if let Some(idx) = win {
        return Some((Outcome::Win, win_depth, children[idx].mv, all_solved, idx));
    }
    if all_solved {
        if let Some(idx) = draw {
            return Some((Outcome::Draw, draw_depth, children[idx].mv, true, idx));
        }
        match loss {
            Some(idx) => {
                return Some((Outcome::Loss, loss_depth, children[idx].mv, true, idx));
            },
            None => {
                return Some((Outcome::Loss, loss_depth, children[0].mv, true, 0));
            },
        }
    }
    None
}

/// The selection of a solved parent: a win as soon as one child proves it;
/// a draw or loss only when every child is solved.
pub fn select_child_with_early_exit(
    children: &[ChildInfo],
    solved: Option<(Outcome, u32, Move, bool, usize)>,
) -> (r: Option<ChildSelection>)
    requires
        solved matches Some(t) ==> t.4 < children.len(),
    ensures
        r == (match solved {
            Some(t) => if t.0 == Outcome::Win || t.3 {
                Some(ChildSelection {
                    best_child: (Move::spec_none(), INF, INF),
                    second_child: (INF, INF),
                    best_child_index: None,
                    pn: 0,
                    dn: INF,
                    depth: t.1,
                    best_move: t.2,
                    solved_outcome: Some(t.0),
                    repetition_seen: t.0 == Outcome::Draw && children@[t.4 as int].repetition_seen,
                })
            } else {
                None
            },
            None => None,
        }),
{
    match solved {
        Some((outcome, depth, mv, all_solved, idx)) => {
            if outcome == Outcome::Win || all_solved {
                let repetition_seen = outcome == Outcome::Draw && children[idx].repetition_seen;
                Some(ChildSelection {
                    best_child: (Move::none(), INF, INF),
                    second_child: (INF, INF),
                    best_child_index: None,
                    pn: 0,
                    dn: INF,
                    depth,
                    best_move: mv,
                    solved_outcome: Some(outcome),
                    repetition_seen,
                })
            } else {
                None
            }
        },
        None => None,
    }
}

/// The comparison key of a child: its proof number at OR nodes, its
/// disproof number at AND nodes.
pub open spec fn spec_key(c: ChildInfo, is_or_node: bool) -> u64 {
    if is_or_node {
        c.pn
    } else {
        c.dn
    }
}

/// Unsolved and not marked explored.
pub open spec fn spec_open(c: ChildInfo) -> bool {
    c.outcome is None && !c.explored
}

/// `r` is the first open child (other than `exclude`) with the smallest key,
/// or `None` when there is none.
pub open spec fn spec_first_min(cs: Seq<ChildInfo>, is_or_node: bool, exclude: int, r: Option<usize>) -> bool {
    match r {
        Some(i) => {
            &&& 0 <= i < cs.len()
            &&& i != exclude
            &&& spec_open(cs[i as int])
            &&& forall|j: int|
                0 <= j < cs.len() && j != exclude && spec_open(#[trigger] cs[j]) ==> spec_key(cs[i as int], is_or_node) <= spec_key(cs[j], is_or_node)
            &&& forall|j: int|
                0 <= j < i && j != exclude && spec_open(#[trigger] cs[j]) ==> spec_key(cs[i as int], is_or_node) < spec_key(cs[j], is_or_node)
        },
        None => forall|j: int| 0 <= j < cs.len() && j != exclude ==> !spec_open(#[trigger] cs[j]),
    }
}

/// The best open child and the best open child other than it.
pub fn best_and_second_unsolved(children: &[ChildInfo], is_or_node: bool) -> (r: (Option<usize>, Option<usize>))
    ensures
        spec_first_min(children@, is_or_node, -1, r.0),
        r.0 is None ==> r.1 is None,
        r.0 matches Some(b) ==> spec_first_min(children@, is_or_node, b as int, r.1),
{
    let mut best: Option<usize> = None;
    let mut second: Option<usize> = None;
    let mut i: usize = 0;
    while i < children.len()
        invariant
            i <= children.len(),
            spec_first_min(children@.take(i as int), is_or_node, -1, best),
            best is None ==> second is None,
            best matches Some(b) ==> spec_first_min(children@.take(i as int), is_or_node, b as int, second),
        decreases children.len() - i,
    {
        let ghost pre = children@.take(i as int);
        let ghost post = children@.take(i + 1);
        proof {
            assert(post.drop_last() =~= pre);
            assert forall|j: int| 0 <= j < i implies post[j] == pre[j] by {}
        }
        let c = &children[i];
        if c.outcome.is_none() && !c.explored {
            let key = if is_or_node { c.pn } else { c.dn };
            match best {
                None => {
                    best = Some(i);
                },
                Some(b) => {
                    let kb = if is_or_node { children[b].pn } else { children[b].dn };
                    if key < kb {
                        second = best;
                        best = Some(i);
                    } else {
                        match second {
                            None => {
                                second = Some(i);
                            },
                            Some(s) => {
                                let ks = if is_or_node { children[s].pn } else { children[s].dn };
                                if key < ks {
                                    second = Some(i);
                                }
                            },
                        }
                    }
                },
            }
        }
        i += 1;
    }
    proof {
        assert(children@.take(children.len() as int) =~= children@);
    }
    (best, second)
}

/// The best open child other than `exclude`.
pub fn second_best_unsolved_excluding(children: &[ChildInfo], is_or_node: bool, exclude: usize) -> (r: Option<usize>)
    ensures
        spec_first_min(children@, is_or_node, exclude as int, r),
{
    let mut best: Option<usize> = None;
    let mut i: usize = 0;
    while i < children.len()
        invariant
            i <= children.len(),
            spec_first_min(children@.take(i as int), is_or_node, exclude as int, best),
        decreases children.len() - i,
    {
        let ghost pre = children@.take(i as int);
        let ghost post = children@.take(i + 1);
        proof {
            assert(post.drop_last() =~= pre);
            assert forall|j: int| 0 <= j < i implies post[j] == pre[j] by {}
        }
        let c = &children[i];
        if i != exclude && c.outcome.is_none() && !c.explored {
            let key = if is_or_node { c.pn } else { c.dn };
            match best {
                None => {
                    best = Some(i);
                },
                Some(b) => {
                    let kb = if is_or_node { children[b].pn } else { children[b].dn };
                    if key < kb {
                        best = Some(i);
                    }
                },
            }
        }
        i += 1;
    }
    proof {
        assert(children@.take(children.len() as int) =~= children@);
    }
    best
}

/// Sum of a bound over children.
pub open spec fn spec_sum(cs: Seq<ChildInfo>, use_pn: bool) -> int
    decreases cs.len(),
{
    if cs.len() == 0 {
        0
    } else {
        spec_sum(cs.drop_last(), use_pn) + (if use_pn { cs.last().pn as int } else { cs.last().dn as int })
    }
}

/// Minimum of a bound over children, starting from `INF`.
pub open spec fn spec_min(cs: Seq<ChildInfo>, use_pn: bool) -> u64
    decreases cs.len(),
{
    if cs.len() == 0 {
        INF
    } else {
        let m = spec_min(cs.drop_last(), use_pn);
        let v = if use_pn { cs.last().pn } else { cs.last().dn };
        if v < m {
            v
        } else {
            m
        }
    }
}

pub open spec fn spec_cap(x: int) -> u64 {
    if x < INF {
        x as u64
    } else {
        INF
    }
}

/// The parent's bounds: at an OR node the smallest child proof number and
/// the (capped) sum of disproof numbers; at an AND node the capped sum of
/// proof numbers and the smallest disproof number.
pub open spec fn spec_parent_bounds(cs: Seq<ChildInfo>, is_or_node: bool) -> (u64, u64) {
    if is_or_node {
        (spec_min(cs, true), spec_cap(spec_sum(cs, false)))
    } else {
        (spec_cap(spec_sum(cs, true)), spec_min(cs, false))
    }
}

proof fn lemma_sum_nonneg(cs: Seq<ChildInfo>, use_pn: bool)
    ensures
        spec_sum(cs, use_pn) >= 0,
    decreases cs.len(),
{
    if cs.len() > 0 {
        lemma_sum_nonneg(cs.drop_last(), use_pn);
    }
}

/// Aggregate the parent's proof and disproof numbers.
pub fn parent_bounds(children: &[ChildInfo], is_or_node: bool) -> (r: (u64, u64))
    ensures
        r == spec_parent_bounds(children@, is_or_node),
{
    let mut pn: u64 = if is_or_node { INF } else { 0 };
    let mut dn: u64 = if is_or_node { 0 } else { INF };
    let mut i: usize = 0;
    while i < children.len()
        invariant
            i <= children.len(),
            is_or_node ==> pn == spec_min(children@.take(i as int), true) && dn == spec_cap(spec_sum(children@.take(i as int), false)),
            !is_or_node ==> pn == spec_cap(spec_sum(children@.take(i as int), true)) && dn == spec_min(children@.take(i as int), false),
        decreases children.len() - i,
    {
        let ghost pre = children@.take(i as int);
        let ghost post = children@.take(i + 1);
        proof {
            assert(post.drop_last() =~= pre);
            lemma_sum_nonneg(pre, true);
            lemma_sum_nonneg(pre, false);
        }
        let c = &children[i];
        if is_or_node {
            pn = if c.pn < pn { c.pn } else { pn };
            let s = dn.saturating_add(c.dn);
            dn = if s < INF { s } else { INF };
        } else {
            let s = pn.saturating_add(c.pn);
            pn = if s < INF { s } else { INF };
            dn = if c.dn < dn { c.dn } else { dn };
        }
        i += 1;
    }
    proof {
        assert(children@.take(children.len() as int) =~= children@);
    }
    (pn, dn)
}

/// The selection that keeps child `idx` as the best one.
pub fn selection_for_child(children: &[ChildInfo], is_or_node: bool, idx: usize) -> (r: ChildSelection)
    requires
        idx < children.len(),
    ensures
        (r.pn, r.dn) == spec_parent_bounds(children@, is_or_node),
        r.best_child == (children@[idx as int].mv, children@[idx as int].pn, children@[idx as int].dn),
        r.best_child_index == Some(idx),
        r.best_move == children@[idx as int].mv,
        r.depth == 0,
        r.solved_outcome is None,
        !r.repetition_seen,
        exists|s: Option<usize>| spec_first_min(children@, is_or_node, idx as int, s) && r.second_child == spec_second_of(children@, s),
{
    let (pn, dn) = parent_bounds(children, is_or_node);
    let second_idx = second_best_unsolved_excluding(children, is_or_node, idx);
    let best = &children[idx];
    let second_child = match second_idx {
        Some(j) => (children[j].pn, children[j].dn),
        None => (INF, INF),
    };
    assert(spec_first_min(children@, is_or_node, idx as int, second_idx) && second_child == spec_second_of(children@, second_idx));
    ChildSelection {
        best_child: (best.mv, best.pn, best.dn),
        second_child,
        best_child_index: Some(idx),
        pn,
        dn,
        depth: 0,
        best_move: best.mv,
        solved_outcome: None,
        repetition_seen: false,
    }
}

/// The solved selection for a decided parent `t`.
pub open spec fn spec_early_selection(cs: Seq<ChildInfo>, t: (Outcome, u32, Move, bool, usize)) -> ChildSelection {
    ChildSelection {
        best_child: (Move::spec_none(), INF, INF),
        second_child: (INF, INF),
        best_child_index: None,
        pn: 0,
        dn: INF,
        depth: t.1,
        best_move: t.2,
        solved_outcome: Some(t.0),
        repetition_seen: t.0 == Outcome::Draw && cs[t.4 as int].repetition_seen,
    }
}

/// The child the transposition table remembered as best: the stored index
/// when it still holds the stored move, else the first child with that move.
pub open spec fn spec_hint_index(cs: Seq<ChildInfo>, prev_move: Option<Move>, prev_child: Option<u8>) -> Option<int> {
    match prev_move {
        Some(m) => {
            if prev_child is Some && (prev_child->0 as int) < cs.len() && cs[prev_child->0 as int].mv == m {
                Some(prev_child->0 as int)
            } else if exists|j: int| 0 <= j < cs.len() && (#[trigger] cs[j]).mv == m {
                Some(choose|j: int| 0 <= j < cs.len() && (#[trigger] cs[j]).mv == m && forall|k: int| 0 <= k < j ==> (#[trigger] cs[k]).mv != m)
            } else {
                None
            }
        },
        None => None,
    }
}

/// The remembered child is still open and still has the smallest key among
/// unsolved children.
pub open spec fn spec_hint_still_best(cs: Seq<ChildInfo>, is_or_node: bool, i: int) -> bool {
    &&& spec_open(cs[i])
    &&& forall|j: int| 0 <= j < cs.len() && (#[trigger] cs[j]).outcome is None ==> spec_key(cs[j], is_or_node) >= spec_key(cs[i], is_or_node)
}

pub open spec fn spec_second_of(cs: Seq<ChildInfo>, s: Option<usize>) -> (u64, u64) {
    match s {
        Some(j) => (cs[j as int].pn, cs[j as int].dn),
        None => (INF, INF),
    }
}

/// The selection of an undecided parent: its aggregated bounds, the best
/// open child (the remembered one when it is still best), and the runner-up.
pub open spec fn spec_open_selection(
    cs: Seq<ChildInfo>,
    is_or_node: bool,
    prev_move: Option<Move>,
    prev_child: Option<u8>,
    r: ChildSelection,
) -> bool {
    &&& (r.pn, r.dn) == spec_parent_bounds(cs, is_or_node)
    &&& r.depth == 0
    &&& r.solved_outcome is None
    &&& !r.repetition_seen
    &&& if spec_hint_index(cs, prev_move, prev_child) is Some && spec_hint_still_best(cs, is_or_node, spec_hint_index(cs, prev_move, prev_child)->0) {
            let i = spec_hint_index(cs, prev_move, prev_child)->0;
            &&& r.best_child_index == Some(i as usize)
            &&& r.best_child == (cs[i].mv, cs[i].pn, cs[i].dn)
            &&& r.best_move == cs[i].mv
            &&& exists|s: Option<usize>| spec_first_min(cs, is_or_node, i, s) && r.second_child == spec_second_of(cs, s)
        } else {
            &&& spec_first_min(cs, is_or_node, -1, r.best_child_index)
            &&& match r.best_child_index {
                Some(b) => {
                    &&& r.best_child == (cs[b as int].mv, cs[b as int].pn, cs[b as int].dn)
                    &&& r.best_move == cs[b as int].mv
                    &&& exists|s: Option<usize>| spec_first_min(cs, is_or_node, b as int, s) && r.second_child == spec_second_of(cs, s)
                },
                None => {
                    &&& r.best_child == (Move::spec_none(), INF, INF)
                    &&& r.best_move == Move::spec_none()
                    &&& r.second_child == (INF, INF)
                },
            }
        }
}

/// At most one child is the pick.
pub proof fn lemma_pick_unique(cs: Seq<ChildInfo>, n: int, child_o: Outcome, shortest: bool, a: int, b: int)
    requires
        spec_is_pick(cs, n, child_o, shortest, a),
        spec_is_pick(cs, n, child_o, shortest, b),
    ensures
        a == b,
{
    if a < b {
        assert(spec_cand(cs[a], child_o, shortest));
        assert(spec_cand(cs[b], child_o, shortest));
    } else if b < a {
        assert(spec_cand(cs[a], child_o, shortest));
        assert(spec_cand(cs[b], child_o, shortest));
    }
}

/// The children determine at most one decided result.
pub proof fn lemma_solved_unique(cs: Seq<ChildInfo>, t1: (Outcome, u32, Move, bool, usize), t2: (Outcome, u32, Move, bool, usize))
    requires
        spec_solved_by_children(cs, Some(t1)),
        spec_solved_by_children(cs, Some(t2)),
    ensures
        t1 == t2,
{
    let n = cs.len() as int;
    if spec_has_cand(cs, n, Outcome::Loss, true) {
        lemma_pick_unique(cs, n, Outcome::Loss, true, t1.4 as int, t2.4 as int);
    } else if spec_has_cand(cs, n, Outcome::Draw, false) {
        lemma_pick_unique(cs, n, Outcome::Draw, false, t1.4 as int, t2.4 as int);
    } else if spec_has_cand(cs, n, Outcome::Win, false) {
        lemma_pick_unique(cs, n, Outcome::Win, false, t1.4 as int, t2.4 as int);
    }
}

fn hint_index(children: &[ChildInfo], previous_best_move: Option<Move>, previous_best_child: Option<u8>) -> (r: Option<usize>)
    ensures
        r matches Some(i) ==> i < children.len(),
        spec_hint_index(children@, previous_best_move, previous_best_child) is Some ==> 0 <= spec_hint_index(children@, previous_best_move, previous_best_child)->0 < children.len(),
        r == (match spec_hint_index(children@, previous_best_move, previous_best_child) {
            Some(i) => Some(i as usize),
            None => None,
        }),
{
    let prev_mv = match previous_best_move {
        Some(m) => m,
        None => {
            return None;
        },
    };
    let mut idx: Option<usize> = None;
    if let Some(c) = previous_best_child {
        if (c as usize) < children.len() && children[c as usize].mv == prev_mv {
            idx = Some(c as usize);
        }
    }
    if idx.is_some() {
        return idx;
    }
    let mut j: usize = 0;
    while j < children.len()
        invariant
            j <= children.len(),
            idx is None ==> forall|k: int| 0 <= k < j ==> (#[trigger] children@[k]).mv != prev_mv,
            idx matches Some(f) ==> f < children.len() && children@[f as int].mv == prev_mv
                && forall|k: int| 0 <= k < f ==> (#[trigger] children@[k]).mv != prev_mv,
        decreases children.len() - j,
    {
        if idx.is_none() && children[j].mv == prev_mv {
            idx = Some(j);
        }
        j += 1;
    }
    proof {
        match idx {
            Some(f) => {
                assert(children@[f as int].mv == prev_mv);
                let w = choose|j: int| 0 <= j < children.len() && (#[trigger] children@[j]).mv == prev_mv
                    && forall|k: int| 0 <= k < j ==> (#[trigger] children@[k]).mv != prev_mv;
                assert(w == f as int) by {
                    if w < f {
                        assert(children@[w].mv == prev_mv);
                    } else if f < w {
                        assert(children@[f as int].mv == prev_mv);
                    }
                }
            },
            None => {},
        }
    }
    idx
}

fn hint_still_best(children: &[ChildInfo], is_or_node: bool, i: usize) -> (r: bool)
    requires
        i < children.len(),
    ensures
        r == spec_hint_still_best(children@, is_or_node, i as int),
{
    if children[i].outcome.is_some() || children[i].explored {
        return false;
    }
    let key_i = if is_or_node { children[i].pn } else { children[i].dn };
    let mut still_best = true;
    let mut j: usize = 0;
    while j < children.len()
        invariant
            j <= children.len(),
            key_i == spec_key(children@[i as int], is_or_node),
            still_best == (forall|k: int| 0 <= k < j && (#[trigger] children@[k]).outcome is None
                ==> spec_key(children@[k], is_or_node) >= key_i),
        decreases children.len() - j,
    {
        let c = &children[j];
        if c.outcome.is_none() {
            let k = if is_or_node { c.pn } else { c.dn };
            if k < key_i {
                still_best = false;
            }
        }
        j += 1;
    }
    still_best
}

/// Compute the parent's bounds and pick its best and second-best children;
/// `previous_best_move`/`previous_best_child` are hints from the
/// transposition table, kept while the remembered child is still best.
pub fn select_from_children(
    children: &[ChildInfo],
    is_or_node: bool,
    previous_best_move: Option<Move>,
    previous_best_child: Option<u8>,
) -> (r: ChildSelection)
    requires
        children.len() > 0,
    ensures
        forall|t: (Outcome, u32, Move, bool, usize)|
            spec_solved_by_children(children@, Some(t)) ==> r == spec_early_selection(children@, t),
        spec_solved_by_children(children@, None) ==> spec_open_selection(children@, is_or_node, previous_best_move, previous_best_child, r),
{
    let solved = is_solved_by_children(children, is_or_node);
    proof {
        assert forall|t: (Outcome, u32, Move, bool, usize)| spec_solved_by_children(children@, Some(t)) implies solved == Some(t) by {
            if solved is Some {
                lemma_solved_unique(children@, t, solved->0);
            }
        }
    }
    if let Some(selection) = select_child_with_early_exit(children, solved) {
        return selection;
    }
    // Here the children decide nothing.
    if let Some(i) = hint_index(children, previous_best_move, previous_best_child) {
        if hint_still_best(children, is_or_node, i) {
            let sel = selection_for_child(children, is_or_node, i);
            proof {
                let s2 = choose|s: Option<usize>| spec_first_min(children@, is_or_node, i as int, s) && sel.second_child == spec_second_of(children@, s);
                assert(spec_first_min(children@, is_or_node, i as int, s2) && sel.second_child == spec_second_of(children@, s2));
            }
            return sel;
        }
    }
    let (pn, dn) = parent_bounds(children, is_or_node);
    let (best_idx, second_idx) = best_and_second_unsolved(children, is_or_node);
    let best_child = match best_idx {
        Some(b) => (children[b].mv, children[b].pn, children[b].dn),
        None => (Move::none(), INF, INF),
    };
    let second_child = match second_idx {
        Some(s) => (children[s].pn, children[s].dn),
        None => (INF, INF),
    };
    let best_move = match best_idx {
        Some(b) => children[b].mv,
        None => Move::none(),
    };
    proof {
        if let Some(b) = best_idx {
            assert(spec_first_min(children@, is_or_node, b as int, second_idx));
            assert(second_child == spec_second_of(children@, second_idx));
        }
    }
    let r = ChildSelection {
        best_child,
        second_child,
        best_child_index: best_idx,
        pn,
        dn,
        depth: 0,
        best_move,
        solved_outcome: None,
        repetition_seen: false,
    };
    proof {
        let cs = children@;
        assert((r.pn, r.dn) == spec_parent_bounds(cs, is_or_node));
        assert(spec_first_min(cs, is_or_node, -1, r.best_child_index));
        let h = spec_hint_index(cs, previous_best_move, previous_best_child);
        assert(!(h is Some && spec_hint_still_best(cs, is_or_node, h->0)));
    }
    r
}

} // verus!
