//! Static move ordering for atomic chess.

use vstd::prelude::*;

use crate::movegen::{self, spec_attackers_to, spec_board_contents, spec_is_capture, spec_mask, spec_piece_at, spec_side, spec_attacks_from, spec_bit, spec_chebyshev, spec_king_attacks, spec_pawn_attacks, spec_rook_attacks};
use crate::moves::{spec_from_sq, spec_promo_bits, spec_promotion_piece, spec_to_sq, spec_type_bits, Color, Move, PieceType};
use crate::position::Position;
use crate::search::params::{spec_piece_value, ScorerParams};

verus! {

/// The board facts the static scorer reads, captured once per node:
/// the piece on every square, the side to move, and a few bitboards.
pub struct BoardSnapshot {
    /// Piece on each square 0..63 (a1 = 0), with its colour.
    pub squares: Vec<Option<(Color, PieceType)>>,
    pub us: Color,
    pub occupied: u64,
    /// Pawns of both sides.
    pub pawns: u64,
    /// Pawns of the side to move.
    pub own_pawns: u64,
    /// Pieces of the opponent.
    pub them_pieces: u64,
    /// Commoners of the opponent.
    pub them_commoners: u64,
}

impl BoardSnapshot {
    pub open spec fn wf(self) -> bool {
        self.squares.len() == 64
    }
}

/// The board facts of `pos` that the scorer reads.
/// `snap` is the snapshot of a board with contents `c`: its squares, side
/// to move and piece masks.
pub open spec fn spec_snapshot_of(snap: BoardSnapshot, c: Seq<u64>) -> bool {
    let us = spec_side(c);
    &&& snap.squares@ == Seq::new(64, |s: int| spec_piece_at(c, s))
    &&& snap.us == us
    &&& snap.occupied == spec_mask(c, None, None)
    &&& snap.pawns == spec_mask(c, None, Some(PieceType::Pawn))
    &&& snap.own_pawns == spec_mask(c, Some(us), Some(PieceType::Pawn))
    &&& snap.them_pieces == spec_mask(c, Some(us.spec_flip()), None)
    &&& snap.them_commoners == spec_mask(c, Some(us.spec_flip()), Some(PieceType::Commoner))
}

pub fn board_snapshot(pos: &Position) -> (r: BoardSnapshot)
    ensures
        r.wf(),
        spec_snapshot_of(r, pos.contents()),
{
    let board = pos.board();
    let mut squares: Vec<Option<(Color, PieceType)>> = Vec::new();
    let mut sq: u16 = 0;
    while sq < 64
        invariant
            sq <= 64,
            squares.len() == sq,
            spec_board_contents(*board) == pos.contents(),
            forall|t: int| 0 <= t < sq ==> #[trigger] squares@[t] == spec_piece_at(pos.contents(), t),
        decreases 64 - sq,
    {
        squares.push(movegen::board_piece_on(board, sq));
        sq += 1;
    }
    let us = pos.side_to_move();
    let them = us.flip();
    proof {
        assert(squares@ =~= Seq::new(64, |s: int| spec_piece_at(pos.contents(), s)));
    }
    BoardSnapshot {
        squares,
        us,
        occupied: movegen::board_occupied(board),
        pawns: movegen::board_pieces_pt(board, PieceType::Pawn),
        own_pawns: movegen::board_pieces_color_pt(board, us, PieceType::Pawn),
        them_pieces: movegen::board_pieces_color(board, them),
        them_commoners: movegen::board_commoners(board, them),
    }
}

/// The distance of square `sq` to the nearest commoner among the squares
/// `from..64` of `commoners`; `i8::MAX` when there is none.
pub open spec fn spec_nearest_from(commoners: u64, sq: u16, from: int) -> int
    decreases 64 - from,
{
    if from >= 64 || from < 0 {
        i8::MAX as int
    } else {
        let rest = spec_nearest_from(commoners, sq, from + 1);
        if spec_bit(commoners, from as u16) && spec_chebyshev(sq, from as u16) < rest {
            spec_chebyshev(sq, from as u16)
        } else {
            rest
        }
    }
}

/// For each square, the distance to the nearest of `commoners`.
pub open spec fn spec_nearest(commoners: u64, sq: u16) -> int {
    spec_nearest_from(commoners, sq, 0)
}

proof fn lemma_nearest_bounds(commoners: u64, sq: u16, from: int)
    requires
        sq < 64,
    ensures
        0 <= spec_nearest_from(commoners, sq, from) <= i8::MAX,
    decreases 64 - from,
{
    if 0 <= from < 64 {
        lemma_nearest_bounds(commoners, sq, from + 1);
    }
}

/// Chebyshev distance between two squares.
proof fn lemma_nearest_bounds_all(commoners: u64)
    ensures
        forall|sq: int| 0 <= sq < 64 ==> 0 <= #[trigger] spec_nearest(commoners, sq as u16) <= i8::MAX,
{
    assert forall|sq: int| 0 <= sq < 64 implies 0 <= #[trigger] spec_nearest(commoners, sq as u16) <= i8::MAX by {
        lemma_nearest_bounds(commoners, sq as u16, 0);
    }
}

pub fn chebyshev(a: u16, b: u16) -> (r: i8)
    requires
        a < 64,
        b < 64,
    ensures
        r == spec_chebyshev(a, b),
{
    let (af, ar) = (a % 8, a / 8);
    let (bf, br) = (b % 8, b / 8);
    let df = if af >= bf { af - bf } else { bf - af };
    let dr = if ar >= br { ar - br } else { br - ar };
    let d = if df >= dr { df } else { dr };
    d as i8
}

/// The nearest-commoner distance of every square, for the commoners on
/// the squares of `commoners`.
pub fn nearest_map_from(commoners: u64) -> (r: Vec<i8>)
    ensures
        r.len() == 64,
        forall|sq: int| 0 <= sq < 64 ==> r@[sq] as int == spec_nearest(commoners, sq as u16),
{
    let mut map: Vec<i8> = Vec::new();
    let mut sq: u16 = 0;
    while sq < 64
        invariant
            sq <= 64,
            map.len() == sq,
            forall|t: int| 0 <= t < sq ==> map@[t] as int == spec_nearest(commoners, t as u16),
        decreases 64 - sq,
    {
        let mut best: i8 = i8::MAX;
        let mut c: u16 = 64;
        while c > 0
            invariant
                c <= 64,
                sq < 64,
                best as int == spec_nearest_from(commoners, sq, c as int),
            decreases c,
        {
            c = c - 1;
            if (commoners >> c) & 1 == 1 {
                let d = chebyshev(sq, c);
                if d < best {
                    best = d;
                }
            }
        }
        map.push(best);
        sq += 1;
    }
    map
}

/// The nearest-commoner distance map for the commoners of `them`.
pub fn nearest_commoner_map(pos: &Position, them: Color) -> (r: Vec<i8>)
    ensures
        r.len() == 64,
        forall|sq: int| 0 <= sq < 64 ==> r@[sq] as int == spec_nearest(
            spec_mask(pos.contents(), Some(them), Some(PieceType::Commoner)),
            sq as u16,
        ),
{
    nearest_map_from(movegen::board_commoners(pos.board(), them))
}

/// Lowest set bit of `x` at or above `from`, or 64.
pub open spec fn spec_first_bit_from(x: u64, from: int) -> int
    decreases 64 - from,
{
    if from >= 64 || from < 0 {
        64
    } else if spec_bit(x, from as u16) {
        from
    } else {
        spec_first_bit_from(x, from + 1)
    }
}

/// Number of set bits of `x` among squares `from..64`.
pub open spec fn spec_count_from(x: u64, from: int) -> int
    decreases 64 - from,
{
    if from >= 64 || from < 0 {
        0
    } else {
        (if spec_bit(x, from as u16) { 1int } else { 0int }) + spec_count_from(x, from + 1)
    }
}

/// Material destroyed by the blast of a capture on `to` among squares
/// `from_sq..64` of `blast` (the origin excluded): `(own, enemy)` values.
pub open spec fn spec_blast_from(
    p: ScorerParams,
    squares: Seq<Option<(Color, PieceType)>>,
    us: Color,
    blast: u64,
    origin: u16,
    s: int,
) -> (int, int)
    decreases 64 - s,
{
    if s >= 64 || s < 0 {
        (0, 0)
    } else {
        let rest = spec_blast_from(p, squares, us, blast, origin, s + 1);
        if spec_bit(blast, s as u16) && s != origin {
            match squares[s] {
                Some((c, pt)) => if c == us {
                    (rest.0 + spec_piece_value(p, pt), rest.1)
                } else {
                    (rest.0, rest.1 + spec_piece_value(p, pt))
                },
                None => rest,
            }
        } else {
            rest
        }
    }
}

/// The net material of an atomic capture: the victim and the enemy pieces
/// in the blast, minus the capturing piece and the own pieces in the blast.
/// Pawns next to the capture square survive the blast.
pub open spec fn spec_capture_net(p: ScorerParams, snap: BoardSnapshot, m: Move) -> int {
    let from = spec_from_sq(m@);
    let to = spec_to_sq(m@);
    let moving = match snap.squares@[from as int] {
        Some((_, pt)) => spec_piece_value(p, pt) as int,
        None => 0,
    };
    let victim = if spec_type_bits(m@) == 2 {
        spec_piece_value(p, PieceType::Pawn) as int
    } else {
        match snap.squares@[to as int] {
            Some((_, pt)) => spec_piece_value(p, pt) as int,
            None => 0,
        }
    };
    let blast = spec_king_attacks(to) & !snap.pawns;
    let (own, enemy) = spec_blast_from(p, snap.squares@, snap.us, blast, from, 0);
    (victim + enemy) - (moving + own)
}

/// `x * scale / 100`, rounding toward zero as integer division does.
pub open spec fn spec_scaled(x: int, scale: int) -> int {
    let prod = x * scale;
    if prod >= 0 { prod / 100 } else { -((-prod) / 100) }
}

/// A weight at an OR node, or scaled down at an AND node.
pub open spec fn spec_node_weight(x: i32, scale: i32, is_or_node: bool) -> int {
    if is_or_node { x as int } else { spec_scaled(x as int, scale as int) }
}

/// Bonus for a move that attacks an enemy commoner from its destination,
/// halved when the destination is attacked by the enemy.
pub open spec fn spec_threat_bonus(p: ScorerParams, snap: BoardSnapshot, m: Move, pt: PieceType, enemy_attackers: u64) -> int {
    let from = spec_from_sq(m@);
    let to = spec_to_sq(m@);
    let new_occupied = (snap.occupied & !(1u64 << from)) | (1u64 << to);
    if spec_attacks_from(pt, snap.us, to, new_occupied) & snap.them_commoners != 0 {
        let base: int = if spec_count_from(snap.them_commoners, 0) == 1 {
            p.score_threat_last as int
        } else {
            p.score_threat as int
        };
        if enemy_attackers & snap.them_pieces == 0 {
            base
        } else if base >= 0 {
            base / 2
        } else {
            -((-base) / 2)
        }
    } else {
        0
    }
}

/// Bonus for landing next to an enemy commoner.
pub open spec fn spec_kamikaze_bonus(p: ScorerParams, snap: BoardSnapshot, to: u16) -> int {
    if spec_king_attacks(to) & snap.them_commoners != 0 {
        if spec_count_from(snap.them_commoners, 0) == 1 {
            p.score_kamikaze_last as int
        } else {
            p.score_kamikaze as int
        }
    } else {
        0
    }
}

/// Some square of `attacks` among `from..64` within distance two of `c`.
pub open spec fn spec_near_from(attacks: u64, c: u16, from: int) -> bool
    decreases 64 - from,
{
    if from >= 64 || from < 0 {
        false
    } else {
        (spec_bit(attacks, from as u16) && spec_chebyshev(from as u16, c) <= 2) || spec_near_from(attacks, c, from + 1)
    }
}

/// Bonus for a pawn push toward the lone enemy commoner that attacks a
/// square near it.
pub open spec fn spec_pawn_storm_bonus(p: ScorerParams, snap: BoardSnapshot, m: Move, nearest: Seq<i8>, lone: u16, is_or_node: bool) -> int {
    let from = spec_from_sq(m@);
    let to = spec_to_sq(m@);
    let fd = nearest[from as int] as int;
    let td = nearest[to as int] as int;
    if td < fd && spec_near_from(spec_pawn_attacks(snap.us, to), lone, 0) {
        spec_node_weight(p.score_pawn_storm, p.and_pawn_storm_scale, is_or_node)
            + (fd - td) * spec_node_weight(p.score_pawn_storm_step, p.and_pawn_storm_scale, is_or_node)
    } else {
        0
    }
}

/// Bonus for a rook or queen lining up on the lone enemy commoner (or, on a
/// new file, on an enemy piece on its back rank, own pawns ignored), plus
/// the back-rank presence bonus.
pub open spec fn spec_heavy_bonus(p: ScorerParams, snap: BoardSnapshot, m: Move, nearest: Seq<i8>, lone: u16, is_or_node: bool) -> int {
    let from = spec_from_sq(m@);
    let to = spec_to_sq(m@);
    let fd = nearest[from as int] as int;
    let td = nearest[to as int] as int;
    let reduction: int = if fd - td >= 0 { fd - td } else { 0 };
    let open_file = spec_node_weight(p.score_rook_open_file, p.and_rook_attack_scale, is_or_node);
    let open_step = spec_node_weight(p.score_rook_open_file_step, p.and_rook_attack_scale, is_or_node);
    let back_rank_bonus = spec_node_weight(p.score_rook_back_rank, p.and_rook_attack_scale, is_or_node);
    let from_bb = 1u64 << from;
    let enemy_back_rank: u16 = if snap.us == Color::White { 7 } else { 0 };
    let line = if spec_bit(spec_rook_attacks(to, snap.occupied & !from_bb), lone) {
        open_file + reduction * open_step
    } else if to % 8 != from % 8 {
        let back_rank_mask: u64 = 0xFFu64 << (enemy_back_rank * 8);
        let file_mask: u64 = 0x0101_0101_0101_0101u64 << (to % 8);
        let semi_open = snap.occupied & !snap.own_pawns & !from_bb;
        if spec_rook_attacks(to, semi_open) & (snap.them_pieces & back_rank_mask & file_mask) != 0 {
            open_file + reduction * open_step
        } else {
            0
        }
    } else {
        0
    };
    let presence = if to / 8 == enemy_back_rank && spec_chebyshev(to, lone) <= 2 { back_rank_bonus } else { 0 };
    line + presence
}

/// How central the destination is: 3 minus the larger of the file
/// distance from the d-file and the rank offset from the fourth rank.
pub open spec fn spec_centrality(to: u16) -> int {
    let f = (to % 8) as int;
    let r = (to / 8) as int;
    let fdist = if f - 3 >= 0 { f - 3 } else { 3 - f };
    3 - (if fdist >= r - 3 { fdist } else { r - 3 })
}

/// The approach and centralisation bonuses of a quiet move.
pub open spec fn spec_approach_center_bonus(p: ScorerParams, m: Move, pt: PieceType, nearest: Seq<i8>, is_or_node: bool) -> int {
    let from = spec_from_sq(m@);
    let to = spec_to_sq(m@);
    let fd = nearest[from as int] as int;
    let td = nearest[to as int] as int;
    let approach = if fd < i8::MAX && td < i8::MAX && td < fd {
        spec_node_weight(p.score_approach, p.and_approach_scale, is_or_node)
            + (fd - td) * spec_node_weight(p.score_approach_step, p.and_approach_scale, is_or_node)
    } else {
        0
    };
    let c = spec_centrality(to);
    let center = if c > 0 {
        spec_node_weight(p.score_center, p.and_approach_scale, is_or_node) + c * spec_node_weight(
            p.score_center_step,
            p.and_approach_scale,
            is_or_node,
        ) + (if pt == PieceType::Rook || pt == PieceType::Queen {
            spec_node_weight(p.score_rook_center, p.and_approach_scale, is_or_node) * c
        } else {
            0
        })
    } else {
        0
    };
    approach + center
}

/// The static score of move `m`, before it is clamped to the `i32` range.
/// In order: no piece on the origin, 0; a capture whose blast removes the
/// opponent's last commoner; a quiet promotion; a capture, by its net
/// material; otherwise the sum of the threat, kamikaze, pawn-storm,
/// heavy-piece, approach and centralisation bonuses.
pub open spec fn spec_raw_score(
    p: ScorerParams,
    snap: BoardSnapshot,
    m: Move,
    is_capture: bool,
    enemy_attackers: u64,
    nearest: Seq<i8>,
    is_or_node: bool,
) -> int {
    let from = spec_from_sq(m@);
    let to = spec_to_sq(m@);
    match snap.squares@[from as int] {
        None => 0,
        Some((_, pt)) => {
            let lone_count = spec_count_from(snap.them_commoners, 0);
            if is_capture && lone_count == 1 && snap.them_commoners & (spec_king_attacks(to) | (1u64 << to)) != 0 {
                p.score_winning_capture as int
            } else if spec_type_bits(m@) == 1 && !is_capture {
                p.score_promotion + spec_piece_value(p, spec_promotion_piece(spec_promo_bits(m@)))
            } else if is_capture {
                p.score_capture + spec_capture_net(p, snap, m) * p.capture_net_scale
            } else {
                let lone = spec_first_bit_from(snap.them_commoners, 0);
                let has_lone = lone_count == 1 && lone < 64;
                spec_threat_bonus(p, snap, m, pt, enemy_attackers) + spec_kamikaze_bonus(p, snap, to) + (if pt
                    == PieceType::Pawn && has_lone {
                    spec_pawn_storm_bonus(p, snap, m, nearest, lone as u16, is_or_node)
                } else {
                    0
                }) + (if (pt == PieceType::Rook || pt == PieceType::Queen) && has_lone {
                    spec_heavy_bonus(p, snap, m, nearest, lone as u16, is_or_node)
                } else {
                    0
                }) + spec_approach_center_bonus(p, m, pt, nearest, is_or_node)
            }
        },
    }
}

/// `x` clamped to the `i32` range.
pub open spec fn spec_clamp_i32(x: int) -> i32 {
    if x > i32::MAX {
        i32::MAX
    } else if x < i32::MIN {
        i32::MIN
    } else {
        x as i32
    }
}

/// The static move scorer and its weights.
#[derive(Clone)]
pub struct StaticAtomicScorer {
    params: ScorerParams,
}

impl StaticAtomicScorer {
    pub closed spec fn spec_params(self) -> ScorerParams {
        self.params
    }

    /// A scorer with the compiled-in default weights.
    pub fn new() -> (r: StaticAtomicScorer)
        ensures
            r.spec_params() == ScorerParams::spec_default(),
    {
        StaticAtomicScorer { params: ScorerParams::default() }
    }

    /// A scorer with the given weights.
    pub fn from_params(params: ScorerParams) -> (r: StaticAtomicScorer)
        ensures
            r.spec_params() == params,
    {
        StaticAtomicScorer { params }
    }

    /// The scorer's weights.
    pub fn params(&self) -> (r: &ScorerParams)
        ensures
            *r == self.spec_params(),
    {
        &self.params
    }

    /// The static score of `m` in `pos` at an OR node (`is_or_node`) or an
    /// AND node, from the board facts and the per-move facts the move
    /// generator gives.
    pub fn score(&self, pos: &Position, m: Move, is_or_node: bool) -> (r: i32)
        ensures
            exists|snap: BoardSnapshot|
                spec_snapshot_of(snap, pos.contents()) && r == spec_static_score(self.spec_params(), pos.contents(), snap, m, is_or_node),
    {
        let snap = board_snapshot(pos);
        let nearest = nearest_map_from(snap.them_commoners);
        let (is_capture, enemy_attackers) = move_facts(pos, &snap, m);
        proof {
            lemma_nearest_bounds_all(snap.them_commoners);
            assert(nearest@ =~= Seq::new(64, |sq: int| spec_nearest(snap.them_commoners, sq as u16) as i8));
        }
        let r = self.score_with_map(&snap, m, is_capture, enemy_attackers, &nearest, is_or_node);
        proof {
            assert(spec_snapshot_of(snap, pos.contents()) && r == spec_static_score(self.spec_params(), pos.contents(), snap, m, is_or_node));
        }
        r
    }
}

/// A move-ordering score: moves with higher scores are tried first.
/// `is_or_node` selects the attacker's (OR) or the defender's (AND) profile;
/// a scorer may ignore it.
pub trait MoveScorer {
    fn score(&self, pos: &Position, m: Move, is_or_node: bool) -> i32;
}

impl MoveScorer for StaticAtomicScorer {
    fn score(&self, pos: &Position, m: Move, is_or_node: bool) -> (r: i32)
        ensures
            exists|snap: BoardSnapshot|
                spec_snapshot_of(snap, pos.contents()) && r == spec_static_score(self.spec_params(), pos.contents(), snap, m, is_or_node),
    {
        StaticAtomicScorer::score(self, pos, m, is_or_node)
    }
}

/// What [`move_facts`] returns for a board with contents `c` and occupancy
/// `occupied`.
pub open spec fn spec_move_facts(c: Seq<u64>, occupied: u64, m: Move) -> (bool, u64) {
    let from = spec_from_sq(m@);
    let to = spec_to_sq(m@);
    (spec_is_capture(c, m@), spec_attackers_to(c, to, (occupied & !(1u64 << from)) | (1u64 << to)))
}

/// The static score of `m` on a board with contents `c`, given its snapshot.
pub open spec fn spec_static_score(params: ScorerParams, c: Seq<u64>, snap: BoardSnapshot, m: Move, is_or_node: bool) -> i32 {
    let facts = spec_move_facts(c, snap.occupied, m);
    spec_clamp_i32(
        spec_raw_score(
            params,
            snap,
            m,
            facts.0,
            facts.1,
            Seq::new(64, |sq: int| spec_nearest(snap.them_commoners, sq as u16) as i8),
            is_or_node,
        ),
    ) as i32
}

/// Whether `m` captures, and the pieces attacking its destination once it
/// is played (origin vacated, destination occupied).
pub fn move_facts(pos: &Position, snap: &BoardSnapshot, m: Move) -> (r: (bool, u64))
    ensures
        r == spec_move_facts(pos.contents(), snap.occupied, m),
{
    let board = pos.board();
    let is_capture = movegen::board_is_capture(board, m);
    let from = m.from_sq();
    let to = m.to_sq();
    let new_occupied = (snap.occupied & !(1u64 << from)) | (1u64 << to);
    (is_capture, movegen::board_attackers_to(board, to, new_occupied))
}

/// Number of set bits of `x`.
fn count_bits(x: u64) -> (r: i128)
    ensures
        r == spec_count_from(x, 0),
        0 <= r <= 64,
{
    let mut count: i128 = 0;
    let mut c: u16 = 64;
    while c > 0
        invariant
            c <= 64,
            count == spec_count_from(x, c as int),
            0 <= count <= 64 - c,
        decreases c,
    {
        c = c - 1;
        if (x >> c) & 1 == 1 {
            count = count + 1;
        }
    }
    count
}

/// Lowest set bit of `x`, or 64.
fn first_bit(x: u64) -> (r: u16)
    ensures
        r == spec_first_bit_from(x, 0),
        r <= 64,
{
    let mut best: u16 = 64;
    let mut c: u16 = 64;
    while c > 0
        invariant
            c <= 64,
            best == spec_first_bit_from(x, c as int),
            best <= 64,
        decreases c,
    {
        c = c - 1;
        if (x >> c) & 1 == 1 {
            best = c;
        }
    }
    best
}

/// Whether some square of `attacks` is within distance two of `c`.
fn near_square(attacks: u64, c: u16) -> (r: bool)
    requires
        c < 64,
    ensures
        r == spec_near_from(attacks, c, 0),
{
    let mut found = false;
    let mut s: u16 = 64;
    while s > 0
        invariant
            s <= 64,
            c < 64,
            found == spec_near_from(attacks, c, s as int),
        decreases s,
    {
        s = s - 1;
        if (attacks >> s) & 1 == 1 && chebyshev(s, c) <= 2 {
            found = true;
        }
    }
    found
}

/// `x` at an OR node, `x * scale / 100` (toward zero) at an AND node.
fn node_weight(x: i32, scale: i32, is_or_node: bool) -> (r: i128)
    ensures
        r == spec_node_weight(x, scale, is_or_node),
        -0x8000_0000_0000_0000i128 < r < 0x8000_0000_0000_0000i128,
{
    if is_or_node {
        return x as i128;
    }
    let a = x as i128;
    let b = scale as i128;
    proof {
        assert(-0x4000_0000_0000_0000i128 <= a * b <= 0x4000_0000_0000_0000i128) by (nonlinear_arith)
            requires -0x8000_0000i128 <= a <= 0x7fff_ffffi128, -0x8000_0000i128 <= b <= 0x7fff_ffffi128;
    }
    let prod = a * b;
    if prod >= 0 {
        prod / 100
    } else {
        -((-prod) / 100)
    }
}

/// `d * w` for a small distance difference `d`.
fn times_distance(d: i128, w: i128) -> (r: i128)
    requires
        -256 <= d <= 256,
        -0x8000_0000_0000_0000i128 < w < 0x8000_0000_0000_0000i128,
    ensures
        r == d * w,
        -0x100_0000_0000_0000_0000i128 <= r <= 0x100_0000_0000_0000_0000i128,
{
    proof {
        assert(-0x100_0000_0000_0000_0000i128 <= d * w <= 0x100_0000_0000_0000_0000i128) by (nonlinear_arith)
            requires -256 <= d <= 256, -0x8000_0000_0000_0000i128 < w < 0x8000_0000_0000_0000i128;
    }
    d * w
}

proof fn lemma_blast_bounds(
    p: ScorerParams,
    squares: Seq<Option<(Color, PieceType)>>,
    us: Color,
    blast: u64,
    origin: u16,
    s: int,
)
    requires
        0 <= s <= 64,
    ensures
        -(64 - s) * 0x8000_0000int <= spec_blast_from(p, squares, us, blast, origin, s).0 <= (64 - s) * 0x8000_0000int,
        -(64 - s) * 0x8000_0000int <= spec_blast_from(p, squares, us, blast, origin, s).1 <= (64 - s) * 0x8000_0000int,
    decreases 64 - s,
{
    if s < 64 {
        lemma_blast_bounds(p, squares, us, blast, origin, s + 1);
    }
}

impl StaticAtomicScorer {
    /// The static score of `m` from the node's board facts `snap`, the
    /// per-move facts (`is_capture`, the attackers of the destination once
    /// the move is played) and the nearest-commoner map; clamped to `i32`.
    pub fn score_with_map(
        &self,
        snap: &BoardSnapshot,
        m: Move,
        is_capture: bool,
        enemy_attackers: u64,
        nearest: &Vec<i8>,
        is_or_node: bool,
    ) -> (r: i32)
        requires
            snap.wf(),
            nearest.len() == 64,
        ensures
            r == spec_clamp_i32(spec_raw_score(self.spec_params(), *snap, m, is_capture, enemy_attackers, nearest@, is_or_node)),
    {
        let raw = self.raw_score(snap, m, is_capture, enemy_attackers, nearest, is_or_node);
        if raw > i32::MAX as i128 {
            i32::MAX
        } else if raw < i32::MIN as i128 {
            i32::MIN
        } else {
            raw as i32
        }
    }

    fn capture_net(&self, snap: &BoardSnapshot, m: Move) -> (r: i128)
        requires
            snap.wf(),
        ensures
            r == spec_capture_net(self.params, *snap, m),
            -0x100_0000_0000i128 <= r <= 0x100_0000_0000i128,
    {
        let p = &self.params;
        let from = m.from_sq();
        let to = m.to_sq();
        let moving: i128 = match snap.squares[from as usize] {
            Some((_, pt)) => p.piece_value(pt) as i128,
            None => 0,
        };
        let victim: i128 = if m.is_en_passant() {
            p.piece_value(PieceType::Pawn) as i128
        } else {
            match snap.squares[to as usize] {
                Some((_, pt)) => p.piece_value(pt) as i128,
                None => 0,
            }
        };
        let blast = movegen::king_attacks(to) & !snap.pawns;
        let mut own: i128 = 0;
        let mut enemy: i128 = 0;
        let mut s: u16 = 64;
        proof {
            lemma_blast_bounds(*p, snap.squares@, snap.us, blast, from, 64);
        }
        while s > 0
            invariant
                s <= 64,
                snap.wf(),
                (own as int, enemy as int) == spec_blast_from(*p, snap.squares@, snap.us, blast, from, s as int),
                -(64 - s) * 0x8000_0000int <= own <= (64 - s) * 0x8000_0000int,
                -(64 - s) * 0x8000_0000int <= enemy <= (64 - s) * 0x8000_0000int,
            decreases s,
        {
            s = s - 1;
            proof {
                lemma_blast_bounds(*p, snap.squares@, snap.us, blast, from, s as int);
            }
            if (blast >> s) & 1 == 1 && s != from {
                match snap.squares[s as usize] {
                    Some((c, pt)) => {
                        if c == snap.us {
                            own = own + p.piece_value(pt) as i128;
                        } else {
                            enemy = enemy + p.piece_value(pt) as i128;
                        }
                    },
                    None => {},
                }
            }
        }
        (victim + enemy) - (moving + own)
    }

    fn threat_bonus(&self, snap: &BoardSnapshot, m: Move, pt: PieceType, enemy_attackers: u64, lone_count: i128) -> (r: i128)
        requires
            lone_count == spec_count_from(snap.them_commoners, 0),
        ensures
            r == spec_threat_bonus(self.params, *snap, m, pt, enemy_attackers),
            -0x8000_0000i128 <= r <= 0x8000_0000i128,
    {
        let p = &self.params;
        let from = m.from_sq();
        let to = m.to_sq();
        let new_occupied = (snap.occupied & !(1u64 << from)) | (1u64 << to);
        if movegen::attacks_from(pt, snap.us, to, new_occupied) & snap.them_commoners != 0 {
            let base: i128 = if lone_count == 1 { p.score_threat_last as i128 } else { p.score_threat as i128 };
            if enemy_attackers & snap.them_pieces == 0 {
                base
            } else if base >= 0 {
                base / 2
            } else {
                -((-base) / 2)
            }
        } else {
            0
        }
    }

    fn pawn_storm_bonus(&self, snap: &BoardSnapshot, m: Move, nearest: &Vec<i8>, lone: u16, is_or_node: bool) -> (r: i128)
        requires
            nearest.len() == 64,
            lone < 64,
        ensures
            r == spec_pawn_storm_bonus(self.params, *snap, m, nearest@, lone, is_or_node),
            -0x200_0000_0000_0000_0000i128 <= r <= 0x200_0000_0000_0000_0000i128,
    {
        let p = &self.params;
        let from = m.from_sq();
        let to = m.to_sq();
        let fd = nearest[from as usize] as i128;
        let td = nearest[to as usize] as i128;
        if td < fd && near_square(movegen::pawn_attacks(snap.us, to), lone) {
            let base = node_weight(p.score_pawn_storm, p.and_pawn_storm_scale, is_or_node);
            let step = node_weight(p.score_pawn_storm_step, p.and_pawn_storm_scale, is_or_node);
            base + times_distance(fd - td, step)
        } else {
            0
        }
    }

    fn heavy_bonus(&self, snap: &BoardSnapshot, m: Move, nearest: &Vec<i8>, lone: u16, is_or_node: bool) -> (r: i128)
        requires
            nearest.len() == 64,
            lone < 64,
        ensures
            r == spec_heavy_bonus(self.params, *snap, m, nearest@, lone, is_or_node),
            -0x300_0000_0000_0000_0000i128 <= r <= 0x300_0000_0000_0000_0000i128,
    {
        let p = &self.params;
        let from = m.from_sq();
        let to = m.to_sq();
        let fd = nearest[from as usize] as i128;
        let td = nearest[to as usize] as i128;
        let reduction: i128 = if fd - td >= 0 { fd - td } else { 0 };
        let open_file = node_weight(p.score_rook_open_file, p.and_rook_attack_scale, is_or_node);
        let open_step = node_weight(p.score_rook_open_file_step, p.and_rook_attack_scale, is_or_node);
        let back_rank_bonus = node_weight(p.score_rook_back_rank, p.and_rook_attack_scale, is_or_node);
        let from_bb = 1u64 << from;
        let enemy_back_rank: u16 = if snap.us == Color::White { 7 } else { 0 };
        let line: i128 = if (movegen::rook_attacks(to, snap.occupied & !from_bb) >> lone) & 1 == 1 {
            open_file + times_distance(reduction, open_step)
        } else if to % 8 != from % 8 {
            let back_rank_mask: u64 = 0xFFu64 << (enemy_back_rank * 8);
            let file_mask: u64 = 0x0101_0101_0101_0101u64 << (to % 8);
            let semi_open = snap.occupied & !snap.own_pawns & !from_bb;
            if movegen::rook_attacks(to, semi_open) & (snap.them_pieces & back_rank_mask & file_mask) != 0 {
                open_file + times_distance(reduction, open_step)
            } else {
                0
            }
        } else {
            0
        };
        let presence: i128 = if to / 8 == enemy_back_rank && chebyshev(to, lone) <= 2 { back_rank_bonus } else { 0 };
        line + presence
    }

    fn approach_center_bonus(&self, m: Move, pt: PieceType, nearest: &Vec<i8>, is_or_node: bool) -> (r: i128)
        requires
            nearest.len() == 64,
        ensures
            r == spec_approach_center_bonus(self.params, m, pt, nearest@, is_or_node),
            -0x400_0000_0000_0000_0000i128 <= r <= 0x400_0000_0000_0000_0000i128,
    {
        let p = &self.params;
        let from = m.from_sq();
        let to = m.to_sq();
        let fd = nearest[from as usize] as i128;
        let td = nearest[to as usize] as i128;
        let approach: i128 = if fd < 127 && td < 127 && td < fd {
            let base = node_weight(p.score_approach, p.and_approach_scale, is_or_node);
            let step = node_weight(p.score_approach_step, p.and_approach_scale, is_or_node);
            base + times_distance(fd - td, step)
        } else {
            0
        };
        let f = (to % 8) as i128;
        let r = (to / 8) as i128;
        let fdist = if f - 3 >= 0 { f - 3 } else { 3 - f };
        let c = 3 - (if fdist >= r - 3 { fdist } else { r - 3 });
        let center: i128 = if c > 0 {
            let base = node_weight(p.score_center, p.and_approach_scale, is_or_node);
            let step = node_weight(p.score_center_step, p.and_approach_scale, is_or_node);
            let rook_center = if pt == PieceType::Rook || pt == PieceType::Queen {
                let w = node_weight(p.score_rook_center, p.and_approach_scale, is_or_node);
                proof {
                    assert(w * c == c * w) by (nonlinear_arith);
                }
                times_distance(c, w)
            } else {
                0
            };
            base + times_distance(c, step) + rook_center
        } else {
            0
        };
        approach + center
    }

    fn raw_score(
        &self,
        snap: &BoardSnapshot,
        m: Move,
        is_capture: bool,
        enemy_attackers: u64,
        nearest: &Vec<i8>,
        is_or_node: bool,
    ) -> (r: i128)
        requires
            snap.wf(),
            nearest.len() == 64,
        ensures
            r == spec_raw_score(self.params, *snap, m, is_capture, enemy_attackers, nearest@, is_or_node),
    {
        let p = &self.params;
        let from = m.from_sq();
        let to = m.to_sq();
        let pt = match snap.squares[from as usize] {
            None => return 0,
            Some((_, pt)) => pt,
        };
        let lone_count = count_bits(snap.them_commoners);
        let king_to = movegen::king_attacks(to);
        if is_capture && lone_count == 1 && snap.them_commoners & (king_to | (1u64 << to)) != 0 {
            return p.score_winning_capture as i128;
        }
        if m.is_promotion() && !is_capture {
            return p.score_promotion as i128 + p.piece_value(m.promotion_type()) as i128;
        }
        if is_capture {
            let net = self.capture_net(snap, m);
            let scale = p.capture_net_scale as i128;
            proof {
                assert(-0x100_0000_0000_0000_0000i128 <= net * scale <= 0x100_0000_0000_0000_0000i128) by (nonlinear_arith)
                    requires -0x100_0000_0000i128 <= net <= 0x100_0000_0000i128, -0x8000_0000i128 <= scale <= 0x7fff_ffffi128;
            }
            return p.score_capture as i128 + net * scale;
        }
        let lone = first_bit(snap.them_commoners);
        let has_lone = lone_count == 1 && lone < 64;
        let mut score: i128 = self.threat_bonus(snap, m, pt, enemy_attackers, lone_count);
        let kamikaze: i128 = if king_to & snap.them_commoners != 0 {
            if lone_count == 1 { p.score_kamikaze_last as i128 } else { p.score_kamikaze as i128 }
        } else {
            0
        };
        score = score + kamikaze;
        let storm: i128 = if pt == PieceType::Pawn && has_lone {
            self.pawn_storm_bonus(snap, m, nearest, lone, is_or_node)
        } else {
            0
        };
        let heavy: i128 = if (pt == PieceType::Rook || pt == PieceType::Queen) && has_lone {
            self.heavy_bonus(snap, m, nearest, lone, is_or_node)
        } else {
            0
        };
        score = score + storm + heavy + self.approach_center_bonus(m, pt, nearest, is_or_node);
        score
    }
}

impl Default for StaticAtomicScorer {
    fn default() -> (r: StaticAtomicScorer)
        ensures
            r.spec_params() == ScorerParams::spec_default(),
    {
        StaticAtomicScorer::new()
    }
}

/// `b` lists the elements of `a` in another order: `b[i] == a[p[i]]` for a
/// one-to-one `p` onto the indices of `a`.
pub open spec fn spec_is_reordering<T>(a: Seq<T>, b: Seq<T>) -> bool {
    &&& a.len() == b.len()
    &&& exists|p: Seq<int>| spec_reorders(a, b, p)
}

pub open spec fn spec_reorders<T>(a: Seq<T>, b: Seq<T>, p: Seq<int>) -> bool {
    &&& p.len() == b.len()
    &&& forall|i: int| 0 <= i < p.len() ==> 0 <= #[trigger] p[i] < a.len() && b[i] == a[p[i]]
    &&& forall|i: int, j: int| 0 <= i < p.len() && 0 <= j < p.len() && i != j ==> p[i] != p[j]
}

/// Move-ordering rank: `x` comes before `y` when it scores higher, or
/// scores the same and came first.
pub open spec fn spec_ranks_before(x: (Move, i64, usize), y: (Move, i64, usize)) -> bool {
    x.1 > y.1 || (x.1 == y.1 && x.2 < y.2)
}

/// Some entry of `s` came from input index `t`.
pub open spec fn spec_has_index(s: Seq<(Move, i64, usize)>, t: int) -> bool {
    exists|i: int| 0 <= i < s.len() && (#[trigger] s[i]).2 == t
}

/// Sort scored moves by score, highest first, keeping the input order
/// among equal scores (`v[i].2` is the input index `i`).
pub fn sort_by_score(v: &mut Vec<(Move, i64, usize)>)
    requires
        forall|i: int| 0 <= i < old(v).len() ==> (#[trigger] old(v)@[i]).2 == i,
    ensures
        final(v).len() == old(v).len(),
        forall|i: int| 0 <= i < final(v).len() ==> 0 <= (#[trigger] final(v)@[i]).2 < old(v).len() && final(v)@[i] == old(v)@[final(v)@[i].2 as int],
        forall|i: int, j: int| 0 <= i < j < final(v).len() ==> spec_ranks_before(#[trigger] final(v)@[i], #[trigger] final(v)@[j]),
        forall|a: int, b: int|
            0 <= a < final(v).len() && 0 <= b < final(v).len() && a != b ==> (#[trigger] final(v)@[a]).2 != (#[trigger] final(v)@[b]).2,
        forall|t: int| 0 <= t < old(v).len() ==> #[trigger] spec_has_index(final(v)@, t),
{
    let n = v.len();
    proof {
        assert forall|t: int| 0 <= t < n implies #[trigger] spec_has_index(v@, t) by {
            assert(v@[t].2 == t);
        }
    }
    let mut i: usize = 1;
    while i < n
        invariant
            n == v.len(),
            n == old(v).len(),
            1 <= i || n == 0,
            i <= n || n == 0,
            forall|k: int| 0 <= k < n ==> 0 <= (#[trigger] v@[k]).2 < n && v@[k] == old(v)@[v@[k].2 as int],
            forall|a: int, b: int| 0 <= a < n && 0 <= b < n && a != b ==> (#[trigger] v@[a]).2 != (#[trigger] v@[b]).2,
            forall|a: int, b: int| 0 <= a < b < i && b < n ==> spec_ranks_before(#[trigger] v@[a], #[trigger] v@[b]),
            forall|k: int| 0 <= k < n ==> (#[trigger] old(v)@[k]).2 == k,
            forall|t: int| 0 <= t < n ==> #[trigger] spec_has_index(v@, t),
        decreases n - i,
    {
        let mut j = i;
        while j > 0 && ranks_before(&v[j], &v[j - 1])
            invariant
                n == v.len(),
                n == old(v).len(),
                0 <= j <= i < n,
                forall|k: int| 0 <= k < n ==> 0 <= (#[trigger] v@[k]).2 < n && v@[k] == old(v)@[v@[k].2 as int],
                forall|a: int, b: int| 0 <= a < n && 0 <= b < n && a != b ==> (#[trigger] v@[a]).2 != (#[trigger] v@[b]).2,
                forall|a: int, b: int| 0 <= a < b <= i && a != j && b != j ==> spec_ranks_before(#[trigger] v@[a], #[trigger] v@[b]),
                forall|b: int| j < b <= i ==> spec_ranks_before(v@[j as int], #[trigger] v@[b]),
                forall|k: int| 0 <= k < n ==> (#[trigger] old(v)@[k]).2 == k,
                forall|t: int| 0 <= t < n ==> #[trigger] spec_has_index(v@, t),
            decreases j,
        {
            let x = v[j];
            let y = v[j - 1];
            let ghost before = v@;
            v.set(j, y);
            v.set(j - 1, x);
            proof {
                assert forall|t: int| 0 <= t < n implies #[trigger] spec_has_index(v@, t) by {
                    assert(spec_has_index(before, t));
                    let u = choose|u: int| 0 <= u < before.len() && (#[trigger] before[u]).2 == t;
                    if u == j as int {
                        assert(v@[j - 1].2 == t);
                    } else if u == j - 1 {
                        assert(v@[j as int].2 == t);
                    } else {
                        assert(v@[u].2 == t);
                    }
                }
            }
            j = j - 1;
        }
        proof {
            assert forall|a: int, b: int| 0 <= a < b < i + 1 && b < n implies spec_ranks_before(#[trigger] v@[a], #[trigger] v@[b]) by {
                if a == j as int {
                } else if b == j as int {
                    if a < j && j > 0 {
                        assert(spec_ranks_before(v@[a], v@[j - 1]) || a == j - 1);
                    }
                }
            }
        }
        i += 1;
    }
}

fn ranks_before(x: &(Move, i64, usize), y: &(Move, i64, usize)) -> (r: bool)
    ensures
        r == spec_ranks_before(*x, *y),
{
    x.1 > y.1 || (x.1 == y.1 && x.2 < y.2)
}
} // verus!
