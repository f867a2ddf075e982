//! Feature extraction for the move-ordering network.
//!
//! Index layout shared with the trainer:
//!
//! - square index: `sq = file + 8 * rank` (`a1 = 0`, `h8 = 63`);
//! - piece index: `p = 6 * view_color + type`, view colour 0 = the view's
//!   own side, `type` 0..5 = pawn..commoner;
//! - feature index: `f = 64 * p + sq`, in `[0, 768)`.
//!
//! Every position is encoded twice, relative to the side to move. The
//! side-to-move view is the board as it is; the other view swaps the colours
//! relative to the side to move and mirrors the file (`file -> 7 - file`).

use vstd::prelude::*;

use crate::movegen;
use crate::moves::{spec_from_sq, spec_to_sq, Color, Move, PieceType};

verus! {

/// Feature count: 6 piece types, 2 colours, 64 squares.
pub const INPUT_DIM: usize = 768;

/// Accumulator width.
pub const ACCUMULATOR_DIM: usize = 128;

/// Hidden-layer width.
pub const HIDDEN_DIM: usize = 32;

/// Output size: `from_sq * 64 + to_sq`.
pub const POLICY_SIZE: usize = 4096;

/// A board holds at most one piece per square.
pub const MAX_PIECES: usize = 64;

/// The piece-type index: pawn 0 .. commoner 5.
pub open spec fn spec_type_index(pt: PieceType) -> int {
    match pt {
        PieceType::Pawn => 0,
        PieceType::Knight => 1,
        PieceType::Bishop => 2,
        PieceType::Rook => 3,
        PieceType::Queen => 4,
        PieceType::Commoner => 5,
    }
}

fn type_index(pt: PieceType) -> (r: usize)
    ensures
        r == spec_type_index(pt),
{
    match pt {
        PieceType::Pawn => 0,
        PieceType::Knight => 1,
        PieceType::Bishop => 2,
        PieceType::Rook => 3,
        PieceType::Queen => 4,
        PieceType::Commoner => 5,
    }
}

pub open spec fn spec_feature_index(view_color: int, pt: PieceType, file: int, rank: int) -> int {
    64 * (6 * view_color + spec_type_index(pt)) + file + 8 * rank
}

/// The feature index of one piece in one view: `view_color` is 0 for the
/// view's own side and 1 for the other; `file` and `rank` are as the view
/// sees them.
pub fn feature_index(view_color: usize, piece_type: PieceType, file: u8, rank: u8) -> (r: usize)
    requires
        64 * (6 * view_color + 5) + 255 + 8 * 255 <= usize::MAX,
    ensures
        r == spec_feature_index(view_color as int, piece_type, file as int, rank as int),
{
    let p = 6 * view_color + type_index(piece_type);
    64 * p + (file as usize) + 8 * (rank as usize)
}

/// A piece on the board: its square (0 = a1 .. 63 = h8), colour and type.
pub type Placed = (u16, Color, PieceType);

/// The feature of a piece in the side-to-move view: the board as it is.
pub open spec fn spec_stm_feature(stm: Color, p: Placed) -> int {
    spec_feature_index(if p.1 == stm { 0 } else { 1 }, p.2, (p.0 % 8) as int, (p.0 / 8) as int)
}

/// The feature of a piece in the other view: colours swapped relative to
/// the side to move, file mirrored.
pub open spec fn spec_other_feature(stm: Color, p: Placed) -> int {
    spec_feature_index(if p.1 == stm.spec_flip() { 0 } else { 1 }, p.2, 7 - p.0 % 8, (p.0 / 8) as int)
}

/// The two perspectives of one position: active feature indices.
#[derive(Debug, Clone)]
pub struct FeatureSets {
    /// Side-to-move view.
    pub stm: Vec<u16>,
    /// Other-side view (colour swap and file mirror).
    pub other: Vec<u16>,
}

impl FeatureSets {
    /// Active features of the side-to-move view.
    pub fn stm_features(&self) -> (r: &[u16])
        ensures
            r@ == self.stm@,
    {
        self.stm.as_slice()
    }

    /// Active features of the other-side view.
    pub fn other_features(&self) -> (r: &[u16])
        ensures
            r@ == self.other@,
    {
        self.other.as_slice()
    }
}

/// `f` holds, in order, the two features of each piece of `ps` with `stm`
/// to move.
pub open spec fn spec_features_of(stm: Color, ps: Seq<Placed>, f: FeatureSets) -> bool {
    &&& f.stm@.len() == ps.len()
    &&& f.other@.len() == ps.len()
    &&& forall|i: int| 0 <= i < ps.len() ==> f.stm@[i] == spec_stm_feature(stm, #[trigger] ps[i])
    &&& forall|i: int| 0 <= i < ps.len() ==> f.other@[i] == spec_other_feature(stm, #[trigger] ps[i])
}

/// Both views of the pieces `pieces`, with `stm` to move.
pub fn feature_sets_of(stm: Color, pieces: &Vec<Placed>) -> (r: FeatureSets)
    requires
        forall|i: int| 0 <= i < pieces.len() ==> (#[trigger] pieces@[i]).0 < 64,
    ensures
        spec_features_of(stm, pieces@, r),
        forall|i: int| 0 <= i < r.stm@.len() ==> (#[trigger] r.stm@[i]) < INPUT_DIM,
        forall|i: int| 0 <= i < r.other@.len() ==> (#[trigger] r.other@[i]) < INPUT_DIM,
{
    let other_side = stm.flip();
    let mut stm_v: Vec<u16> = Vec::new();
    let mut other_v: Vec<u16> = Vec::new();
    let mut i: usize = 0;
    while i < pieces.len()
        invariant
            i <= pieces.len(),
            other_side == stm.spec_flip(),
            forall|k: int| 0 <= k < pieces.len() ==> (#[trigger] pieces@[k]).0 < 64,
            stm_v@.len() == i,
            other_v@.len() == i,
            forall|k: int| 0 <= k < i ==> stm_v@[k] == spec_stm_feature(stm, #[trigger] pieces@[k]),
            forall|k: int| 0 <= k < i ==> other_v@[k] == spec_other_feature(stm, #[trigger] pieces@[k]),
            forall|k: int| 0 <= k < i ==> (#[trigger] stm_v@[k]) < INPUT_DIM,
            forall|k: int| 0 <= k < i ==> (#[trigger] other_v@[k]) < INPUT_DIM,
        decreases pieces.len() - i,
    {
        let (sq, color, pt) = pieces[i];
        let file = (sq % 8) as u8;
        let rank = (sq / 8) as u8;
        let own: usize = if color == stm { 0 } else { 1 };
        let theirs: usize = if color == other_side { 0 } else { 1 };
        let a = feature_index(own, pt, file, rank);
        let b = feature_index(theirs, pt, 7 - file, rank);
        stm_v.push(a as u16);
        other_v.push(b as u16);
        i += 1;
    }
    FeatureSets { stm: stm_v, other: other_v }
}

/// The pieces on squares `0..n` of the contents `c`, in square order.
pub open spec fn spec_pieces_upto(c: Seq<u64>, n: int) -> Seq<Placed>
    decreases n,
{
    if n <= 0 {
        Seq::empty()
    } else {
        let rest = spec_pieces_upto(c, n - 1);
        match movegen::spec_piece_at(c, n - 1) {
            Some((color, pt)) => rest.push(((n - 1) as u16, color, pt)),
            None => rest,
        }
    }
}

/// Both views of `board`: one feature per occupied square, in square
/// order, seen from the side to move.
pub fn feature_sets(board: &atomic_movegen::board::Board) -> (r: FeatureSets)
    ensures
        spec_features_of(
            movegen::spec_side(movegen::spec_board_contents(*board)),
            spec_pieces_upto(movegen::spec_board_contents(*board), 64),
            r,
        ),
{
    let ghost c = movegen::spec_board_contents(*board);
    let stm = movegen::board_side_to_move(board);
    let mut pieces: Vec<Placed> = Vec::new();
    let mut sq: u16 = 0;
    while sq < 64
        invariant
            sq <= 64,
            c == movegen::spec_board_contents(*board),
            pieces@ == spec_pieces_upto(c, sq as int),
            forall|k: int| 0 <= k < pieces.len() ==> (#[trigger] pieces@[k]).0 < sq,
        decreases 64 - sq,
    {
        match movegen::board_piece_on(board, sq) {
            Some((color, pt)) => {
                pieces.push((sq, color, pt));
            },
            None => {},
        }
        sq += 1;
    }
    feature_sets_of(stm, &pieces)
}

/// The output index of a move: `from_sq * 64 + to_sq`. The promotion
/// variants of one pawn move share it.
pub fn policy_index(m: Move) -> (r: usize)
    ensures
        r == spec_from_sq(m@) * 64 + spec_to_sq(m@),
        r < POLICY_SIZE,
{
    (m.from_sq() as usize) * 64 + (m.to_sq() as usize)
}

} // verus!
