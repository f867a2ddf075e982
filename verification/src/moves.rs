//! Moves as their stable 16-bit wire code.
//!
//! Bit layout (least significant first): `to:6 | from:6 | type:2 | promotion:2`.
//! The promotion field indexes [`PROMOTION_PIECES`] and is meaningful only for
//! promotion moves. The code `0` is the "no move" sentinel.

use vstd::prelude::*;

verus! {

/// The kind of a move.
#[derive(Clone, Copy, PartialEq, Eq, Structural, Debug, Hash)]
pub enum MoveType {
    Normal,
    Promotion,
    EnPassant,
    Castling,
}

/// A piece type.
#[derive(Clone, Copy, PartialEq, Eq, Structural, Debug, Hash)]
pub enum PieceType {
    Pawn,
    Knight,
    Bishop,
    Rook,
    Queen,
    Commoner,
}

/// A side.
#[derive(Clone, Copy, PartialEq, Eq, Structural, Debug, Hash)]
pub enum Color {
    White,
    Black,
}

impl Color {
    pub open spec fn spec_flip(self) -> Color {
        match self {
            Color::White => Color::Black,
            Color::Black => Color::White,
        }
    }

    /// The opposite side.
    pub fn flip(self) -> (r: Color)
        ensures
            r == self.spec_flip(),
    {
        match self {
            Color::White => Color::Black,
            Color::Black => Color::White,
        }
    }

    /// The side's index: 0 for White, 1 for Black.
    pub fn index(self) -> (r: usize)
        ensures
            r == (if self == Color::White { 0usize } else { 1usize }),
    {
        match self {
            Color::White => 0,
            Color::Black => 1,
        }
    }
}

/// Promotion targets in wire-code order: queen, rook, bishop, knight.
pub open spec fn spec_promotion_piece(idx: u16) -> PieceType {
    if idx == 0 {
        PieceType::Queen
    } else if idx == 1 {
        PieceType::Rook
    } else if idx == 2 {
        PieceType::Bishop
    } else {
        PieceType::Knight
    }
}

/// Index of a promotion target in wire-code order, if it is one.
pub open spec fn spec_promotion_index(pt: PieceType) -> Option<u16> {
    match pt {
        PieceType::Queen => Some(0u16),
        PieceType::Rook => Some(1u16),
        PieceType::Bishop => Some(2u16),
        PieceType::Knight => Some(3u16),
        _ => None,
    }
}

/// Returns the promotion target with wire index `idx` (0..=3).
pub fn promotion_piece(idx: u16) -> (r: PieceType)
    requires
        idx < 4,
    ensures
        r == spec_promotion_piece(idx),
        spec_promotion_index(r) == Some(idx),
{
    if idx == 0 {
        PieceType::Queen
    } else if idx == 1 {
        PieceType::Rook
    } else if idx == 2 {
        PieceType::Bishop
    } else {
        PieceType::Knight
    }
}

pub open spec fn spec_to_sq(bits: u16) -> u16 {
    bits & 0x3f
}

pub open spec fn spec_from_sq(bits: u16) -> u16 {
    (bits >> 6u16) & 0x3f
}

pub open spec fn spec_type_bits(bits: u16) -> u16 {
    (bits >> 12u16) & 3
}

pub open spec fn spec_promo_bits(bits: u16) -> u16 {
    (bits >> 14u16) & 3
}

pub open spec fn spec_move_type(bits: u16) -> MoveType {
    let t = spec_type_bits(bits);
    if t == 0 {
        MoveType::Normal
    } else if t == 1 {
        MoveType::Promotion
    } else if t == 2 {
        MoveType::EnPassant
    } else {
        MoveType::Castling
    }
}

/// The code assembled from its fields.
pub open spec fn spec_pack(from: u16, to: u16, type_bits: u16, promo: u16) -> u16 {
    ((promo << 14u16) | (type_bits << 12u16) | (from << 6u16) | to) as u16
}

/// A move in the shape the move generator emits: origin differs from the
/// destination, and the promotion field is zero unless it is a promotion.
pub open spec fn spec_well_formed(bits: u16) -> bool {
    &&& spec_from_sq(bits) != spec_to_sq(bits)
    &&& (spec_type_bits(bits) != 1 ==> spec_promo_bits(bits) == 0)
}

pub proof fn lemma_fields_bounded(bits: u16)
    ensures
        spec_to_sq(bits) < 64,
        spec_from_sq(bits) < 64,
        spec_type_bits(bits) < 4,
        spec_promo_bits(bits) < 4,
        bits == spec_pack(spec_from_sq(bits), spec_to_sq(bits), spec_type_bits(bits), spec_promo_bits(bits)),
{
    assert(bits & 0x3f < 64) by (bit_vector);
    assert((bits >> 6u16) & 0x3f < 64) by (bit_vector);
    assert((bits >> 12u16) & 3 < 4) by (bit_vector);
    assert((bits >> 14u16) & 3 < 4) by (bit_vector);
    assert(bits == ((((bits >> 14u16) & 3) << 14u16) | (((bits >> 12u16) & 3) << 12u16) | (((bits >> 6u16) & 0x3f) << 6u16) | (bits & 0x3f)) as u16) by (bit_vector);
}

pub proof fn lemma_pack_fields(from: u16, to: u16, t: u16, p: u16)
    requires
        from < 64,
        to < 64,
        t < 4,
        p < 4,
    ensures
        spec_from_sq(spec_pack(from, to, t, p)) == from,
        spec_to_sq(spec_pack(from, to, t, p)) == to,
        spec_type_bits(spec_pack(from, to, t, p)) == t,
        spec_promo_bits(spec_pack(from, to, t, p)) == p,
{
    let b = spec_pack(from, to, t, p);
    assert(b == ((p << 14u16) | (t << 12u16) | (from << 6u16) | to) as u16);
    assert(from < 64 && to < 64 && t < 4 && p < 4 && b == ((p << 14u16) | (t << 12u16) | (from << 6u16) | to) as u16 ==> (
        ((b >> 6u16) & 0x3f) == from && (b & 0x3f) == to && ((b >> 12u16) & 3) == t && ((b >> 14u16) & 3) == p)) by (bit_vector);
}

/// A move, held as its 16-bit wire code.
#[derive(Clone, Copy, PartialEq, Eq, Structural, Debug, Hash)]
pub struct Move {
    pub bits: u16,
}

impl View for Move {
    type V = u16;

    open spec fn view(&self) -> u16 {
        self.bits
    }
}

impl Move {
    pub open spec fn spec_none() -> Move {
        Move { bits: 0 }
    }

    /// The "no move" sentinel (code 0).
    pub fn none() -> (r: Move)
        ensures
            r == Move::spec_none(),
            r@ == 0,
    {
        Move { bits: 0 }
    }

    /// Whether this is the "no move" sentinel.
    pub fn is_none(self) -> (r: bool)
        ensures
            r == (self == Move::spec_none()),
    {
        self.bits == 0
    }

    /// The wire code of this move.
    pub fn to_bits(self) -> (r: u16)
        ensures
            r == self@,
    {
        self.bits
    }

    /// A move with the given wire code, without any check.
    pub fn from_raw(bits: u16) -> (r: Move)
        ensures
            r@ == bits,
    {
        Move { bits }
    }

    /// Decode a wire code: `0` is the sentinel; any other code whose origin
    /// equals its destination is rejected.
    pub fn from_bits(bits: u16) -> (r: Option<Move>)
        ensures
            r == (if bits == 0 {
                Some(Move::spec_none())
            } else if spec_from_sq(bits) == spec_to_sq(bits) {
                None::<Move>
            } else {
                Some(Move { bits })
            }),
    {
        if bits == 0 {
            Some(Move::none())
        } else if (bits >> 6u16) & 0x3f == bits & 0x3f {
            None
        } else {
            Some(Move { bits })
        }
    }

    pub fn from_sq(self) -> (r: u16)
        ensures
            r == spec_from_sq(self@),
            r < 64,
    {
        proof {
            lemma_fields_bounded(self.bits);
        }
        (self.bits >> 6u16) & 0x3f
    }

    pub fn to_sq(self) -> (r: u16)
        ensures
            r == spec_to_sq(self@),
            r < 64,
    {
        proof {
            lemma_fields_bounded(self.bits);
        }
        self.bits & 0x3f
    }

    pub fn move_type(self) -> (r: MoveType)
        ensures
            r == spec_move_type(self@),
    {
        let t = (self.bits >> 12u16) & 3;
        if t == 0 {
            MoveType::Normal
        } else if t == 1 {
            MoveType::Promotion
        } else if t == 2 {
            MoveType::EnPassant
        } else {
            MoveType::Castling
        }
    }

    /// The promotion target (meaningful for promotion moves only).
    pub fn promotion_type(self) -> (r: PieceType)
        ensures
            r == spec_promotion_piece(spec_promo_bits(self@)),
    {
        proof {
            lemma_fields_bounded(self.bits);
        }
        promotion_piece((self.bits >> 14u16) & 3)
    }

    pub fn is_promotion(self) -> (r: bool)
        ensures
            r == (spec_type_bits(self@) == 1),
    {
        (self.bits >> 12u16) & 3 == 1
    }

    pub fn is_en_passant(self) -> (r: bool)
        ensures
            r == (spec_type_bits(self@) == 2),
    {
        (self.bits >> 12u16) & 3 == 2
    }

    pub fn is_castling(self) -> (r: bool)
        ensures
            r == (spec_type_bits(self@) == 3),
    {
        (self.bits >> 12u16) & 3 == 3
    }

    /// A normal move between two squares.
    pub fn make_move(from: u16, to: u16) -> (r: Move)
        requires
            from < 64,
            to < 64,
        ensures
            r@ == spec_pack(from, to, 0, 0),
    {
        let bits = (from << 6u16) | to;
        assert(bits == ((0u16 << 14u16) | (0u16 << 12u16) | (from << 6u16) | to) as u16) by (bit_vector)
            requires
                bits == (from << 6u16) | to,
        ;
        Move { bits }
    }

    /// A promotion move; `pt` must be a knight, bishop, rook or queen.
    pub fn make_promotion(from: u16, to: u16, pt: PieceType) -> (r: Move)
        requires
            from < 64,
            to < 64,
            spec_promotion_index(pt) is Some,
        ensures
            r@ == spec_pack(from, to, 1, spec_promotion_index(pt)->0),
    {
        let idx: u16 = match pt {
            PieceType::Queen => 0,
            PieceType::Rook => 1,
            PieceType::Bishop => 2,
            _ => 3,
        };
        let bits = (idx << 14u16) | (1u16 << 12u16) | (from << 6u16) | to;
        assert(bits == ((idx << 14u16) | (1u16 << 12u16) | (from << 6u16) | to) as u16) by (bit_vector)
            requires
                bits == (idx << 14u16) | (1u16 << 12u16) | (from << 6u16) | to,
        ;
        Move { bits }
    }

    /// An en-passant capture.
    pub fn make_enpassant(from: u16, to: u16) -> (r: Move)
        requires
            from < 64,
            to < 64,
        ensures
            r@ == spec_pack(from, to, 2, 0),
    {
        let bits = (2u16 << 12u16) | (from << 6u16) | to;
        assert(bits == ((0u16 << 14u16) | (2u16 << 12u16) | (from << 6u16) | to) as u16) by (bit_vector)
            requires
                bits == (2u16 << 12u16) | (from << 6u16) | to,
        ;
        Move { bits }
    }

    /// A castling move (commoner's square to rook's square).
    pub fn make_castling(from: u16, to: u16) -> (r: Move)
        requires
            from < 64,
            to < 64,
        ensures
            r@ == spec_pack(from, to, 3, 0),
    {
        let bits = (3u16 << 12u16) | (from << 6u16) | to;
        assert(bits == ((0u16 << 14u16) | (3u16 << 12u16) | (from << 6u16) | to) as u16) by (bit_vector)
            requires
                bits == (3u16 << 12u16) | (from << 6u16) | to,
        ;
        Move { bits }
    }
}

} // verus!
