//! UCI notation and the 16-bit move code used by the binary dumps.

use vstd::prelude::*;

use crate::moves::{
    lemma_fields_bounded, lemma_pack_fields, promotion_piece, spec_from_sq, spec_pack, spec_to_sq,
    spec_type_bits, spec_well_formed, Move, MoveType, PieceType,
};
use crate::position::Position;

verus! {

/// The canonical code of a move: promotion field cleared unless the move is
/// a promotion.
pub open spec fn spec_canonical_bits(bits: u16) -> u16 {
    if spec_type_bits(bits) == 1 {
        bits
    } else {
        spec_pack(spec_from_sq(bits), spec_to_sq(bits), spec_type_bits(bits), 0)
    }
}

/// Encode a move into its 16-bit code: origin, destination, type and (for
/// promotions) the promotion index. Never produces `0xFFFF`, which the dump
/// formats reserve as the "no move" sentinel.
pub fn move_to_bits(mv: Move) -> (r: u16)
    ensures
        r == spec_canonical_bits(mv@),
        r != 0xFFFF,
{
    let to = mv.to_sq() & 0x3f;
    let from = (mv.from_sq() & 0x3f) << 6u16;
    let type_bits: u16 = match mv.move_type() {
        MoveType::Normal => 0,
        MoveType::Promotion => 1u16 << 12u16,
        MoveType::EnPassant => 2u16 << 12u16,
        MoveType::Castling => 3u16 << 12u16,
    };
    let promotion_bits: u16 = if mv.move_type() == MoveType::Promotion {
        let idx: u16 = match mv.promotion_type() {
            PieceType::Queen => 0,
            PieceType::Rook => 1,
            PieceType::Bishop => 2,
            PieceType::Knight => 3,
            _ => 0,
        };
        idx << 14u16
    } else {
        0
    };
    proof {
        lemma_fields_bounded(mv@);
    }
    let b = mv.bits;
    let r = from | to | type_bits | promotion_bits;
    let ghost canon: u16 = if ((b >> 12u16) & 3) == 1 { b } else {
        ((0u16 << 14u16) | (((b >> 12u16) & 3) << 12u16) | (((b >> 6u16) & 0x3f) << 6u16) | (b & 0x3f)) as u16
    };
    assert(r == canon && r != 0xFFFF) by (bit_vector)
        requires
            to == (b & 0x3f) & 0x3f,
            from == (((b >> 6u16) & 0x3f) & 0x3f) << 6u16,
            ((b >> 12u16) & 3) == 0 ==> type_bits == 0,
            ((b >> 12u16) & 3) == 1 ==> type_bits == 1u16 << 12u16,
            ((b >> 12u16) & 3) == 2 ==> type_bits == 2u16 << 12u16,
            ((b >> 12u16) & 3) == 3 ==> type_bits == 3u16 << 12u16,
            ((b >> 12u16) & 3) == 1 ==> promotion_bits == ((b >> 14u16) & 3) << 14u16,
            ((b >> 12u16) & 3) != 1 ==> promotion_bits == 0,
            r == from | to | type_bits | promotion_bits,
            canon == (if ((b >> 12u16) & 3) == 1 { b } else {
                ((0u16 << 14u16) | (((b >> 12u16) & 3) << 12u16) | (((b >> 6u16) & 0x3f) << 6u16) | (b & 0x3f)) as u16
            }),
    ;
    r
}

/// Decode a 16-bit move code. Every code decodes: the promotion field is
/// kept for promotions and dropped otherwise.
pub fn bits_to_move(code: u16) -> (r: Option<Move>)
    ensures
        r == Some(Move { bits: spec_canonical_bits(code) }),
{
    proof {
        lemma_fields_bounded(code);
    }
    let to = code & 0x3f;
    let from = (code >> 6u16) & 0x3f;
    let move_type_bits = (code >> 12u16) & 0x3;
    let promotion_idx = (code >> 14u16) & 0x3;
    if move_type_bits == 0 {
        Some(Move::make_move(from, to))
    } else if move_type_bits == 1 {
        let pt = promotion_piece(promotion_idx);
        Some(Move::make_promotion(from, to, pt))
    } else if move_type_bits == 2 {
        Some(Move::make_enpassant(from, to))
    } else {
        Some(Move::make_castling(from, to))
    }
}

/// Decoding an encoded move gives back the move, for every move in the
/// shape the move generator emits; encoding a decoded code gives back the
/// code whenever the code is canonical.
pub proof fn lemma_move_bits_round_trip(m: Move, code: u16)
    ensures
        spec_well_formed(m@) ==> spec_canonical_bits(spec_canonical_bits(m@)) == m@,
        spec_canonical_bits(spec_canonical_bits(code)) == spec_canonical_bits(code),
{
    lemma_fields_bounded(m@);
    lemma_fields_bounded(code);
    lemma_pack_fields(spec_from_sq(code), spec_to_sq(code), spec_type_bits(code), 0);
    lemma_pack_fields(spec_from_sq(m@), spec_to_sq(m@), spec_type_bits(m@), 0);
}

/// The coordinate name of square `s` (`a1` = 0 .. `h8` = 63).
pub open spec fn spec_square_name(s: int) -> Seq<char> {
    seq![(97 + s % 8) as char, (49 + s / 8) as char]
}

/// The UCI text of a move code, as the move generator's `Move::to_uci`
/// writes it: `"0000"` for the sentinel (and for a code whose origin and
/// destination coincide, which the generator decodes as the sentinel);
/// otherwise the origin (bits 6..12), the destination (bits 0..6; for a
/// castling, type 3 in bits 12..14, the commoner's target on the g or c
/// file), and for a promotion (type 1) the letter of the piece indexed by
/// bits 14..16 in the order queen, rook, bishop, knight.
pub closed spec fn spec_uci(bits: u16) -> Seq<char> {
    let from = ((bits >> 6u16) & 63u16) as int;
    let to = (bits & 63u16) as int;
    let ty = (bits >> 12u16) & 3u16;
    let pr = (bits >> 14u16) & 3u16;
    if bits == 0 || from == to {
        seq!['0', '0', '0', '0']
    } else {
        let dest = if ty == 3 && from == 4 && to == 7 {
            seq!['g', '1']
        } else if ty == 3 && from == 4 && to == 0 {
            seq!['c', '1']
        } else if ty == 3 && from == 60 && to == 63 {
            seq!['g', '8']
        } else if ty == 3 && from == 60 && to == 56 {
            seq!['c', '8']
        } else {
            spec_square_name(to)
        };
        let promo: Seq<char> = if ty == 1 {
            seq![if pr == 0 { 'q' } else if pr == 1 { 'r' } else if pr == 2 { 'b' } else { 'n' }]
        } else {
            Seq::empty()
        };
        spec_square_name(from) + dest + promo
    }
}

/// `atomic_movegen::types::Move::to_uci` on the move's code, as
/// [`spec_uci`] spells it out from the crate's documented bit layout.
#[verifier::external_body]
pub fn move_to_uci(m: Move) -> (r: String)
    ensures
        r@ == spec_uci(m@),
{
    atomic_movegen::types::Move::from_bits(m.bits).unwrap_or(atomic_movegen::types::Move::NONE).to_uci()
}

/// `.uci` for each move, concatenated.
pub open spec fn spec_uci_suffix(moves: Seq<Move>) -> Seq<char>
    decreases moves.len(),
{
    if moves.len() == 0 {
        Seq::empty()
    } else {
        spec_uci_suffix(moves.drop_last()) + seq!['.'] + spec_uci(moves.last()@)
    }
}

/// `root` followed by `.uci` for each move: the path label of a line.
pub fn moves_to_uci_path(moves: &[Move]) -> (r: String)
    ensures
        r@ == "root"@ + spec_uci_suffix(moves@),
{
    let mut s = String::from_str("root");
    let mut i: usize = 0;
    while i < moves.len()
        invariant
            i <= moves.len(),
            s@ == "root"@ + spec_uci_suffix(moves@.take(i as int)),
        decreases moves.len() - i,
    {
        let ghost before = s@;
        s.append(".");
        let u = move_to_uci(moves[i]);
        s.append(u.as_str());
        proof {
            reveal_strlit(".");
            assert(moves@.take(i + 1).drop_last() =~= moves@.take(i as int));
            assert(moves@.take(i + 1).last() == moves@[i as int]);
            assert(s@ =~= "root"@ + spec_uci_suffix(moves@.take(i + 1)));
        }
        i += 1;
    }
    proof {
        assert(moves@.take(moves@.len() as int) =~= moves@);
    }
    s
}

/// The first move of `moves` whose UCI text is `uci`.
pub fn uci_to_move_in(uci: &str, moves: &Vec<Move>) -> (r: Option<Move>)
    ensures
        r matches Some(m) ==> exists|i: int| 0 <= i < moves.len() && moves@[i] == m && spec_uci(m@) == uci@
            && forall|j: int| 0 <= j < i ==> spec_uci(#[trigger] moves@[j]@) != uci@,
        r is None ==> forall|j: int| 0 <= j < moves.len() ==> spec_uci(#[trigger] moves@[j]@) != uci@,
{
    let target = uci.to_owned();
    let mut i: usize = 0;
    while i < moves.len()
        invariant
            i <= moves.len(),
            target@ == uci@,
            forall|j: int| 0 <= j < i ==> spec_uci(#[trigger] moves@[j]@) != uci@,
        decreases moves.len() - i,
    {
        let mv = moves[i];
        if move_to_uci(mv) == target {
            return Some(mv);
        }
        i += 1;
    }
    None
}

/// Convert a UCI move string into the legal move of `pos` that it names.
pub fn uci_to_move(uci: &str, pos: &Position) -> (r: Option<Move>)
    ensures
        r matches Some(m) ==> spec_uci(m@) == uci@ && spec_well_formed(m@),
{
    let moves = pos.legal_moves_vec();
    uci_to_move_in(uci, &moves)
}

} // verus!
