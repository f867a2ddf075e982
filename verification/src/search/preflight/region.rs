//! The reachable region of a position with at most three men, no pawns and
//! no castling rights, and its exact AND/OR values.
//!
//! Within that class a position is fixed by its piece placement and side to
//! move, so each one has an exact packed key: bit 0 is the side to move
//! (1 for Black), then up to three 10-bit slots, one per piece in ascending
//! square order, each `square * 16 + code` with `code = 8 * colour + type +
//! 1` (White 0, Black 1; pawn 0 up to commoner 5). The halfmove clock is not
//! part of the key.
//!
//! Values are from the side to move: a node wins when some child loses,
//! loses when it has children and all of them win, and whatever stays
//! undecided is a draw. Distances are exact: a win is one more than its
//! shortest losing child, a loss one more than its longest child.

use std::collections::HashMap;
use std::sync::atomic::AtomicBool;
use std::sync::Arc;

use vstd::prelude::*;

use crate::movegen::{self, spec_castling_index, spec_checkers, spec_legal_moves, spec_mask, spec_piece_at, spec_side};
use crate::moves::{Color, Move, PieceType};
use crate::position::{lemma_listed_is_legal, popcount, spec_popcount, spec_terminal_outcome, terminal_outcome, Outcome, Position};
use crate::search::ordering::{board_snapshot, spec_snapshot_of};
use crate::search::signals::flag_raised;
use crate::text::{push_decimal, spec_decimal};

verus! {

broadcast use vstd::std_specs::hash::group_hash_axioms;

pub const UNDECIDED: u8 = 0;
pub const WIN: u8 = 1;
pub const LOSS: u8 = 2;
pub const DRAW: u8 = 3;

// ---------------------------------------------------------------------
// Packed keys
// ---------------------------------------------------------------------

pub open spec fn spec_piece_index(pt: PieceType) -> int {
    match pt {
        PieceType::Pawn => 0,
        PieceType::Knight => 1,
        PieceType::Bishop => 2,
        PieceType::Rook => 3,
        PieceType::Queen => 4,
        PieceType::Commoner => 5,
    }
}

/// The 4-bit code of a piece: `8 * colour + type + 1`.
pub open spec fn spec_piece_code(c: Color, pt: PieceType) -> int {
    (if c == Color::White { 0int } else { 8int }) + spec_piece_index(pt) + 1
}

/// The place value of slot `i`: bit `1 + 10 * i`.
pub open spec fn spec_slot_weight(i: int) -> int {
    if i == 0 {
        2
    } else if i == 1 {
        2048
    } else {
        2097152
    }
}

/// Number of occupied squares among `s..64`.
pub open spec fn spec_count_from(squares: Seq<Option<(Color, PieceType)>>, s: int) -> int
    decreases 64 - s,
{
    if s < 0 || s >= 64 {
        0
    } else {
        (if squares[s] is Some { 1int } else { 0int }) + spec_count_from(squares, s + 1)
    }
}

proof fn lemma_count_nonneg(squares: Seq<Option<(Color, PieceType)>>, s: int)
    ensures
        spec_count_from(squares, s) >= 0,
    decreases 64 - s,
{
    if 0 <= s < 64 {
        lemma_count_nonneg(squares, s + 1);
    }
}

/// The slots of the occupied squares among `s..64`, the first of them in
/// slot `i`.
pub open spec fn spec_pack_from(squares: Seq<Option<(Color, PieceType)>>, s: int, i: int) -> int
    decreases 64 - s,
{
    if s < 0 || s >= 64 {
        0
    } else {
        match squares[s] {
            Some((c, pt)) => (s * 16 + spec_piece_code(c, pt)) * spec_slot_weight(i) + spec_pack_from(squares, s + 1, i + 1),
            None => spec_pack_from(squares, s + 1, i),
        }
    }
}

/// The packed key of a placement and side to move; `None` for more than
/// three men.
pub open spec fn spec_region_key(squares: Seq<Option<(Color, PieceType)>>, side: Color) -> Option<u32> {
    if spec_count_from(squares, 0) > 3 {
        None
    } else {
        Some(((if side == Color::White { 0int } else { 1int }) + spec_pack_from(squares, 0, 0)) as u32)
    }
}

/// The largest total of the first `i` slots.
pub open spec fn spec_slots_max(i: int) -> int {
    if i <= 0 {
        0
    } else if i == 1 {
        2044
    } else if i == 2 {
        2095100
    } else {
        2145384444
    }
}

fn piece_code(c: Color, pt: PieceType) -> (r: u64)
    ensures
        r == spec_piece_code(c, pt),
        1 <= r <= 14,
{
    let base: u64 = match c {
        Color::White => 0,
        Color::Black => 8,
    };
    let t: u64 = match pt {
        PieceType::Pawn => 0,
        PieceType::Knight => 1,
        PieceType::Bishop => 2,
        PieceType::Rook => 3,
        PieceType::Queen => 4,
        PieceType::Commoner => 5,
    };
    base + t + 1
}

/// The packed key of `squares` (64 entries, a1 first) with `side` to move.
pub fn region_key_of(squares: &Vec<Option<(Color, PieceType)>>, side: Color) -> (r: Option<u32>)
    requires
        squares.len() == 64,
    ensures
        r == spec_region_key(squares@, side),
{
    let mut count: usize = 0;
    let mut s: usize = 64;
    while s > 0
        invariant
            s <= 64,
            squares.len() == 64,
            count == spec_count_from(squares@, s as int),
            count <= 64 - s,
        decreases s,
    {
        s -= 1;
        if squares[s].is_some() {
            count += 1;
        }
    }
    if count > 3 {
        return None;
    }
    let mut acc: u64 = if side == Color::White { 0 } else { 1 };
    let ghost side_bit: int = acc as int;
    let mut i: u64 = 0;
    let mut sq: usize = 0;
    while sq < 64
        invariant
            sq <= 64,
            squares.len() == 64,
            count == spec_count_from(squares@, 0),
            count <= 3,
            i + spec_count_from(squares@, sq as int) == count,
            acc - side_bit + spec_pack_from(squares@, sq as int, i as int) == spec_pack_from(squares@, 0, 0),
            0 <= acc - side_bit <= spec_slots_max(i as int),
            side_bit == 0 || side_bit == 1,
        decreases 64 - sq,
    {
        match squares[sq] {
            Some((c, pt)) => {
                let code = piece_code(c, pt);
                let slot: u64 = (sq as u64) * 16 + code;
                let w: u64 = if i == 0 {
                    2
                } else if i == 1 {
                    2048
                } else {
                    2097152
                };
                proof {
                    lemma_count_nonneg(squares@, sq + 1);
                    assert(i < 3);
                    assert(slot <= 1022);
                    assert(slot * w <= 1022 * spec_slot_weight(i as int)) by (nonlinear_arith)
                        requires slot <= 1022, w == spec_slot_weight(i as int), w >= 0;
                }
                acc = acc + slot * w;
                i = i + 1;
            },
            None => {},
        }
        sq += 1;
    }
    proof {
        assert(spec_pack_from(squares@, 64, i as int) == 0);
    }
    Some(acc as u32)
}

/// The packed key of `pos`; `None` when more than three men are on the
/// board.
pub fn region_key(pos: &Position) -> (r: Option<u32>)
    ensures
        r == spec_contents_region_key(pos.contents()),
{
    let snap = board_snapshot(pos);
    region_key_of(&snap.squares, snap.us)
}


// ---------------------------------------------------------------------
// Decoding a key back to a board
// ---------------------------------------------------------------------

/// Slot `i` of `key`.
pub open spec fn spec_slot(key: u32, i: int) -> int {
    (key as int / spec_slot_weight(i)) % 1024
}

/// The piece code that `key` puts on square `sq`, 0 for none; a later slot
/// overrides an earlier one on the same square.
pub open spec fn spec_key_cell(key: u32, sq: int) -> int {
    if spec_slot(key, 2) != 0 && spec_slot(key, 2) / 16 == sq {
        spec_slot(key, 2) % 16
    } else if spec_slot(key, 1) != 0 && spec_slot(key, 1) / 16 == sq {
        spec_slot(key, 1) % 16
    } else if spec_slot(key, 0) != 0 && spec_slot(key, 0) / 16 == sq {
        spec_slot(key, 0) % 16
    } else {
        0
    }
}

/// Every used slot of `key` names a piece type.
pub open spec fn spec_key_valid(key: u32) -> bool {
    forall|i: int| 0 <= i < 3 ==> spec_slot(key, i) == 0 || (1 <= #[trigger] (spec_slot(key, i) % 8) <= 6)
}

/// The FEN letter of a piece code.
pub open spec fn spec_letter(code: int) -> char {
    let t = code % 8;
    if code < 8 {
        if t == 1 { 'P' } else if t == 2 { 'N' } else if t == 3 { 'B' } else if t == 4 { 'R' } else if t == 5 { 'Q' } else { 'K' }
    } else {
        if t == 1 { 'p' } else if t == 2 { 'n' } else if t == 3 { 'b' } else if t == 4 { 'r' } else if t == 5 { 'q' } else { 'k' }
    }
}

/// A run of `run` empty squares in FEN.
pub open spec fn spec_run_text(run: nat) -> Seq<char> {
    if run == 0 {
        Seq::empty()
    } else {
        spec_decimal(run)
    }
}

/// The FEN text of files `f..8` of the rank starting at square `base`,
/// after `run` empty squares not yet written.
pub open spec fn spec_row_text(key: u32, base: int, f: int, run: nat) -> Seq<char>
    decreases 8 - f,
{
    if f >= 8 {
        spec_run_text(run)
    } else if spec_key_cell(key, base + f) == 0 {
        spec_row_text(key, base, f + 1, run + 1)
    } else {
        spec_run_text(run) + seq![spec_letter(spec_key_cell(key, base + f))] + spec_row_text(key, base, f + 1, 0)
    }
}

/// The FEN placement of ranks `r` down to 1 (rank index `r` from 0).
pub open spec fn spec_rows_text(key: u32, r: int) -> Seq<char>
    decreases r,
{
    if r <= 0 {
        spec_row_text(key, 0, 0, 0)
    } else {
        spec_row_text(key, r * 8, 0, 0) + seq!['/'] + spec_rows_text(key, r - 1)
    }
}

/// The FEN of the position `key` packs, with clock 0 and no castling or
/// en-passant square.
pub open spec fn spec_key_fen(key: u32) -> Seq<char> {
    spec_rows_text(key, 7) + (if key % 2 == 0 { " w - - 0 1"@ } else { " b - - 0 1"@ })
}

fn slot_of(key: u32, i: u64) -> (r: u64)
    requires
        i < 3,
    ensures
        r == spec_slot(key, i as int),
        r < 1024,
{
    let w: u64 = if i == 0 {
        2
    } else if i == 1 {
        2048
    } else {
        2097152
    };
    ((key as u64) / w) % 1024
}

fn key_cell(key: u32, sq: u64) -> (r: u64)
    ensures
        r == spec_key_cell(key, sq as int),
        r < 16,
{
    let s2 = slot_of(key, 2);
    let s1 = slot_of(key, 1);
    let s0 = slot_of(key, 0);
    if s2 != 0 && s2 / 16 == sq {
        s2 % 16
    } else if s1 != 0 && s1 / 16 == sq {
        s1 % 16
    } else if s0 != 0 && s0 / 16 == sq {
        s0 % 16
    } else {
        0
    }
}

fn letter_str(code: u64) -> (r: &'static str)
    requires
        code < 16,
        1 <= code % 8 <= 6,
    ensures
        r@ == seq![spec_letter(code as int)],
{
    proof {
        reveal_strlit("P");
        reveal_strlit("N");
        reveal_strlit("B");
        reveal_strlit("R");
        reveal_strlit("Q");
        reveal_strlit("K");
        reveal_strlit("p");
        reveal_strlit("n");
        reveal_strlit("b");
        reveal_strlit("r");
        reveal_strlit("q");
        reveal_strlit("k");
    }
    let t = code % 8;
    if code < 8 {
        if t == 1 { "P" } else if t == 2 { "N" } else if t == 3 { "B" } else if t == 4 { "R" } else if t == 5 { "Q" } else { "K" }
    } else {
        if t == 1 { "p" } else if t == 2 { "n" } else if t == 3 { "b" } else if t == 4 { "r" } else if t == 5 { "q" } else { "k" }
    }
}

fn append_row(s: &mut String, key: u32, base: u64)
    requires
        base <= 56,
        spec_key_valid(key),
    ensures
        final(s)@ == old(s)@ + spec_row_text(key, base as int, 0, 0),
{
    let mut run: u64 = 0;
    let mut f: u64 = 0;
    while f < 8
        invariant
            f <= 8,
            run <= f,
            base <= 56,
            spec_key_valid(key),
            old(s)@ + spec_row_text(key, base as int, 0, 0) == s@ + spec_row_text(key, base as int, f as int, run as nat),
        decreases 8 - f,
    {
        let c = key_cell(key, base + f);
        if c == 0 {
            run += 1;
        } else {
            let ghost before = s@;
            proof {
                let sq = (base + f) as int;
                // The cell comes from a used slot, whose type field is valid.
                let s0 = spec_slot(key, 0);
                let s1 = spec_slot(key, 1);
                let s2 = spec_slot(key, 2);
                assert(spec_slot(key, 0) % 8 == s0 % 8);
                assert(spec_slot(key, 1) % 8 == s1 % 8);
                assert(spec_slot(key, 2) % 8 == s2 % 8);
                assert((s0 % 16) % 8 == s0 % 8) by (nonlinear_arith) requires s0 >= 0;
                assert((s1 % 16) % 8 == s1 % 8) by (nonlinear_arith) requires s1 >= 0;
                assert((s2 % 16) % 8 == s2 % 8) by (nonlinear_arith) requires s2 >= 0;
            }
            if run > 0 {
                push_decimal(s, run);
            }
            s.append(letter_str(c));
            proof {
                assert(s@ == before + spec_run_text(run as nat) + seq![spec_letter(c as int)]);
                assert(spec_row_text(key, base as int, f as int, run as nat) == spec_run_text(run as nat) + seq![spec_letter(
                    c as int,
                )] + spec_row_text(key, base as int, f + 1, 0));
                assert(s@ + spec_row_text(key, base as int, f + 1, 0) =~= before + spec_row_text(key, base as int, f as int, run as nat));
            }
            run = 0;
        }
        f += 1;
    }
    if run > 0 {
        push_decimal(s, run);
    }
    proof {
        assert(s@ =~= old(s)@ + spec_row_text(key, base as int, 0, 0));
    }
}

/// The FEN text of the position `key` packs; `None` when a used slot names
/// no piece type.
pub fn key_fen(key: u32) -> (r: Option<String>)
    ensures
        r is None <==> !spec_key_valid(key),
        r matches Some(text) ==> text@ == spec_key_fen(key),
{
    let mut i: u64 = 0;
    while i < 3
        invariant
            i <= 3,
            forall|j: int| 0 <= j < i ==> spec_slot(key, j) == 0 || (1 <= #[trigger] (spec_slot(key, j) % 8) <= 6),
        decreases 3 - i,
    {
        let slot = slot_of(key, i);
        if slot != 0 && (slot % 8 == 0 || slot % 8 == 7) {
            return None;
        }
        i += 1;
    }
    let mut s = String::new();
    let mut r: u64 = 7;
    loop
        invariant_except_break
            s@ + spec_rows_text(key, r as int) == spec_rows_text(key, 7),
        invariant
            r <= 7,
            spec_key_valid(key),
        ensures
            s@ == spec_rows_text(key, 7),
        decreases r,
    {
        let ghost before = s@;
        append_row(&mut s, key, r * 8);
        if r == 0 {
            break;
        }
        s.append("/");
        proof {
            reveal_strlit("/");
            assert(s@ + spec_rows_text(key, r - 1) =~= before + spec_rows_text(key, r as int));
        }
        r -= 1;
    }
    if key % 2 == 0 {
        s.append(" w - - 0 1");
    } else {
        s.append(" b - - 0 1");
    }
    Some(s)
}

/// The position a key packs (clock 0, no castling, no en-passant square);
/// `None` when the key names no valid placement.
pub fn board_from_key(key: u32) -> (r: Option<Position>)
    ensures
        r matches Some(p) ==> p.wf() && p.history_len() == 0,
        !spec_key_valid(key) ==> r is None,
{
    match key_fen(key) {
        Some(fen) => match Position::from_fen(fen.as_str()) {
            Ok(p) => Some(p),
            Err(_) => None,
        },
        None => None,
    }
}


/// The code a placement puts on square `sq`: its piece's code, 0 if empty.
pub open spec fn spec_square_code(squares: Seq<Option<(Color, PieceType)>>, sq: int) -> int {
    match squares[sq] {
        Some((c, pt)) => spec_piece_code(c, pt),
        None => 0,
    }
}

/// The occupied squares among `s..64`, ascending.
pub open spec fn spec_occupied_from(squares: Seq<Option<(Color, PieceType)>>, s: int) -> Seq<int>
    decreases 64 - s,
{
    if s < 0 || s >= 64 {
        Seq::empty()
    } else {
        (if squares[s] is Some { seq![s] } else { Seq::<int>::empty() }) + spec_occupied_from(squares, s + 1)
    }
}

/// The slot of an occupied square: `square * 16 + code`.
pub open spec fn spec_slot_value(squares: Seq<Option<(Color, PieceType)>>, sq: int) -> int {
    sq * 16 + spec_square_code(squares, sq)
}

/// The slots of the squares `occ`, the first of them in slot `i`.
pub open spec fn spec_weighted(squares: Seq<Option<(Color, PieceType)>>, occ: Seq<int>, i: int) -> int
    decreases occ.len(),
{
    if occ.len() == 0 {
        0
    } else {
        spec_slot_value(squares, occ[0]) * spec_slot_weight(i) + spec_weighted(squares, occ.drop_first(), i + 1)
    }
}

/// The packing of `s..64` is the packing of its occupied squares, which
/// are ascending, occupied and all of the occupied ones.
proof fn lemma_pack_occupied(squares: Seq<Option<(Color, PieceType)>>, s: int, i: int)
    requires
        squares.len() == 64,
        0 <= s <= 64,
    ensures
        ({
            let occ = spec_occupied_from(squares, s);
            &&& spec_pack_from(squares, s, i) == spec_weighted(squares, occ, i)
            &&& occ.len() == spec_count_from(squares, s)
            &&& forall|j: int| 0 <= j < occ.len() ==> s <= #[trigger] occ[j] < 64 && squares[occ[j]] is Some
            &&& forall|j: int, k: int| 0 <= j < k < occ.len() ==> #[trigger] occ[j] < #[trigger] occ[k]
            &&& forall|sq: int| s <= sq < 64 && squares[sq] is Some ==> #[trigger] occ.contains(sq)
        }),
    decreases 64 - s,
{
    if s < 64 {
        lemma_pack_occupied(squares, s + 1, i + 1);
        lemma_pack_occupied(squares, s + 1, i);
        let rest = spec_occupied_from(squares, s + 1);
        let occ = spec_occupied_from(squares, s);
        if squares[s] is Some {
            assert(occ == seq![s] + rest);
            assert(occ.drop_first() =~= rest);
            assert(occ[0] == s);
            assert forall|sq: int| s <= sq < 64 && squares[sq] is Some implies #[trigger] occ.contains(sq) by {
                if sq == s {
                    assert(occ[0] == sq);
                } else {
                    assert(rest.contains(sq));
                    let j = choose|j: int| 0 <= j < rest.len() && rest[j] == sq;
                    assert(occ[j + 1] == sq);
                }
            }
        } else {
            assert(occ =~= rest);
        }
    } else {
        assert(spec_occupied_from(squares, s) =~= Seq::<int>::empty());
    }
}

/// A sum of three 10-bit slots above a side bit gives each slot back.
proof fn lemma_unpack_slots(side: int, a: int, b: int, c: int)
    requires
        0 <= side < 2,
        0 <= a < 1024,
        0 <= b < 1024,
        0 <= c < 1024,
    ensures
        ({
            let k = side + a * 2 + b * 2048 + c * 2097152;
            &&& 0 <= k < 0x1_0000_0000
            &&& k % 2 == side
            &&& (k / 2) % 1024 == a
            &&& (k / 2048) % 1024 == b
            &&& (k / 2097152) % 1024 == c
        }),
{
    let k = side + a * 2 + b * 2048 + c * 2097152;
    assert(k / 2 == a + b * 1024 + c * 1048576);
    assert(k / 2048 == b + c * 1024);
    assert(k / 2097152 == c);
}

/// Slot `j` of the occupied squares `occ`: its slot value, 0 past the end.
pub open spec fn spec_nth_slot(squares: Seq<Option<(Color, PieceType)>>, occ: Seq<int>, j: int) -> int {
    if j < occ.len() {
        spec_slot_value(squares, occ[j])
    } else {
        0
    }
}

/// At most three occupied squares pack as their slots at the three weights.
proof fn lemma_weighted_three(squares: Seq<Option<(Color, PieceType)>>, occ: Seq<int>)
    requires
        occ.len() <= 3,
    ensures
        spec_weighted(squares, occ, 0) == spec_nth_slot(squares, occ, 0) * 2 + spec_nth_slot(squares, occ, 1) * 2048
            + spec_nth_slot(squares, occ, 2) * 2097152,
{
    reveal_with_fuel(spec_weighted, 4);
    let o1 = occ.drop_first();
    let o2 = o1.drop_first();
    if occ.len() >= 1 {
        assert(o1.len() == occ.len() - 1);
        if occ.len() >= 2 {
            assert(o1[0] == occ[1]);
            assert(o2.len() == occ.len() - 2);
            if occ.len() >= 3 {
                assert(o2[0] == occ[2]);
            }
        }
    }
}

/// The key of a placement holds the slot of its `j`-th occupied square in
/// slot `j`, and the side bit.
proof fn lemma_key_slots(squares: Seq<Option<(Color, PieceType)>>, side: Color)
    requires
        squares.len() == 64,
        spec_region_key(squares, side) is Some,
    ensures
        ({
            let key = spec_region_key(squares, side)->0;
            let occ = spec_occupied_from(squares, 0);
            &&& occ.len() <= 3
            &&& key % 2 == (if side == Color::White { 0int } else { 1int })
            &&& forall|j: int| 0 <= j < 3 ==> #[trigger] spec_slot(key, j) == spec_nth_slot(squares, occ, j)
        }),
{
    lemma_pack_occupied(squares, 0, 0);
    let occ = spec_occupied_from(squares, 0);
    assert forall|j: int| 0 <= j < 3 implies 0 <= #[trigger] spec_nth_slot(squares, occ, j) <= 1022 by {
        if j < occ.len() {
            assert(squares[occ[j]] is Some);
        }
    }
    lemma_weighted_three(squares, occ);
    let side_bit: int = if side == Color::White { 0 } else { 1 };
    let (v0, v1, v2) = (spec_nth_slot(squares, occ, 0), spec_nth_slot(squares, occ, 1), spec_nth_slot(squares, occ, 2));
    lemma_unpack_slots(side_bit, v0, v1, v2);
    let key = spec_region_key(squares, side)->0;
    assert(key as int == side_bit + v0 * 2 + v1 * 2048 + v2 * 2097152);
}

/// Decoding the packed key of a placement of at most three men gives back
/// the piece on every square and the side to move; so the key determines
/// the placement and the side.
pub proof fn lemma_region_key_decodes(squares: Seq<Option<(Color, PieceType)>>, side: Color)
    requires
        squares.len() == 64,
        spec_region_key(squares, side) is Some,
    ensures
        ({
            let key = spec_region_key(squares, side)->0;
            &&& key % 2 == (if side == Color::White { 0int } else { 1int })
            &&& spec_key_valid(key)
            &&& forall|sq: int| 0 <= sq < 64 ==> #[trigger] spec_key_cell(key, sq) == spec_square_code(squares, sq)
        }),
{
    lemma_pack_occupied(squares, 0, 0);
    lemma_key_slots(squares, side);
    let occ = spec_occupied_from(squares, 0);
    let n = occ.len() as int;
    let key = spec_region_key(squares, side)->0;
    assert forall|j: int| 0 <= j < n implies (#[trigger] spec_slot(key, j)) / 16 == occ[j] && spec_slot(key, j) % 16
        == spec_square_code(squares, occ[j]) && spec_slot(key, j) != 0 && 1 <= spec_slot(key, j) % 8 <= 6 by {
        assert(squares[occ[j]] is Some);
        assert(spec_slot(key, j) == spec_nth_slot(squares, occ, j));
    }
    assert forall|j: int| n <= j < 3 implies #[trigger] spec_slot(key, j) == 0 by {
        assert(spec_slot(key, j) == spec_nth_slot(squares, occ, j));
    }
    assert forall|sq: int| 0 <= sq < 64 implies #[trigger] spec_key_cell(key, sq) == spec_square_code(squares, sq) by {
        if squares[sq] is Some {
            assert(occ.contains(sq));
            let j = choose|j: int| 0 <= j < occ.len() && occ[j] == sq;
            assert forall|k: int| 0 <= k < n && k != j implies (#[trigger] occ[k]) != sq by {
                if k < j {
                    assert(occ[k] < occ[j]);
                } else {
                    assert(occ[j] < occ[k]);
                }
            }
        } else {
            assert forall|k: int| 0 <= k < n implies (#[trigger] occ[k]) != sq by {}
        }
    }
}

/// Placements of at most three men with their sides to move that pack to
/// the same key are the same.
pub proof fn lemma_region_key_injective(
    a: Seq<Option<(Color, PieceType)>>,
    side_a: Color,
    b: Seq<Option<(Color, PieceType)>>,
    side_b: Color,
)
    requires
        a.len() == 64,
        b.len() == 64,
        spec_region_key(a, side_a) is Some,
        spec_region_key(a, side_a) == spec_region_key(b, side_b),
    ensures
        side_a == side_b,
        forall|sq: int| 0 <= sq < 64 ==> #[trigger] spec_square_code(a, sq) == spec_square_code(b, sq),
{
    lemma_region_key_decodes(a, side_a);
    lemma_region_key_decodes(b, side_b);
    let key = spec_region_key(a, side_a)->0;
    assert forall|sq: int| 0 <= sq < 64 implies #[trigger] spec_square_code(a, sq) == spec_square_code(b, sq) by {
        assert(spec_key_cell(key, sq) == spec_square_code(a, sq));
    }
}

// ---------------------------------------------------------------------
// The AND/OR values of a closed region
// ---------------------------------------------------------------------

/// `n` nodes whose children are `children[off[k]..off[k + 1]]`.
pub open spec fn spec_graph_wf(n: int, children: Seq<u32>, off: Seq<u32>) -> bool {
    &&& off.len() == n + 1
    &&& off[0] == 0
    &&& off[n] == children.len()
    &&& forall|a: int, b: int| 0 <= a <= b <= n ==> #[trigger] off[a] <= #[trigger] off[b]
    &&& forall|j: int| 0 <= j < children.len() ==> #[trigger] children[j] < n
}

/// Terminal nodes have no children.
pub open spec fn spec_terminals_are_leaves(terminal: Seq<Option<Outcome>>, off: Seq<u32>) -> bool {
    forall|k: int| 0 <= k < terminal.len() && (#[trigger] terminal[k]) is Some ==> off[k] == off[k + 1]
}

pub open spec fn spec_outcome_value(o: Outcome) -> u8 {
    match o {
        Outcome::Win => WIN,
        Outcome::Loss => LOSS,
        Outcome::Draw => DRAW,
    }
}

/// Some child of node `k` has value `LOSS`.
pub open spec fn spec_has_losing_kid(val: Seq<u8>, children: Seq<u32>, off: Seq<u32>, k: int) -> bool {
    exists|j: int| off[k] <= j < off[k + 1] && val[children[j] as int] == LOSS
}

/// Node `k` has children and all of them have value `WIN`.
pub open spec fn spec_all_kids_win(val: Seq<u8>, children: Seq<u32>, off: Seq<u32>, k: int) -> bool {
    &&& off[k] < off[k + 1]
    &&& forall|j: int| off[k] <= j < off[k + 1] ==> val[#[trigger] children[j] as int] == WIN
}

/// The value of node `k` solves the AND/OR equations: a terminal keeps its
/// outcome; otherwise a node wins iff some child loses, loses iff it has
/// children that all win, and is drawn otherwise.
pub open spec fn spec_value_solved(terminal: Seq<Option<Outcome>>, val: Seq<u8>, children: Seq<u32>, off: Seq<u32>, k: int) -> bool {
    match terminal[k] {
        Some(o) => val[k] == spec_outcome_value(o),
        None => {
            &&& (val[k] == WIN <==> spec_has_losing_kid(val, children, off, k))
            &&& (val[k] == LOSS <==> spec_all_kids_win(val, children, off, k))
            &&& (val[k] == WIN || val[k] == LOSS || val[k] == DRAW)
        },
    }
}

pub open spec fn spec_values_solved(terminal: Seq<Option<Outcome>>, val: Seq<u8>, children: Seq<u32>, off: Seq<u32>) -> bool {
    &&& val.len() == terminal.len()
    &&& forall|k: int| 0 <= k < terminal.len() ==> #[trigger] spec_value_solved(terminal, val, children, off, k)
}

/// Every decided node has its reason: a terminal its outcome, a won node a
/// losing child, a lost node children that all win.
spec fn spec_justified(terminal: Seq<Option<Outcome>>, val: Seq<u8>, children: Seq<u32>, off: Seq<u32>) -> bool {
    &&& val.len() == terminal.len()
    &&& forall|k: int| 0 <= k < terminal.len() ==> #[trigger] spec_node_justified(terminal, val, children, off, k)
}

spec fn spec_node_justified(terminal: Seq<Option<Outcome>>, val: Seq<u8>, children: Seq<u32>, off: Seq<u32>, k: int) -> bool {
    match terminal[k] {
        Some(o) => val[k] == spec_outcome_value(o),
        None => {
            ||| val[k] == UNDECIDED
            ||| (val[k] == WIN && spec_has_losing_kid(val, children, off, k))
            ||| (val[k] == LOSS && spec_all_kids_win(val, children, off, k))
        },
    }
}

/// Node `k` is undecided and nothing decides it yet.
spec fn spec_stuck(val: Seq<u8>, children: Seq<u32>, off: Seq<u32>, k: int) -> bool {
    val[k] == UNDECIDED ==> !spec_has_losing_kid(val, children, off, k) && !spec_all_kids_win(val, children, off, k)
}

spec fn spec_count_undecided(val: Seq<u8>) -> nat
    decreases val.len(),
{
    if val.len() == 0 {
        0
    } else {
        spec_count_undecided(val.drop_last()) + (if val.last() == UNDECIDED { 1nat } else { 0nat })
    }
}

proof fn lemma_count_decide(val: Seq<u8>, k: int, v: u8)
    requires
        0 <= k < val.len(),
        val[k] == UNDECIDED,
        v != UNDECIDED,
    ensures
        spec_count_undecided(val.update(k, v)) + 1 == spec_count_undecided(val),
    decreases val.len(),
{
    let u = val.update(k, v);
    if k == val.len() - 1 {
        assert(u.drop_last() =~= val.drop_last());
    } else {
        assert(u.drop_last() =~= val.drop_last().update(k, v));
        lemma_count_decide(val.drop_last(), k, v);
    }
}

/// Deciding an undecided node keeps every other node's reason.
proof fn lemma_decide_keeps_justified(
    terminal: Seq<Option<Outcome>>,
    val: Seq<u8>,
    children: Seq<u32>,
    off: Seq<u32>,
    k: int,
    v: u8,
)
    requires
        spec_graph_wf(terminal.len() as int, children, off),
        spec_justified(terminal, val, children, off),
        0 <= k < val.len(),
        val[k] == UNDECIDED,
        terminal[k] is None,
        v == WIN ==> spec_has_losing_kid(val, children, off, k),
        v == LOSS ==> spec_all_kids_win(val, children, off, k),
        v == WIN || v == LOSS,
    ensures
        spec_justified(terminal, val.update(k, v), children, off),
{
    let u = val.update(k, v);
    let n = terminal.len() as int;
    assert forall|x: int| 0 <= x < n implies #[trigger] spec_node_justified(terminal, u, children, off, x) by {
        assert(spec_node_justified(terminal, val, children, off, x));
        if x == k {
            if v == WIN {
                let j = choose|j: int| off[k] <= j < off[k + 1] && val[children[j] as int] == LOSS;
                assert(off[0] <= off[k] && off[k + 1] <= off[n]);
                assert(children[j] < n);
                assert(u[children[j] as int] == LOSS);
            } else {
                assert forall|j: int| off[k] <= j < off[k + 1] implies u[#[trigger] children[j] as int] == WIN by {
                    assert(off[0] <= off[k] && off[k + 1] <= off[n]);
                    assert(children[j] < n);
                    assert(val[children[j] as int] == WIN);
                }
            }
        } else if terminal[x] is None && val[x] == WIN {
            let j = choose|j: int| off[x] <= j < off[x + 1] && val[children[j] as int] == LOSS;
            assert(off[0] <= off[x] && off[x + 1] <= off[n]);
            assert(children[j] < n);
            assert(u[children[j] as int] == LOSS);
        } else if terminal[x] is None && val[x] == LOSS {
            assert forall|j: int| off[x] <= j < off[x + 1] implies u[#[trigger] children[j] as int] == WIN by {
                assert(off[0] <= off[x] && off[x + 1] <= off[n]);
                assert(children[j] < n);
                assert(val[children[j] as int] == WIN);
            }
        }
    }
}

/// Once nothing changes, the undecided nodes are draws and every value
/// solves the equations.
proof fn lemma_remainder_is_draw(
    terminal: Seq<Option<Outcome>>,
    val: Seq<u8>,
    fin: Seq<u8>,
    children: Seq<u32>,
    off: Seq<u32>,
)
    requires
        spec_graph_wf(terminal.len() as int, children, off),
        spec_justified(terminal, val, children, off),
        forall|k: int| 0 <= k < terminal.len() ==> #[trigger] spec_stuck(val, children, off, k),
        fin.len() == val.len(),
        forall|k: int| 0 <= k < val.len() ==> #[trigger] fin[k] == (if val[k] == UNDECIDED { DRAW } else { val[k] }),
    ensures
        spec_values_solved(terminal, fin, children, off),
{
    let n = terminal.len() as int;
    assert forall|k: int| 0 <= k < n implies #[trigger] spec_value_solved(terminal, fin, children, off, k) by {
        assert(spec_node_justified(terminal, val, children, off, k));
        assert(spec_stuck(val, children, off, k));
        assert(off[0] <= off[k] && off[k + 1] <= off[n]);
        assert forall|j: int| off[k] <= j < off[k + 1] implies (fin[#[trigger] children[j] as int] == LOSS <==> val[children[j] as int] == LOSS)
            && (fin[children[j] as int] == WIN <==> val[children[j] as int] == WIN) by {
            assert(children[j] < n);
        }
        if spec_has_losing_kid(fin, children, off, k) {
            let j = choose|j: int| off[k] <= j < off[k + 1] && fin[children[j] as int] == LOSS;
            assert(val[children[j] as int] == LOSS);
        }
        if spec_has_losing_kid(val, children, off, k) {
            let j = choose|j: int| off[k] <= j < off[k + 1] && val[children[j] as int] == LOSS;
            assert(fin[children[j] as int] == LOSS);
        }
        if spec_all_kids_win(val, children, off, k) && off[k] < off[k + 1] {
            assert(val[children[off[k] as int] as int] == WIN);
        }
    }
}

/// The AND/OR fixpoint over a closed region: repeatedly decide nodes that
/// have a losing child (won) or only winning children (lost), in node
/// order, until a pass changes nothing; the rest are draws.
pub fn solve_values(terminal: &Vec<Option<Outcome>>, children: &Vec<u32>, off: &Vec<u32>) -> (val: Vec<u8>)
    requires
        spec_graph_wf(terminal.len() as int, children@, off@),
        spec_terminals_are_leaves(terminal@, off@),
        terminal.len() < u32::MAX,
    ensures
        spec_values_solved(terminal@, val@, children@, off@),
{
    let n = terminal.len();
    let mut val: Vec<u8> = Vec::new();
    let mut i: usize = 0;
    while i < n
        invariant
            i <= n,
            n == terminal.len(),
            val.len() == i,
            forall|k: int| 0 <= k < i ==> #[trigger] val@[k] == (match terminal@[k] {
                Some(o) => spec_outcome_value(o),
                None => UNDECIDED,
            }),
        decreases n - i,
    {
        let v: u8 = match terminal[i] {
            Some(Outcome::Win) => WIN,
            Some(Outcome::Loss) => LOSS,
            Some(Outcome::Draw) => DRAW,
            None => UNDECIDED,
        };
        val.push(v);
        i += 1;
    }
    proof {
        assert forall|k: int| 0 <= k < n implies #[trigger] spec_node_justified(terminal@, val@, children@, off@, k) by {
            assert(val@[k] == (match terminal@[k] {
                Some(o) => spec_outcome_value(o),
                None => UNDECIDED,
            }));
        }
    }
    loop
        invariant
            n == terminal.len(),
            n < u32::MAX,
            spec_graph_wf(n as int, children@, off@),
            spec_terminals_are_leaves(terminal@, off@),
            spec_justified(terminal@, val@, children@, off@),
        ensures
            spec_justified(terminal@, val@, children@, off@),
            forall|k: int| 0 <= k < n ==> #[trigger] spec_stuck(val@, children@, off@, k),
        decreases spec_count_undecided(val@),
    {
        let ghost start = val@;
        let mut changed = false;
        let mut k: usize = 0;
        while k < n
            invariant
                k <= n,
                n == terminal.len(),
                n < u32::MAX,
                spec_graph_wf(n as int, children@, off@),
                spec_terminals_are_leaves(terminal@, off@),
                spec_justified(terminal@, val@, children@, off@),
                spec_count_undecided(val@) <= spec_count_undecided(start),
                changed ==> spec_count_undecided(val@) < spec_count_undecided(start),
                !changed ==> val@ == start,
                !changed ==> forall|x: int| 0 <= x < k ==> #[trigger] spec_stuck(val@, children@, off@, x),
            decreases n - k,
        {
            if val[k] == UNDECIDED {
                proof {
                    assert(spec_node_justified(terminal@, val@, children@, off@, k as int));
                    assert(off@[0] <= off@[k as int] && off@[k + 1] <= off@[n as int]);
                }
                let lo = off[k] as usize;
                let hi = off[k + 1] as usize;
                let mut all_win = lo < hi;
                let mut found_loss = false;
                let mut j = lo;
                while j < hi
                    invariant_except_break
                        !found_loss,
                        forall|t: int| lo <= t < j ==> val@[#[trigger] children@[t] as int] != LOSS,
                    invariant
                        lo <= j <= hi,
                        lo == off@[k as int],
                        hi == off@[k + 1],
                        hi <= children.len(),
                        k < n,
                        n == val.len(),
                        spec_graph_wf(n as int, children@, off@),
                        all_win == (lo < hi && forall|t: int| lo <= t < j ==> val@[#[trigger] children@[t] as int] == WIN),
                    ensures
                        found_loss ==> j < hi && val@[children@[j as int] as int] == LOSS,
                        !found_loss ==> j == hi,
                        all_win == (lo < hi && forall|t: int| lo <= t < j ==> val@[#[trigger] children@[t] as int] == WIN),
                        !found_loss ==> forall|t: int| lo <= t < j ==> val@[#[trigger] children@[t] as int] != LOSS,
                    decreases hi - j,
                {
                    let c = children[j] as usize;
                    proof {
                        assert(children@[j as int] < n);
                    }
                    let v = val[c];
                    if v == LOSS {
                        found_loss = true;
                        break;
                    }
                    if v != WIN {
                        all_win = false;
                    }
                    j += 1;
                }
                if found_loss {
                    proof {
                        assert(spec_has_losing_kid(val@, children@, off@, k as int));
                        lemma_decide_keeps_justified(terminal@, val@, children@, off@, k as int, WIN);
                        lemma_count_decide(val@, k as int, WIN);
                    }
                    val.set(k, WIN);
                    changed = true;
                } else if all_win {
                    proof {
                        assert(spec_all_kids_win(val@, children@, off@, k as int));
                        lemma_decide_keeps_justified(terminal@, val@, children@, off@, k as int, LOSS);
                        lemma_count_decide(val@, k as int, LOSS);
                    }
                    val.set(k, LOSS);
                    changed = true;
                } else {
                    proof {
                        if spec_has_losing_kid(val@, children@, off@, k as int) {
                            let t = choose|t: int| off@[k as int] <= t < off@[k + 1] && val@[children@[t] as int] == LOSS;
                            assert(val@[children@[t] as int] != LOSS);
                        }
                        assert(spec_stuck(val@, children@, off@, k as int));
                    }
                }
            }
            k += 1;
        }
        if !changed {
            break;
        }
    }
    let ghost before = val@;
    let mut k: usize = 0;
    while k < n
        invariant
            k <= n,
            n == val.len(),
            before.len() == n,
            forall|x: int| 0 <= x < k ==> #[trigger] val@[x] == (if before[x] == UNDECIDED { DRAW } else { before[x] }),
            forall|x: int| k <= x < n ==> #[trigger] val@[x] == before[x],
        decreases n - k,
    {
        if val[k] == UNDECIDED {
            val.set(k, DRAW);
        }
        k += 1;
    }
    proof {
        lemma_remainder_is_draw(terminal@, before, val@, children@, off@);
    }
    val
}


/// Node `k` has a distance to relax: a win with a losing child, or a loss
/// with children.
pub open spec fn spec_has_target(val: Seq<u8>, children: Seq<u32>, off: Seq<u32>, k: int) -> bool {
    ||| (val[k] == WIN && spec_has_losing_kid(val, children, off, k))
    ||| (val[k] == LOSS && off[k] < off[k + 1])
}

/// `d` is node `k`'s relaxed distance: one more than the shortest losing
/// child of a win, or one more than the longest child of a loss.
pub open spec fn spec_target_is(val: Seq<u8>, dist: Seq<u32>, children: Seq<u32>, off: Seq<u32>, k: int, d: int) -> bool {
    if val[k] == WIN {
        &&& exists|j: int| off[k] <= j < off[k + 1] && val[children[j] as int] == LOSS && d == dist[children[j] as int] + 1
        &&& forall|j: int|
            off[k] <= j < off[k + 1] && val[#[trigger] children[j] as int] == LOSS ==> d <= dist[children[j] as int] + 1
    } else {
        &&& exists|j: int| off[k] <= j < off[k + 1] && d == dist[children[j] as int] + 1
        &&& forall|j: int| off[k] <= j < off[k + 1] ==> dist[#[trigger] children[j] as int] + 1 <= d
    }
}

/// The distance of node `k` solves its equation: relaxed where it has a
/// target, 0 elsewhere (terminals and draws).
pub open spec fn spec_dist_node(val: Seq<u8>, dist: Seq<u32>, children: Seq<u32>, off: Seq<u32>, k: int) -> bool {
    if spec_has_target(val, children, off, k) {
        spec_target_is(val, dist, children, off, k, dist[k] as int)
    } else {
        dist[k] == 0
    }
}

pub open spec fn spec_dists_solved(val: Seq<u8>, dist: Seq<u32>, children: Seq<u32>, off: Seq<u32>) -> bool {
    &&& dist.len() == val.len()
    &&& forall|k: int| 0 <= k < val.len() ==> #[trigger] spec_dist_node(val, dist, children, off, k)
}

/// The relaxed distance of node `k`: `Ok(None)` without a target,
/// `Err(())` when it would not fit in a `u32`.
fn relaxed(val: &Vec<u8>, dist: &Vec<u32>, children: &Vec<u32>, off: &Vec<u32>, k: usize) -> (r: Result<Option<u32>, ()>)
    requires
        spec_graph_wf(val.len() as int, children@, off@),
        dist.len() == val.len(),
        k < val.len(),
    ensures
        r matches Ok(None) ==> !spec_has_target(val@, children@, off@, k as int),
        r matches Ok(Some(d)) ==> spec_has_target(val@, children@, off@, k as int) && spec_target_is(
            val@,
            dist@,
            children@,
            off@,
            k as int,
            d as int,
        ),
        r is Err ==> spec_has_target(val@, children@, off@, k as int) && spec_target_is(
            val@,
            dist@,
            children@,
            off@,
            k as int,
            u32::MAX as int + 1,
        ),
{
    let n = val.len();
    proof {
        assert(off@[0] <= off@[k as int] && off@[k + 1] <= off@[n as int]);
    }
    let lo = off[k] as usize;
    let hi = off[k + 1] as usize;
    let v = val[k];
    if v == WIN {
        let mut best: Option<u32> = None;
        let mut j = lo;
        while j < hi
            invariant
                lo <= j <= hi,
                lo == off@[k as int],
                hi == off@[k + 1],
                hi <= children.len(),
                n == val.len(),
                n == dist.len(),
                spec_graph_wf(n as int, children@, off@),
                best is None ==> forall|t: int| lo <= t < j ==> val@[#[trigger] children@[t] as int] != LOSS,
                best matches Some(m) ==> (exists|t: int| lo <= t < j && val@[children@[t] as int] == LOSS && m == dist@[children@[t] as int])
                    && forall|t: int| lo <= t < j && val@[#[trigger] children@[t] as int] == LOSS ==> m <= dist@[children@[t] as int],
            decreases hi - j,
        {
            let c = children[j] as usize;
            proof {
                assert(children@[j as int] < n);
            }
            if val[c] == LOSS {
                let dc = dist[c];
                match best {
                    Some(m) => {
                        if dc < m {
                            best = Some(dc);
                        }
                    },
                    None => {
                        best = Some(dc);
                    },
                }
            }
            j += 1;
        }
        match best {
            Some(m) => {
                if m == u32::MAX {
                    return Err(());
                }
                Ok(Some(m + 1))
            },
            None => Ok(None),
        }
    } else if v == LOSS {
        let mut best: Option<u32> = None;
        let mut j = lo;
        while j < hi
            invariant
                lo <= j <= hi,
                lo == off@[k as int],
                hi == off@[k + 1],
                hi <= children.len(),
                n == val.len(),
                n == dist.len(),
                spec_graph_wf(n as int, children@, off@),
                best is None <==> j == lo,
                best matches Some(m) ==> (exists|t: int| lo <= t < j && m == dist@[children@[t] as int])
                    && forall|t: int| lo <= t < j ==> dist@[#[trigger] children@[t] as int] <= m,
            decreases hi - j,
        {
            let c = children[j] as usize;
            proof {
                assert(children@[j as int] < n);
            }
            let dc = dist[c];
            match best {
                Some(m) => {
                    if dc > m {
                        best = Some(dc);
                    }
                },
                None => {
                    best = Some(dc);
                },
            }
            j += 1;
        }
        match best {
            Some(m) => {
                if m == u32::MAX {
                    return Err(());
                }
                Ok(Some(m + 1))
            },
            None => Ok(None),
        }
    } else {
        Ok(None)
    }
}

/// Exact distances by relaxation to a fixed point, in node order; `None`
/// when a distance would not fit in a `u32` or the passes exceed
/// `n * n + 1`.
pub fn solve_distances(val: &Vec<u8>, children: &Vec<u32>, off: &Vec<u32>) -> (r: Option<Vec<u32>>)
    requires
        spec_graph_wf(val.len() as int, children@, off@),
        val.len() < u32::MAX,
    ensures
        r matches Some(dist) ==> spec_dists_solved(val@, dist@, children@, off@),
        (forall|k: int| 0 <= k < val.len() ==> !#[trigger] spec_has_target(val@, children@, off@, k)) ==> (r matches Some(dist)
            && forall|k: int| 0 <= k < val.len() ==> #[trigger] dist@[k] == 0),
{
    let n = val.len();
    let ghost no_target = forall|k: int| 0 <= k < val.len() ==> !#[trigger] spec_has_target(val@, children@, off@, k);
    let mut dist: Vec<u32> = Vec::new();
    let mut i: usize = 0;
    while i < n
        invariant
            i <= n,
            dist.len() == i,
            forall|x: int| 0 <= x < i ==> #[trigger] dist@[x] == 0,
        decreases n - i,
    {
        dist.push(0);
        i += 1;
    }
    let nn = n as u64;
    proof {
        assert(nn * nn <= 0xffff_ffffu64 * 0xffff_ffffu64) by (nonlinear_arith)
            requires nn <= 0xffff_ffffu64;
    }
    let cap: u64 = nn * nn + 1;
    let mut rounds: u64 = 0;
    loop
        invariant_except_break
            no_target ==> rounds == 0,
        invariant
            n == val.len(),
            n < u32::MAX,
            dist.len() == n,
            spec_graph_wf(n as int, children@, off@),
            forall|x: int| 0 <= x < n && !spec_has_target(val@, children@, off@, x) ==> #[trigger] dist@[x] == 0,
            rounds <= cap,
            cap >= 1,
            no_target == forall|k: int| 0 <= k < val.len() ==> !#[trigger] spec_has_target(val@, children@, off@, k),
        ensures
            dist.len() == n,
            forall|x: int| 0 <= x < n ==> #[trigger] spec_dist_node(val@, dist@, children@, off@, x),
            no_target ==> forall|x: int| 0 <= x < n ==> #[trigger] dist@[x] == 0,
        decreases cap - rounds,
    {
        if rounds >= cap {
            return None;
        }
        rounds += 1;
        let ghost start = dist@;
        let mut changed = false;
        let mut k: usize = 0;
        while k < n
            invariant
                k <= n,
                n == val.len(),
                n < u32::MAX,
                dist.len() == n,
                spec_graph_wf(n as int, children@, off@),
                forall|x: int| 0 <= x < n && !spec_has_target(val@, children@, off@, x) ==> #[trigger] dist@[x] == 0,
                !changed ==> dist@ == start,
                !changed ==> forall|x: int| 0 <= x < k ==> #[trigger] spec_dist_node(val@, dist@, children@, off@, x),
                no_target == forall|k: int| 0 <= k < val.len() ==> !#[trigger] spec_has_target(val@, children@, off@, k),
                no_target ==> !changed,
            decreases n - k,
        {
            let rk = relaxed(val, &dist, children, off, k);
            proof {
                if no_target {
                    assert(!spec_has_target(val@, children@, off@, k as int));
                }
            }
            match rk {
                Err(()) => {
                    return None;
                },
                Ok(Some(d)) => {
                    if dist[k] != d {
                        dist.set(k, d);
                        changed = true;
                    }
                },
                Ok(None) => {},
            }
            k += 1;
        }
        if !changed {
            break;
        }
    }
    Some(dist)
}


// ---------------------------------------------------------------------
// Terminal classification and the closure
// ---------------------------------------------------------------------

/// Whether the pre-phase applies: at most three men, no pawns and no
/// castling rights (the halfmove clock does not matter).
/// The pre-phase applies to a board with contents `c`: at most three men,
/// no pawns, no castling rights.
pub open spec fn spec_detector_applies(c: Seq<u64>) -> bool {
    spec_popcount(spec_mask(c, None, None) as nat) <= 3 && spec_mask(c, None, Some(PieceType::Pawn)) == 0
        && c[spec_castling_index()] == 0
}

pub fn detector_applies(pos: &Position) -> (r: bool)
    ensures
        r == spec_detector_applies(pos.contents()),
{
    let board = pos.board();
    popcount(movegen::board_occupied(board)) <= 3 && movegen::board_pieces_pt(board, PieceType::Pawn) == 0
        && movegen::board_castling_rights(board) == 0
}

/// The terminal outcome of a board with contents `c` at clock 0.
pub open spec fn spec_classify(c: Seq<u64>) -> Option<Outcome> {
    let us = spec_side(c);
    spec_terminal_outcome(
        spec_mask(c, Some(us), Some(PieceType::Commoner)),
        spec_mask(c, Some(us.spec_flip()), Some(PieceType::Commoner)),
        spec_legal_moves(c).len() > 0,
        spec_checkers(c) != 0,
        0,
        spec_popcount(spec_mask(c, None, None) as nat),
    )
}

/// The region key of a board with contents `c`.
pub open spec fn spec_contents_region_key(c: Seq<u64>) -> Option<u32> {
    spec_region_key(Seq::new(64, |s: int| spec_piece_at(c, s)), spec_side(c))
}

/// The terminal rules of the position at clock 0: the rules of
/// `spec_terminal_outcome` without the fifty-move branch.
pub fn classify_terminal(pos: &Position) -> (r: Option<Outcome>)
    ensures
        r == spec_classify(pos.contents()),
{
    let board = pos.board();
    let us = pos.side_to_move();
    let them = us.flip();
    let mut moves: Vec<Move> = Vec::new();
    let mut state = movegen::state_new();
    pos.legal_moves_with_state(&mut moves, &mut state);
    terminal_outcome(
        movegen::board_commoners(board, us),
        movegen::board_commoners(board, them),
        moves.len() > 0,
        pos.in_check(),
        0,
        movegen::board_occupied(board),
    )
}

/// Why the closure or its fixpoint gave up.
#[derive(Debug, Clone, Copy)]
pub struct Abort {
    /// `"eval-budget"`, `"region-budget"`, `"stop"` or `"internal"`.
    pub reason: &'static str,
    pub evals: u64,
    pub region: usize,
}

/// A closed region with its values and distances. Node 0 is the root; the
/// children of node `k` are `children[off[k]..off[k + 1]]`.
#[derive(Debug)]
pub struct Analysis {
    pub region: usize,
    /// Child evaluations spent by the closure.
    pub evals: u64,
    pub keys: Vec<u32>,
    pub terminal: Vec<Option<Outcome>>,
    pub val: Vec<u8>,
    pub dist: Vec<u32>,
    pub children: Vec<u32>,
    pub off: Vec<u32>,
}

impl Analysis {
    /// The arrays describe one graph, and its values and distances solve
    /// their equations.
    pub open spec fn wf(self) -> bool {
        &&& self.region == self.keys.len()
        &&& 0 < self.region < u32::MAX
        &&& self.terminal.len() == self.region
        &&& spec_graph_wf(self.region as int, self.children@, self.off@)
        &&& spec_terminals_are_leaves(self.terminal@, self.off@)
        &&& spec_values_solved(self.terminal@, self.val@, self.children@, self.off@)
        &&& spec_dists_solved(self.val@, self.dist@, self.children@, self.off@)
    }

    /// The root's outcome for its side to move.
    pub fn root_outcome(&self) -> (r: Outcome)
        requires
            self.wf(),
        ensures
            r == (if self.val@[0] == WIN { Outcome::Win } else if self.val@[0] == LOSS { Outcome::Loss } else { Outcome::Draw }),
    {
        let v = self.val[0];
        if v == WIN {
            Outcome::Win
        } else if v == LOSS {
            Outcome::Loss
        } else {
            Outcome::Draw
        }
    }

    /// The root's exact distance to the end.
    pub fn root_rank(&self) -> (r: u32)
        requires
            self.wf(),
        ensures
            r == self.dist@[0],
    {
        self.dist[0]
    }
}

/// Close the region reachable from `root` (breadth first, one child
/// evaluation per move) and solve it. Gives up with `"eval-budget"` once
/// the evaluations reach `eval_budget`, with `"region-budget"` once more
/// than `region_budget` positions are known, with `"stop"` when the stop
/// flag is raised, and with `"internal"` where a key or a count leaves its
/// range.
pub fn analyze(root: &Position, eval_budget: u64, stop: &Option<Arc<AtomicBool>>, region_budget: usize) -> (r: Result<
    Analysis,
    Abort,
>)
    requires
        root.wf(),
    ensures
        r matches Ok(a) ==> a.wf() && (a.region <= region_budget || a.region == 1) && (a.evals == 0 || a.evals < eval_budget),
        r matches Err(e) ==> e.reason@ == "eval-budget"@ || e.reason@ == "region-budget"@ || e.reason@ == "stop"@
            || e.reason@ == "internal"@,
        r matches Err(e) ==> (e.reason@ == "eval-budget"@ ==> e.evals >= eval_budget),
        r matches Err(e) ==> (e.reason@ == "region-budget"@ ==> e.region > region_budget),
        r matches Err(e) ==> (e.reason@ == "stop"@ ==> stop is Some),
        spec_region_key(Seq::new(64, |s: int| spec_piece_at(root.contents(), s)), spec_side(root.contents())) is None ==> (r matches Err(
            e,
        ) && e.reason@ == "internal"@ && e.evals == 0),
{
    proof {
        reveal_strlit("internal");
        reveal_strlit("eval-budget");
        reveal_strlit("region-budget");
        reveal_strlit("stop");
        assert("internal"@.len() != "eval-budget"@.len());
        assert("stop"@.len() != "eval-budget"@.len());
        assert("region-budget"@.len() != "eval-budget"@.len());
        assert("internal"@.len() != "region-budget"@.len());
        assert("stop"@.len() != "region-budget"@.len());
        assert("eval-budget"@.len() != "region-budget"@.len());
        assert("stop"@.len() != "internal"@.len());
    }
    let root_key = match region_key(root) {
        Some(k) => k,
        None => {
            return Err(Abort { reason: "internal", evals: 0, region: 0 });
        },
    };
    let mut keys: Vec<u32> = Vec::new();
    keys.push(root_key);
    let mut index: HashMap<u32, u32> = HashMap::new();
    index.insert(root_key, 0);
    let mut terminal: Vec<Option<Outcome>> = Vec::new();
    terminal.push(classify_terminal(root));
    let mut children: Vec<u32> = Vec::new();
    let mut off: Vec<u32> = Vec::new();
    off.push(0);
    let mut evals: u64 = 0;
    let mut reason: &'static str = "";
    let mut aborted = false;
    let mut qi: usize = 0;
    while qi < keys.len()
        invariant
            "internal"@ != "eval-budget"@ && "stop"@ != "eval-budget"@ && "region-budget"@ != "eval-budget"@,
            0 < keys.len() < u32::MAX - 1,
            children.len() < u32::MAX - 1,
            keys.len() == terminal.len(),
            qi <= keys.len(),
            off.len() == qi + 1,
            off@[0] == 0,
            off@[qi as int] == children.len(),
            forall|a: int, b: int| 0 <= a <= b <= qi ==> #[trigger] off@[a] <= #[trigger] off@[b],
            forall|j: int| 0 <= j < children.len() ==> #[trigger] children@[j] < keys.len(),
            forall|x: int| 0 <= x < qi && (#[trigger] terminal@[x]) is Some ==> off@[x] == off@[x + 1],
            forall|k: u32| index@.contains_key(k) ==> #[trigger] index@[k] < keys.len(),
            !aborted ==> evals == 0 || evals < eval_budget,
            !aborted ==> keys.len() <= region_budget || keys.len() == 1,
            aborted ==> reason@ == "eval-budget"@ || reason@ == "region-budget"@ || reason@ == "stop"@ || reason@ == "internal"@,
            aborted && reason@ == "eval-budget"@ ==> evals >= eval_budget,
            aborted && reason@ == "region-budget"@ ==> keys.len() > region_budget,
            aborted && reason@ == "stop"@ ==> stop is Some,
            "stop"@ != "region-budget"@ && "internal"@ != "region-budget"@ && "eval-budget"@ != "region-budget"@,
            "stop"@ != "internal"@,
        ensures
            !aborted ==> qi >= keys.len(),
            aborted ==> reason@ == "eval-budget"@ || reason@ == "region-budget"@ || reason@ == "stop"@ || reason@ == "internal"@,
            aborted && reason@ == "eval-budget"@ ==> evals >= eval_budget,
            aborted && reason@ == "region-budget"@ ==> keys.len() > region_budget,
            aborted && reason@ == "stop"@ ==> stop is Some,
            !aborted ==> evals == 0 || evals < eval_budget,
            !aborted ==> keys.len() <= region_budget || keys.len() == 1,
            off.len() == qi + 1,
            off@[0] == 0,
            off@[qi as int] == children.len(),
            forall|a: int, b: int| 0 <= a <= b <= qi ==> #[trigger] off@[a] <= #[trigger] off@[b],
            forall|j: int| 0 <= j < children.len() ==> #[trigger] children@[j] < keys.len(),
            forall|x: int| 0 <= x < qi && (#[trigger] terminal@[x]) is Some ==> off@[x] == off@[x + 1],
            0 < keys.len() < u32::MAX - 1,
            keys.len() == terminal.len(),
            qi <= keys.len(),
        decreases u32::MAX - qi,
    {
        if !aborted && flag_raised(stop) {
            aborted = true;
            reason = "stop";
        }
        if aborted {
            break;
        }
        let idx = qi;
        qi += 1;
        if terminal[idx].is_some() {
            off.push(children.len() as u32);
            proof {
                assert forall|a: int, b: int| 0 <= a <= b <= qi implies #[trigger] off@[a] <= #[trigger] off@[b] by {
                    if b == qi && a < qi {
                        assert(off@[a] <= off@[qi - 1]);
                    }
                }
            }
            continue;
        }
        let board = match board_from_key(keys[idx]) {
            Some(p) => p,
            None => {
                aborted = true;
                reason = "internal";
                off.push(children.len() as u32);
                break;
            },
        };
        let moves = board.legal_moves_vec();
        let ghost children_before = children.len();
        let ghost keys_before = keys.len();
        let ghost terminal_before = terminal@;
        let mut i: usize = 0;
        while i < moves.len()
            invariant_except_break
                !aborted,
            invariant
                "internal"@ != "eval-budget"@ && "stop"@ != "eval-budget"@ && "region-budget"@ != "eval-budget"@,
                0 < keys.len() < u32::MAX - 1,
                children.len() < u32::MAX - 1,
                keys.len() == terminal.len(),
                children.len() >= children_before,
                keys.len() >= keys_before,
                terminal.len() >= terminal_before.len(),
                forall|x: int| 0 <= x < terminal_before.len() ==> #[trigger] terminal@[x] == terminal_before[x],
                board.wf(),
                i <= moves.len(),
                moves.len() == board.legal_codes().len(),
                forall|j: int| 0 <= j < moves.len() ==> #[trigger] moves@[j]@ == board.legal_codes()[j],
                forall|j: int| 0 <= j < children.len() ==> #[trigger] children@[j] < keys.len(),
                forall|k: u32| index@.contains_key(k) ==> #[trigger] index@[k] < keys.len(),
                !aborted ==> evals == 0 || evals < eval_budget,
                aborted ==> reason@ == "eval-budget"@ || reason@ == "internal"@,
                aborted && reason@ == "eval-budget"@ ==> evals >= eval_budget,
            ensures
                !aborted ==> evals == 0 || evals < eval_budget,
                aborted ==> reason@ == "eval-budget"@ || reason@ == "internal"@,
                aborted && reason@ == "eval-budget"@ ==> evals >= eval_budget,
                0 < keys.len() < u32::MAX - 1,
                children.len() < u32::MAX - 1,
                keys.len() == terminal.len(),
                children.len() >= children_before,
                keys.len() >= keys_before,
                terminal.len() >= terminal_before.len(),
                forall|x: int| 0 <= x < terminal_before.len() ==> #[trigger] terminal@[x] == terminal_before[x],
                forall|j: int| 0 <= j < children.len() ==> #[trigger] children@[j] < keys.len(),
                forall|k: u32| index@.contains_key(k) ==> #[trigger] index@[k] < keys.len(),
            decreases moves.len() - i,
        {
            evals += 1;
            if evals >= eval_budget {
                aborted = true;
                reason = "eval-budget";
                break;
            }
            let mut child = board.clone();
            proof {
                lemma_listed_is_legal(board, moves@, i as int);
            }
            child.do_move(moves[i]);
            let ck = match region_key(&child) {
                Some(k) => k,
                None => {
                    break;
                },
            };
            if children.len() >= (u32::MAX - 2) as usize {
                aborted = true;
                reason = "internal";
                break;
            }
            let cid: u32 = match index.get(&ck) {
                Some(c) => *c,
                None => {
                    if keys.len() >= (u32::MAX - 2) as usize {
                        aborted = true;
                        reason = "internal";
                        break;
                    }
                    let child_board = match board_from_key(ck) {
                        Some(p) => p,
                        None => {
                            aborted = true;
                            reason = "internal";
                            break;
                        },
                    };
                    let t = classify_terminal(&child_board);
                    let nid = keys.len() as u32;
                    keys.push(ck);
                    terminal.push(t);
                    index.insert(ck, nid);
                    nid
                },
            };
            children.push(cid);
            i += 1;
        }
        off.push(children.len() as u32);
        proof {
            assert forall|a: int, b: int| 0 <= a <= b <= qi implies #[trigger] off@[a] <= #[trigger] off@[b] by {
                if b == qi && a < qi {
                    assert(off@[a] <= off@[qi - 1]);
                }
            }
        }
        if aborted {
            break;
        }
        if keys.len() > region_budget {
            aborted = true;
            reason = "region-budget";
        }
    }
    let region = keys.len();
    if aborted {
        return Err(Abort { reason, evals, region });
    }
    proof {
        assert(qi == keys.len());
    }
    let val = solve_values(&terminal, &children, &off);
    let dist = match solve_distances(&val, &children, &off) {
        Some(d) => d,
        None => {
            return Err(Abort { reason: "internal", evals, region });
        },
    };
    Ok(Analysis { region, evals, keys, terminal, val, dist, children, off })
}


// ---------------------------------------------------------------------
// The winning strategy and the principal line
// ---------------------------------------------------------------------

/// Node `c` is a child of node `x`.
pub open spec fn spec_is_kid(a: Analysis, x: int, c: int) -> bool {
    exists|j: int| a.off@[x] <= j < a.off@[x + 1] && a.children@[j] as int == c
}

/// A won, non-terminal node `x` moves to `c`, a losing child exactly one
/// step nearer the end.
pub open spec fn spec_strategy_step(a: Analysis, x: int, c: int) -> bool {
    &&& 0 <= x < a.region
    &&& 0 <= c < a.region
    &&& a.terminal@[x] is None
    &&& a.val@[x] == WIN
    &&& a.val@[c] == LOSS
    &&& a.dist@[c] + 1 == a.dist@[x]
    &&& spec_is_kid(a, x, c)
}

/// Every entry of `m` maps the key of a won node to the key of a losing
/// child one step nearer the end.
pub open spec fn spec_strategy_sound(a: Analysis, m: Map<u32, u32>) -> bool {
    forall|k: u32|
        #![trigger m.contains_key(k)]
        m.contains_key(k) ==> exists|x: int, c: int|
            a.keys@[x] == k && a.keys@[c] == m[k] && spec_strategy_step(a, x, c)
}

/// The first child of a won node `x` that loses one step nearer the end.
fn rank_child(a: &Analysis, x: usize) -> (r: Option<usize>)
    requires
        a.wf(),
        x < a.region,
        a.terminal@[x as int] is None,
        a.val@[x as int] == WIN,
    ensures
        r is Some,
        r matches Some(c) ==> spec_strategy_step(*a, x as int, c as int),
        r matches Some(c) ==> exists|j: int| a.off@[x as int] <= j < a.off@[x + 1] && a.children@[j] as int == c && forall|t: int|
            a.off@[x as int] <= t < j ==> !(a.val@[#[trigger] a.children@[t] as int] == LOSS && a.dist@[a.children@[t] as int] + 1
                == a.dist@[x as int]),
{
    let n = a.region;
    proof {
        assert(a.off@[0] <= a.off@[x as int] && a.off@[x + 1] <= a.off@[n as int]);
        assert(spec_value_solved(a.terminal@, a.val@, a.children@, a.off@, x as int));
        assert(spec_dist_node(a.val@, a.dist@, a.children@, a.off@, x as int));
    }
    let lo = a.off[x] as usize;
    let hi = a.off[x + 1] as usize;
    let rank = a.dist[x] as u64;
    let mut j = lo;
    while j < hi
        invariant
            lo <= j <= hi,
            lo == a.off@[x as int],
            hi == a.off@[x + 1],
            hi <= a.children.len(),
            a.wf(),
            n == a.region,
            x < n,
            a.terminal@[x as int] is None,
            a.val@[x as int] == WIN,
            rank == a.dist@[x as int],
            exists|t: int| j <= t < hi && a.val@[a.children@[t] as int] == LOSS && a.dist@[x as int] == a.dist@[a.children@[t] as int] + 1,
            forall|t: int| lo <= t < j ==> !(a.val@[#[trigger] a.children@[t] as int] == LOSS && a.dist@[a.children@[t] as int] + 1
                == a.dist@[x as int]),
        decreases hi - j,
    {
        let c = a.children[j] as usize;
        proof {
            assert(a.children@[j as int] < n);
        }
        if a.val[c] == LOSS && (a.dist[c] as u64) + 1 == rank {
            proof {
                assert(spec_is_kid(*a, x as int, c as int));
                assert(a.children@[j as int] as int == c);
            }
            return Some(c);
        }
        j += 1;
    }
    proof {
        assert(false);
    }
    None
}

fn collect_strategy(a: &Analysis, idx: usize, strategy: &mut HashMap<u32, u32>) -> (ok: bool)
    requires
        a.wf(),
        idx < a.region,
        spec_strategy_sound(*a, old(strategy)@),
    ensures
        spec_strategy_sound(*a, final(strategy)@),
        ok <==> (a.terminal@[idx as int] is Some || a.val@[idx as int] == WIN || a.val@[idx as int] == LOSS),
        forall|k: u32| #[trigger] old(strategy)@.contains_key(k) ==> final(strategy)@.contains_key(k),
        ok && a.terminal@[idx as int] is None && a.val@[idx as int] == WIN ==> final(strategy)@.contains_key(a.keys@[idx as int]),
        a.terminal@[idx as int] is Some ==> final(strategy)@ == old(strategy)@,
    decreases a.dist@[idx as int],
{
    let n = a.region;
    if a.terminal[idx].is_some() {
        return true;
    }
    proof {
        assert(spec_value_solved(a.terminal@, a.val@, a.children@, a.off@, idx as int));
        assert(spec_dist_node(a.val@, a.dist@, a.children@, a.off@, idx as int));
        assert(a.off@[0] <= a.off@[idx as int] && a.off@[idx + 1] <= a.off@[n as int]);
    }
    let v = a.val[idx];
    if v == WIN {
        match rank_child(a, idx) {
            None => false,
            Some(c) => {
                let ghost before = strategy@;
                strategy.insert(a.keys[idx], a.keys[c]);
                proof {
                    assert forall|k: u32| #![trigger strategy@.contains_key(k)] strategy@.contains_key(k) implies exists|x: int, y: int|
                        a.keys@[x] == k && a.keys@[y] == strategy@[k] && spec_strategy_step(*a, x, y) by {
                        if k == a.keys@[idx as int] {
                            assert(a.keys@[idx as int] == k && a.keys@[c as int] == strategy@[k] && spec_strategy_step(*a, idx as int, c as int));
                        } else {
                            assert(before.contains_key(k));
                        }
                    }
                }
                let ghost mid = strategy@;
                let ok = collect_strategy(a, c, strategy);
                proof {
                    assert(mid.contains_key(a.keys@[idx as int]));
                    assert forall|k: u32| #[trigger] old(strategy)@.contains_key(k) implies strategy@.contains_key(k) by {
                        assert(mid.contains_key(k));
                    }
                }
                ok
            },
        }
    } else if v == LOSS {
        let lo = a.off[idx] as usize;
        let hi = a.off[idx + 1] as usize;
        let mut j = lo;
        while j < hi
            invariant
                lo <= j <= hi,
                lo == a.off@[idx as int],
                hi == a.off@[idx + 1],
                hi <= a.children.len(),
                a.wf(),
                n == a.region,
                idx < n,
                a.terminal@[idx as int] is None,
                a.val@[idx as int] == LOSS,
                spec_target_is(a.val@, a.dist@, a.children@, a.off@, idx as int, a.dist@[idx as int] as int),
                spec_strategy_sound(*a, strategy@),
                spec_all_kids_win(a.val@, a.children@, a.off@, idx as int),
                forall|k: u32| #[trigger] old(strategy)@.contains_key(k) ==> strategy@.contains_key(k),
            decreases hi - j,
        {
            let c = a.children[j] as usize;
            proof {
                assert(a.children@[j as int] < n);
                assert(a.dist@[a.children@[j as int] as int] + 1 <= a.dist@[idx as int]);
                assert(a.val@[a.children@[j as int] as int] == WIN);
            }
            let ghost mid = strategy@;
            if !collect_strategy(a, c, strategy) {
                return false;
            }
            proof {
                assert forall|k: u32| #[trigger] old(strategy)@.contains_key(k) implies strategy@.contains_key(k) by {
                    assert(mid.contains_key(k));
                }
            }
            j += 1;
        }
        true
    } else {
        false
    }
}

/// The winner's strategy over the reachable decided region: at every won
/// node the first losing child one step nearer the end, every reply of
/// every lost node covered; `None` when some reachable node has no such
/// move or is drawn.
pub fn build_strategy(a: &Analysis) -> (r: Option<HashMap<u32, u32>>)
    requires
        a.wf(),
    ensures
        r matches Some(m) ==> spec_strategy_sound(*a, m@),
        r is None <==> a.terminal@[0] is None && a.val@[0] != WIN && a.val@[0] != LOSS,
        a.terminal@[0] is Some ==> (r matches Some(m) && m@ == Map::<u32, u32>::empty()),
        a.terminal@[0] is None && a.val@[0] == WIN ==> (r matches Some(m) && m@.contains_key(a.keys@[0])),
{
    let mut strategy: HashMap<u32, u32> = HashMap::new();
    proof {
        assert(strategy@ =~= Map::<u32, u32>::empty());
    }
    if collect_strategy(a, 0, &mut strategy) {
        Some(strategy)
    } else {
        None
    }
}

/// One step of a principal line: from a non-terminal node to a child one
/// step nearer the end, a losing child at a won node.
pub open spec fn spec_line_step(a: Analysis, x: int, c: int) -> bool {
    &&& 0 <= x < a.region
    &&& a.terminal@[x] is None
    &&& spec_is_kid(a, x, c)
    &&& a.dist@[c] + 1 == a.dist@[x]
    &&& a.val@[x] == WIN ==> a.val@[c] == LOSS
}

/// `line` is the keys of the nodes after the root along `ns`, a chain of
/// principal steps from the root to a terminal node.
pub open spec fn spec_principal_nodes(a: Analysis, ns: Seq<int>, line: Seq<u32>) -> bool {
    &&& ns.len() == line.len() + 1
    &&& ns[0] == 0
    &&& 0 <= ns.last() < a.region
    &&& a.terminal@[ns.last()] is Some
    &&& forall|k: int| 0 <= k < line.len() ==> #[trigger] spec_line_step(a, ns[k], ns[k + 1]) && line[k] == a.keys@[ns[k + 1]]
}

/// `line` follows principal steps from the root to a terminal node.
pub open spec fn spec_is_principal_line(a: Analysis, line: Seq<u32>) -> bool {
    exists|ns: Seq<int>| #[trigger] spec_principal_nodes(a, ns, line)
}

/// The principal line from the root, as the keys of the positions after
/// each move: at won nodes the first losing child one step nearer the
/// end, at lost nodes the first child of the longest resistance. Its
/// length is the root's distance.
pub fn principal_line(a: &Analysis) -> (r: Option<Vec<u32>>)
    requires
        a.wf(),
    ensures
        r matches Some(line) ==> line.len() == a.dist@[0],
        r is None <==> a.terminal@[0] is None && a.val@[0] != WIN && a.val@[0] != LOSS,
        r matches Some(line) ==> spec_is_principal_line(*a, line@),
{
    let n = a.region;
    let mut line: Vec<u32> = Vec::new();
    let mut cur: usize = 0;
    let ghost mut ns: Seq<int> = seq![0int];
    let ghost root_ok = a.terminal@[0] is Some || a.val@[0] == WIN || a.val@[0] == LOSS;
    while a.terminal[cur].is_none()
        invariant
            a.wf(),
            n == a.region,
            cur < n,
            line.len() + a.dist@[cur as int] == a.dist@[0],
            ns.len() == line.len() + 1,
            ns[0] == 0,
            ns.last() == cur as int,
            forall|k: int| 0 <= k < line.len() ==> #[trigger] spec_line_step(*a, ns[k], ns[k + 1]) && line@[k] == a.keys@[ns[k + 1]],
            root_ok == (a.terminal@[0] is Some || a.val@[0] == WIN || a.val@[0] == LOSS),
            root_ok ==> (a.terminal@[cur as int] is Some || a.val@[cur as int] == WIN || a.val@[cur as int] == LOSS),
            !root_ok ==> cur == 0,
        decreases a.dist@[cur as int],
    {
        proof {
            assert(spec_value_solved(a.terminal@, a.val@, a.children@, a.off@, cur as int));
            assert(spec_dist_node(a.val@, a.dist@, a.children@, a.off@, cur as int));
            assert(a.off@[0] <= a.off@[cur as int] && a.off@[cur + 1] <= a.off@[n as int]);
        }
        let v = a.val[cur];
        let next: usize = if v == WIN {
            match rank_child(a, cur) {
                Some(c) => c,
                None => {
                    return None;
                },
            }
        } else if v == LOSS {
            let lo = a.off[cur] as usize;
            let hi = a.off[cur + 1] as usize;
            let mut best = a.children[lo] as usize;
            proof {
                assert(a.children@[lo as int] < n);
            }
            let mut j = lo + 1;
            while j < hi
                invariant
                    lo < j <= hi,
                    lo == a.off@[cur as int],
                    hi == a.off@[cur + 1],
                    hi <= a.children.len(),
                    a.wf(),
                    n == a.region,
                    best < n,
                    exists|t: int| lo <= t < j && a.children@[t] as int == best,
                    forall|t: int| lo <= t < j ==> a.dist@[#[trigger] a.children@[t] as int] <= a.dist@[best as int],
                decreases hi - j,
            {
                let c = a.children[j] as usize;
                proof {
                    assert(a.children@[j as int] < n);
                }
                if a.dist[c] > a.dist[best] {
                    best = c;
                }
                j += 1;
            }
            proof {
                let t = choose|t: int| lo <= t < hi && a.dist@[cur as int] == a.dist@[a.children@[t] as int] + 1;
                assert(a.dist@[a.children@[t] as int] <= a.dist@[best as int]);
                let tb = choose|t: int| lo <= t < hi && a.children@[t] as int == best;
                assert(a.dist@[a.children@[tb] as int] + 1 <= a.dist@[cur as int]);
                assert(spec_all_kids_win(a.val@, a.children@, a.off@, cur as int));
                assert(a.val@[a.children@[tb] as int] == WIN);
            }
            best
        } else {
            return None;
        };
        proof {
            assert(spec_line_step(*a, cur as int, next as int));
        }
        line.push(a.keys[next]);
        proof {
            let ns0 = ns;
            ns = ns.push(next as int);
            assert forall|k: int| 0 <= k < line.len() implies #[trigger] spec_line_step(*a, ns[k], ns[k + 1]) && line@[k] == a.keys@[ns[k
                + 1]] by {
                if k < line.len() - 1 {
                    assert(ns[k] == ns0[k] && ns[k + 1] == ns0[k + 1]);
                }
            }
        }
        cur = next;
    }
    proof {
        assert(spec_principal_nodes(*a, ns, line@));
        assert(spec_is_principal_line(*a, line@));
    }
    proof {
        assert(spec_dist_node(a.val@, a.dist@, a.children@, a.off@, cur as int));
        assert(a.off@[cur as int] == a.off@[cur + 1]);
    }
    Some(line)
}

} // verus!
