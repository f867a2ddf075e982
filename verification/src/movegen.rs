//! Trusted interface to the `atomic-movegen` board.
//!
//! The board and its FEN error are declared as outside types. What a board
//! holds is named by [`spec_board_contents`], a sequence of plain values
//! (laid out as [`spec_piece_at`], [`spec_side`] and the index constants
//! below describe); every wrapper states its result over those contents,
//! and what the crate computes in pages (parsing, legal moves, the effect of
//! a move, attacks) is named over them. Each function below makes one call
//! into the crate and converts between its types and this library's plain
//! values; its contract is believed, not proved.

use vstd::prelude::*;

use crate::moves::{spec_well_formed, Color, Move, PieceType};

verus! {

#[verifier::external_type_specification]
#[verifier::external_body]
pub struct ExBoard(atomic_movegen::board::Board);

#[verifier::external_type_specification]
#[verifier::external_body]
pub struct ExStateInfo(atomic_movegen::board::StateInfo);

#[verifier::external_type_specification]
#[verifier::external_body]
pub struct ExFenError(atomic_movegen::board::FenError);

/// What a board holds, as plain values: entries `0..64` the piece code of
/// each square (a1 = 0; 0 empty, `1 + 6 * colour + type` otherwise, types
/// in the order of [`PieceType`]); then the side to move (0 white), the
/// castling-rights mask, the en-passant square (64 for none), the halfmove
/// clock, the game ply and the board's Zobrist key.
pub uninterp spec fn spec_board_contents(b: atomic_movegen::board::Board) -> Seq<u64>;

pub open spec fn spec_side_index() -> int {
    64
}

pub open spec fn spec_castling_index() -> int {
    65
}

pub open spec fn spec_rule50_index() -> int {
    67
}

pub open spec fn spec_game_ply_index() -> int {
    68
}

pub open spec fn spec_key_index() -> int {
    69
}

/// The piece type with index `t` in the order of [`PieceType`].
pub open spec fn spec_piece_type(t: int) -> PieceType {
    if t == 0 {
        PieceType::Pawn
    } else if t == 1 {
        PieceType::Knight
    } else if t == 2 {
        PieceType::Bishop
    } else if t == 3 {
        PieceType::Rook
    } else if t == 4 {
        PieceType::Queen
    } else {
        PieceType::Commoner
    }
}

/// The piece on square `s` of the contents `c`.
pub open spec fn spec_piece_at(c: Seq<u64>, s: int) -> Option<(Color, PieceType)> {
    let code = c[s];
    if code == 0 || code > 12 {
        None
    } else {
        let k = code - 1;
        Some((if k < 6 { Color::White } else { Color::Black }, spec_piece_type(k % 6)))
    }
}

/// The side to move of the contents `c`.
pub open spec fn spec_side(c: Seq<u64>) -> Color {
    if c[spec_side_index()] == 0 {
        Color::White
    } else {
        Color::Black
    }
}

/// Whether piece `p` is of colour `color` (any when `None`) and type `pt`
/// (any when `None`).
pub open spec fn spec_piece_matches(p: Option<(Color, PieceType)>, color: Option<Color>, pt: Option<PieceType>) -> bool {
    match p {
        Some((c, t)) => (color is None || color == Some(c)) && (pt is None || pt == Some(t)),
        None => false,
    }
}

/// The squares `s..64` of `c` holding a matching piece, as raw bits.
pub open spec fn spec_mask_from(c: Seq<u64>, color: Option<Color>, pt: Option<PieceType>, s: int) -> u64
    decreases 64 - s,
{
    if s < 0 || s >= 64 {
        0
    } else {
        let rest = spec_mask_from(c, color, pt, s + 1);
        if spec_piece_matches(spec_piece_at(c, s), color, pt) {
            rest | (1u64 << (s as u64))
        } else {
            rest
        }
    }
}

/// The squares of `c` holding a matching piece, as raw bits.
pub open spec fn spec_mask(c: Seq<u64>, color: Option<Color>, pt: Option<PieceType>) -> u64 {
    spec_mask_from(c, color, pt, 0)
}

/// What `Board::from_fen` builds from the text `fen`: the contents of the
/// board, or `None` when it refuses the text.
pub uninterp spec fn spec_parse_fen(fen: Seq<char>) -> Option<Seq<u64>>;

/// The legal moves of a board with contents `c`, as move codes in the
/// generator's order: what `movegen::generate_legal` lists when its
/// pseudo-legal stream fits the list, and what `movegen::has_legal_move`
/// walks without a list.
pub uninterp spec fn spec_generated_moves(c: Seq<u64>) -> Seq<u16>;

/// The most pseudo-legal moves the generator can emit for a piece `p` of
/// the side `side`: a pawn pushes or captures into up to three squares with
/// four promotion choices each, the sliders and leapers reach at most their
/// open-board counts, and another side's piece or an empty square adds none.
pub open spec fn spec_piece_move_bound(p: Option<(Color, PieceType)>, side: Color) -> nat {
    match p {
        Some((c, t)) => if c != side {
            0
        } else {
            match t {
                PieceType::Pawn => 12,
                PieceType::Knight => 8,
                PieceType::Bishop => 13,
                PieceType::Rook => 14,
                PieceType::Queen => 27,
                PieceType::Commoner => 8,
            }
        },
        None => 0,
    }
}

/// The move bounds of the side to move's pieces on squares `s..64`.
pub open spec fn spec_move_bound_from(c: Seq<u64>, s: int) -> nat
    decreases 64 - s,
{
    if s < 0 || s >= 64 {
        0
    } else {
        spec_piece_move_bound(spec_piece_at(c, s), spec_side(c)) + spec_move_bound_from(c, s + 1)
    }
}

/// A move can be generated and played here: the pseudo-legal moves (the
/// piece bounds and two castlings) fit the generator's 256-move list, and
/// neither the halfmove clock nor the game ply, both counted in 16 bits and
/// raised by every move, is at its maximum.
pub open spec fn spec_move_room(c: Seq<u64>) -> bool {
    &&& spec_move_bound_from(c, 0) + 2 <= 256
    &&& c[spec_rule50_index()] < 65535
    &&& c[spec_game_ply_index()] < 65535
}

/// The moves this library generates and plays on a board with contents
/// `c`: the generator's legal moves where there is room for a move, and
/// none elsewhere.
pub open spec fn spec_legal_moves(c: Seq<u64>) -> Seq<u16> {
    if spec_move_room(c) {
        spec_generated_moves(c)
    } else {
        Seq::empty()
    }
}

/// The contents of a board with contents `c` after `Board::do_move` of the
/// move with code `m`.
pub uninterp spec fn spec_after_move(c: Seq<u64>, m: u16) -> Seq<u64>;

/// The FEN text `Board::fen` writes for a board with contents `c`.
pub uninterp spec fn spec_board_fen(c: Seq<u64>) -> Seq<char>;

/// What `Board::is_capture` says of the move with code `m`.
pub uninterp spec fn spec_is_capture(c: Seq<u64>, m: u16) -> bool;

/// What `Board::attackers_to` returns for `sq` with occupancy `occupied`.
pub uninterp spec fn spec_attackers_to(c: Seq<u64>, sq: u16, occupied: u64) -> u64;

/// What `Board::checkers` returns: the enemy pieces giving check to the side
/// to move's commoner.
pub uninterp spec fn spec_checkers(c: Seq<u64>) -> u64;

/// Whether `ch` is an ASCII digit.
pub open spec fn spec_is_digit(ch: char) -> bool {
    '0' <= ch && ch <= '9'
}

/// The value of the run of ASCII digits that ends just before position `j`
/// of `s`, held at 32768.
pub open spec fn spec_digit_run(s: Seq<char>, j: int) -> int
    decreases j,
{
    if j <= 0 || j > s.len() || !spec_is_digit(s[j - 1]) {
        0
    } else {
        let v = spec_digit_run(s, j - 1) * 10 + (s[j - 1] as int - '0' as int);
        if v > 32768 {
            32768
        } else {
            v
        }
    }
}

/// The last run of ASCII digits in `s` (the fullmove number of a FEN with
/// six fields) reads below 32768.
pub open spec fn spec_fullmove_small(s: Seq<char>) -> bool {
    forall|j: int|
        1 <= j <= s.len() && spec_is_digit(s[j - 1]) && (forall|k: int| j <= k < s.len() ==> !spec_is_digit(#[trigger] s[k]))
            ==> #[trigger] spec_digit_run(s, j) <= 32767
}

/// `Board::from_fen`: parses a FEN string. The crate reads the sixth field,
/// the last one, as a `u16` fullmove number and computes the game ply as
/// `2 * (fullmove - 1) + 1 or 2` in a `u16`, which overflows from 32768 on;
/// the field's digits are the last digit run of the text, so a text whose
/// last digit run reads below 32768 keeps the fullmove number below that.
#[verifier::external_body]
pub(crate) fn board_from_fen(fen: &str) -> (r: Result<atomic_movegen::board::Board, atomic_movegen::board::FenError>)
    requires
        spec_fullmove_small(fen@),
    ensures
        match r {
            Ok(b) => spec_parse_fen(fen@) == Some(spec_board_contents(b)),
            Err(_) => spec_parse_fen(fen@) is None,
        },
{
    atomic_movegen::board::Board::from_fen(fen)
}

/// The `Display` text of a `FenError` (through `format!`).
#[verifier::external_body]
pub(crate) fn fen_error_message(e: &atomic_movegen::board::FenError) -> (r: String) {
    format!("{e}")
}

/// The FEN of the standard start position.
pub const STARTPOS_FEN: &'static str = "rnbqkbnr/pppppppp/8/8/8/8/PPPPPPPP/RNBQKBNR w KQkq - 0 1";

/// `Board::new`: the standard atomic start position, which the crate builds
/// by parsing the start FEN.
#[verifier::external_body]
pub(crate) fn board_startpos() -> (r: atomic_movegen::board::Board)
    ensures
        spec_parse_fen(STARTPOS_FEN@) == Some(spec_board_contents(r)),
{
    atomic_movegen::board::Board::new()
}

/// `Board::clone`: an independent copy of the board, with the same contents.
#[verifier::external_body]
pub(crate) fn board_clone(b: &atomic_movegen::board::Board) -> (r: atomic_movegen::board::Board)
    ensures
        spec_board_contents(r) == spec_board_contents(*b),
{
    b.clone()
}

/// `Board::hash`: the board's Zobrist key as the board keeps it.
#[verifier::external_body]
pub(crate) fn board_hash(b: &atomic_movegen::board::Board) -> (r: u64)
    ensures
        r == spec_board_contents(*b)[spec_key_index()],
{
    b.hash()
}

/// `Board::rule50`: the halfmove clock.
#[verifier::external_body]
pub(crate) fn board_rule50(b: &atomic_movegen::board::Board) -> (r: u16)
    ensures
        r == spec_board_contents(*b)[spec_rule50_index()],
{
    b.rule50()
}

/// `Board::side_to_move`, converted to this library's `Color`.
#[verifier::external_body]
pub(crate) fn board_side_to_move(b: &atomic_movegen::board::Board) -> (r: Color)
    ensures
        r == spec_side(spec_board_contents(*b)),
{
    match b.side_to_move() {
        atomic_movegen::types::Color::White => Color::White,
        _ => Color::Black,
    }
}

/// `Board::commoners`: the squares holding `c`'s commoners, as raw bits.
#[verifier::external_body]
pub(crate) fn board_commoners(b: &atomic_movegen::board::Board, c: Color) -> (r: u64)
    ensures
        r == spec_mask(spec_board_contents(*b), Some(c), Some(PieceType::Commoner)),
{
    let color = match c {
        Color::White => atomic_movegen::types::Color::White,
        Color::Black => atomic_movegen::types::Color::Black,
    };
    b.commoners(color).0
}

/// `Board::occupied`: all occupied squares, as raw bits.
#[verifier::external_body]
pub(crate) fn board_occupied(b: &atomic_movegen::board::Board) -> (r: u64)
    ensures
        r == spec_mask(spec_board_contents(*b), None, None),
{
    b.occupied().0
}

/// `Board::fen`: the FEN text of the board.
#[verifier::external_body]
pub(crate) fn board_fen(b: &atomic_movegen::board::Board) -> (r: String)
    ensures
        r@ == spec_board_fen(spec_board_contents(*b)),
{
    b.fen()
}

/// `Board::piece_on` for square index `sq` (0 = a1 .. 63 = h8), converted to
/// a colour and piece type; `None` for an empty square.
#[verifier::external_body]
pub(crate) fn board_piece_on(b: &atomic_movegen::board::Board, sq: u16) -> (r: Option<(Color, PieceType)>)
    requires
        sq < 64,
    ensures
        r == spec_piece_at(spec_board_contents(*b), sq as int),
{
    let p = b.piece_on(atomic_movegen::types::Square::from_u8(sq as u8));
    let color = match p.color() {
        Some(atomic_movegen::types::Color::White) => Color::White,
        _ => Color::Black,
    };
    match p.type_of() {
        Some(atomic_movegen::types::PieceType::Pawn) => Some((color, PieceType::Pawn)),
        Some(atomic_movegen::types::PieceType::Knight) => Some((color, PieceType::Knight)),
        Some(atomic_movegen::types::PieceType::Bishop) => Some((color, PieceType::Bishop)),
        Some(atomic_movegen::types::PieceType::Rook) => Some((color, PieceType::Rook)),
        Some(atomic_movegen::types::PieceType::Queen) => Some((color, PieceType::Queen)),
        Some(_) => Some((color, PieceType::Commoner)),
        None => None,
    }
}

/// `StateInfo::new`: an empty state record.
#[verifier::external_body]
pub(crate) fn state_new() -> (r: atomic_movegen::board::StateInfo) {
    atomic_movegen::board::StateInfo::new()
}

/// `Board::populate_state`: fills the checkers/pins/commoner counts of `st`.
#[verifier::external_body]
pub(crate) fn board_populate_state(b: &atomic_movegen::board::Board, st: &mut atomic_movegen::board::StateInfo) {
    b.populate_state(st)
}

/// `Board::checkers`: the enemy pieces giving check, as raw bits.
#[verifier::external_body]
pub(crate) fn board_checkers(b: &atomic_movegen::board::Board) -> (r: u64)
    ensures
        r == spec_checkers(spec_board_contents(*b)),
{
    b.checkers().0
}

/// `Board::do_move` of a legal move: the board takes the contents the move
/// leads to. The crate reads the piece on the origin square and unwraps
/// its type, so the move must be one of the board's legal moves, and it
/// adds one to the 16-bit halfmove clock and game ply, so neither may be at
/// its maximum (both are part of [`spec_move_room`]). The undo record it
/// fills is a scratch value here.
#[verifier::external_body]
pub(crate) fn board_do_move(b: &mut atomic_movegen::board::Board, m: Move)
    requires
        spec_legal_moves(spec_board_contents(*old(b))).contains(m@),
    ensures
        spec_board_contents(*final(b)) == spec_after_move(spec_board_contents(*old(b)), m@),
{
    let mut st = atomic_movegen::board::StateInfo::new();
    b.do_move(atomic_movegen::types::Move::from_bits(m.bits).unwrap_or(atomic_movegen::types::Move::NONE), &mut st)
}

/// `movegen::generate_legal`: the legal moves of the board, each converted
/// to its wire code. The generator emits only moves whose origin and
/// destination differ and whose promotion field is zero unless the move is
/// a promotion. It first collects the pseudo-legal moves into a list of 256
/// (a debug build asserts past that), so it is called only where the piece
/// bounds of [`spec_move_room`] keep that stream within 256.
#[verifier::external_body]
pub(crate) fn generate_legal(b: &atomic_movegen::board::Board) -> (r: Vec<Move>)
    requires
        spec_move_room(spec_board_contents(*b)),
    ensures
        forall|i: int| 0 <= i < r.len() ==> spec_well_formed(#[trigger] r@[i]@),
        r.len() == spec_generated_moves(spec_board_contents(*b)).len(),
        forall|i: int| 0 <= i < r.len() ==> #[trigger] r@[i]@ == spec_generated_moves(spec_board_contents(*b))[i],
        r.len() <= 256,
{
    let mut list = atomic_movegen::types::MoveList::new();
    atomic_movegen::movegen::generate_legal(b, &mut list);
    list.as_slice().iter().map(|m| Move { bits: m.to_bits() }).collect()
}

/// `movegen::has_legal_move`: whether the side to move has a legal move.
/// It walks the pseudo-legal stream without a list, and the crate documents
/// it as agreeing with `generate_legal`.
#[verifier::external_body]
pub(crate) fn has_legal_move(b: &atomic_movegen::board::Board) -> (r: bool)
    ensures
        r == (spec_generated_moves(spec_board_contents(*b)).len() > 0),
{
    atomic_movegen::movegen::has_legal_move(b)
}

/// `Board::game_ply`: the number of half-moves since the game's start.
#[verifier::external_body]
pub(crate) fn board_game_ply(b: &atomic_movegen::board::Board) -> (r: u16)
    ensures
        r == spec_board_contents(*b)[spec_game_ply_index()],
{
    b.game_ply()
}

/// Whether a move can be generated and played on `b` ([`spec_move_room`]).
pub fn move_room(b: &atomic_movegen::board::Board) -> (r: bool)
    ensures
        r == spec_move_room(spec_board_contents(*b)),
{
    let ghost c = spec_board_contents(*b);
    let side = board_side_to_move(b);
    let mut total: u32 = 0;
    let mut s: u16 = 64;
    while s > 0
        invariant
            s <= 64,
            c == spec_board_contents(*b),
            side == spec_side(c),
            total == spec_move_bound_from(c, s as int),
            total <= 27 * (64 - s),
        decreases s,
    {
        s -= 1;
        let w: u32 = match board_piece_on(b, s) {
            Some((col, t)) => {
                let mine = match (col, side) {
                    (Color::White, Color::White) => true,
                    (Color::Black, Color::Black) => true,
                    _ => false,
                };
                if !mine {
                    0
                } else {
                    match t {
                        PieceType::Pawn => 12,
                        PieceType::Knight => 8,
                        PieceType::Bishop => 13,
                        PieceType::Rook => 14,
                        PieceType::Queen => 27,
                        PieceType::Commoner => 8,
                    }
                }
            },
            None => 0,
        };
        total = total + w;
    }
    total + 2 <= 256 && board_rule50(b) < 65535 && board_game_ply(b) < 65535
}

/// `Board::is_capture` for `m`.
#[verifier::external_body]
pub(crate) fn board_is_capture(b: &atomic_movegen::board::Board, m: Move) -> (r: bool)
    ensures
        r == spec_is_capture(spec_board_contents(*b), m@),
{
    b.is_capture(atomic_movegen::types::Move::from_bits(m.bits).unwrap_or(atomic_movegen::types::Move::NONE))
}


/// The colour code the crate uses for `c`.
pub open spec fn spec_color_index(c: Color) -> int {
    if c == Color::White { 0 } else { 1 }
}

/// Chebyshev (king-move) distance between squares `a` and `b` (0..63,
/// a1 = 0, file = index % 8, rank = index / 8).
pub open spec fn spec_chebyshev(a: u16, b: u16) -> int {
    let df = if a % 8 >= b % 8 { a % 8 - b % 8 } else { b % 8 - a % 8 };
    let dr = if a / 8 >= b / 8 { a / 8 - b / 8 } else { b / 8 - a / 8 };
    if df >= dr { df } else { dr }
}

/// Bit `s` of `x`.
pub open spec fn spec_bit(x: u64, s: u16) -> bool {
    (x >> s) & 1 == 1
}

/// Square `s` is diagonally one step ahead of a pawn of colour `c` on `sq`
/// (white moves up the ranks, black down).
pub open spec fn spec_pawn_target(c: Color, sq: u16, s: u16) -> bool {
    let df = if sq % 8 >= s % 8 { sq % 8 - s % 8 } else { s % 8 - sq % 8 };
    &&& df == 1
    &&& if c == Color::White { s / 8 == sq / 8 + 1 } else { s / 8 + 1 == sq / 8 }
}

/// What `attacks::king_attacks` returns for square `sq`.
pub uninterp spec fn spec_king_attacks(sq: u16) -> u64;

/// What `attacks::pawn_attacks` returns for a pawn of colour `c` on `sq`.
pub uninterp spec fn spec_pawn_attacks(c: Color, sq: u16) -> u64;

/// What `attacks::rook_attacks` returns for `sq` with occupancy `occupied`.
pub uninterp spec fn spec_rook_attacks(sq: u16, occupied: u64) -> u64;

/// What `attacks::attacks_from` returns for piece type `pt` of colour `c`
/// on `sq` with occupancy `occupied`.
pub uninterp spec fn spec_attacks_from(pt: PieceType, c: Color, sq: u16, occupied: u64) -> u64;

/// `attacks::king_attacks`: the squares a king on `sq` attacks, which are
/// exactly the squares at Chebyshev distance one.
#[verifier::external_body]
pub(crate) fn king_attacks(sq: u16) -> (r: u64)
    requires
        sq < 64,
    ensures
        r == spec_king_attacks(sq),
        forall|s: u16| s < 64 ==> (spec_bit(r, s) <==> spec_chebyshev(sq, s) == 1),
{
    atomic_movegen::attacks::king_attacks(atomic_movegen::types::Square::from_u8(sq as u8)).0
}

/// `attacks::pawn_attacks`: the squares a pawn of colour `c` on `sq`
/// attacks.
#[verifier::external_body]
pub(crate) fn pawn_attacks(c: Color, sq: u16) -> (r: u64)
    requires
        sq < 64,
    ensures
        r == spec_pawn_attacks(c, sq),
        forall|s: u16| s < 64 ==> (spec_bit(r, s) <==> spec_pawn_target(c, sq, s)),
{
    let color = match c {
        Color::White => atomic_movegen::types::Color::White,
        Color::Black => atomic_movegen::types::Color::Black,
    };
    atomic_movegen::attacks::pawn_attacks(color, atomic_movegen::types::Square::from_u8(sq as u8)).0
}

/// `attacks::rook_attacks` (magic bitboards): the rook attack set of `sq`
/// with occupancy `occupied`.
#[verifier::external_body]
pub(crate) fn rook_attacks(sq: u16, occupied: u64) -> (r: u64)
    requires
        sq < 64,
    ensures
        r == spec_rook_attacks(sq, occupied),
{
    atomic_movegen::attacks::rook_attacks(
        atomic_movegen::types::Square::from_u8(sq as u8),
        atomic_movegen::types::Bitboard(occupied),
    ).0
}

/// `attacks::attacks_from`: the attack set of a piece type and colour on
/// `sq` with occupancy `occupied`.
#[verifier::external_body]
pub(crate) fn attacks_from(pt: PieceType, c: Color, sq: u16, occupied: u64) -> (r: u64)
    requires
        sq < 64,
    ensures
        r == spec_attacks_from(pt, c, sq, occupied),
{
    let color = match c {
        Color::White => atomic_movegen::types::Color::White,
        Color::Black => atomic_movegen::types::Color::Black,
    };
    let kind = match pt {
        PieceType::Pawn => atomic_movegen::types::PieceType::Pawn,
        PieceType::Knight => atomic_movegen::types::PieceType::Knight,
        PieceType::Bishop => atomic_movegen::types::PieceType::Bishop,
        PieceType::Rook => atomic_movegen::types::PieceType::Rook,
        PieceType::Queen => atomic_movegen::types::PieceType::Queen,
        PieceType::Commoner => atomic_movegen::types::PieceType::Commoner,
    };
    atomic_movegen::attacks::attacks_from(kind, color, atomic_movegen::types::Square::from_u8(sq as u8), atomic_movegen::types::Bitboard(occupied)).0
}

/// `Board::pieces_color`: the squares of `c`'s pieces, as raw bits.
#[verifier::external_body]
pub(crate) fn board_pieces_color(b: &atomic_movegen::board::Board, c: Color) -> (r: u64)
    ensures
        r == spec_mask(spec_board_contents(*b), Some(c), None),
{
    let color = match c {
        Color::White => atomic_movegen::types::Color::White,
        Color::Black => atomic_movegen::types::Color::Black,
    };
    b.pieces_color(color).0
}

/// `Board::castling_rights`: the castling-rights bitmask of the board.
#[verifier::external_body]
pub(crate) fn board_castling_rights(b: &atomic_movegen::board::Board) -> (r: u8)
    ensures
        r == spec_board_contents(*b)[spec_castling_index()],
{
    b.castling_rights()
}

/// `Board::pieces_pt`: the squares of all pieces of type `pt`, as raw bits.
#[verifier::external_body]
pub(crate) fn board_pieces_pt(b: &atomic_movegen::board::Board, pt: PieceType) -> (r: u64)
    ensures
        r == spec_mask(spec_board_contents(*b), None, Some(pt)),
{
    let kind = match pt {
        PieceType::Pawn => atomic_movegen::types::PieceType::Pawn,
        PieceType::Knight => atomic_movegen::types::PieceType::Knight,
        PieceType::Bishop => atomic_movegen::types::PieceType::Bishop,
        PieceType::Rook => atomic_movegen::types::PieceType::Rook,
        PieceType::Queen => atomic_movegen::types::PieceType::Queen,
        PieceType::Commoner => atomic_movegen::types::PieceType::Commoner,
    };
    b.pieces_pt(kind).0
}

/// `Board::pieces_color_pt`: the squares of `c`'s pieces of type `pt`.
#[verifier::external_body]
pub(crate) fn board_pieces_color_pt(b: &atomic_movegen::board::Board, c: Color, pt: PieceType) -> (r: u64)
    ensures
        r == spec_mask(spec_board_contents(*b), Some(c), Some(pt)),
{
    let color = match c {
        Color::White => atomic_movegen::types::Color::White,
        Color::Black => atomic_movegen::types::Color::Black,
    };
    let kind = match pt {
        PieceType::Pawn => atomic_movegen::types::PieceType::Pawn,
        PieceType::Knight => atomic_movegen::types::PieceType::Knight,
        PieceType::Bishop => atomic_movegen::types::PieceType::Bishop,
        PieceType::Rook => atomic_movegen::types::PieceType::Rook,
        PieceType::Queen => atomic_movegen::types::PieceType::Queen,
        PieceType::Commoner => atomic_movegen::types::PieceType::Commoner,
    };
    b.pieces_color_pt(color, kind).0
}

/// `Board::attackers_to`: the pieces of both sides attacking `sq` with
/// occupancy `occupied`.
#[verifier::external_body]
pub(crate) fn board_attackers_to(b: &atomic_movegen::board::Board, sq: u16, occupied: u64) -> (r: u64)
    requires
        sq < 64,
    ensures
        r == spec_attackers_to(spec_board_contents(*b), sq, occupied),
{
    b.attackers_to(atomic_movegen::types::Square::from_u8(sq as u8), atomic_movegen::types::Bitboard(occupied)).0
}
} // verus!
