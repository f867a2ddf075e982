//! Positions: a move-generator board plus the keys the search needs.

use vstd::prelude::*;

use crate::movegen::{
    self, spec_board_contents, spec_board_fen, spec_checkers, spec_digit_run, spec_is_digit, spec_key_index, spec_legal_moves, spec_mask,
    spec_fullmove_small, spec_parse_fen, spec_after_move, spec_rule50_index, spec_side,
};
use crate::moves::{Color, Move, PieceType};
use vstd::string::StrSliceExecFns;
use crate::zobrist::{self, spec_rule50_key, INF};

verus! {

/// A game result from the side-to-move perspective.
#[derive(Clone, Copy, PartialEq, Eq, Structural, Debug, Hash)]
pub enum Outcome {
    Loss,
    Draw,
    Win,
}

impl Outcome {
    pub open spec fn spec_flip(self) -> Outcome {
        match self {
            Outcome::Win => Outcome::Loss,
            Outcome::Loss => Outcome::Win,
            Outcome::Draw => Outcome::Draw,
        }
    }

    /// Proof/disproof numbers of a solved OR node with this outcome.
    pub open spec fn spec_to_pn_dn(self) -> (u64, u64) {
        match self {
            Outcome::Win => (0u64, INF),
            _ => (INF, 0u64),
        }
    }

    pub open spec fn spec_pn_dn_for(self, is_or_node: bool) -> (u64, u64) {
        if is_or_node {
            self.spec_to_pn_dn()
        } else {
            self.spec_flip().spec_to_pn_dn()
        }
    }

    /// `(0, INF)` for a win, `(INF, 0)` for a loss or a draw.
    pub fn to_pn_dn(self) -> (r: (u64, u64))
        ensures
            r == self.spec_to_pn_dn(),
    {
        match self {
            Outcome::Win => (0, INF),
            Outcome::Loss | Outcome::Draw => (INF, 0),
        }
    }

    /// Proof/disproof numbers for a node of the given type: OR nodes take
    /// the outcome as is, AND nodes take it from the other side.
    pub fn pn_dn_for(self, is_or_node: bool) -> (r: (u64, u64))
        ensures
            r == self.spec_pn_dn_for(is_or_node),
    {
        if is_or_node {
            self.to_pn_dn()
        } else {
            self.flip().to_pn_dn()
        }
    }

    /// The same result seen from the other side.
    pub fn flip(self) -> (r: Outcome)
        ensures
            r == self.spec_flip(),
    {
        match self {
            Outcome::Win => Outcome::Loss,
            Outcome::Loss => Outcome::Win,
            Outcome::Draw => Outcome::Draw,
        }
    }

    /// Lower-case name: `win`, `loss` or `draw`.
    pub fn as_str(self) -> (r: &'static str)
        ensures
            self == Outcome::Win ==> r@ == "win"@,
            self == Outcome::Loss ==> r@ == "loss"@,
            self == Outcome::Draw ==> r@ == "draw"@,
    {
        match self {
            Outcome::Win => "win",
            Outcome::Loss => "loss",
            Outcome::Draw => "draw",
        }
    }
}

/// Number of set bits of `x`.
pub open spec fn spec_popcount(x: nat) -> nat
    decreases x,
{
    if x == 0 {
        0
    } else {
        (x % 2) + spec_popcount(x / 2)
    }
}

/// Number of set bits of a bitboard.
pub fn popcount(x: u64) -> (r: u32)
    ensures
        r == spec_popcount(x as nat),
        r <= 64,
{
    proof {
        lemma_popcount_bound(x as nat, 64);
    }
    let mut y: u64 = x;
    let mut c: u32 = 0;
    while y > 0
        invariant
            c + spec_popcount(y as nat) == spec_popcount(x as nat),
            spec_popcount(x as nat) <= 64,
        decreases y,
    {
        c = c + (y % 2) as u32;
        y = y / 2;
    }
    c
}

/// `2^k`.
pub open spec fn spec_two_pow(k: nat) -> nat
    decreases k,
{
    if k == 0 {
        1
    } else {
        2 * spec_two_pow((k - 1) as nat)
    }
}

proof fn lemma_popcount_bound(x: nat, k: nat)
    requires
        x < spec_two_pow(k) || (k == 64 && x < 0x1_0000_0000_0000_0000),
    ensures
        spec_popcount(x) <= k,
    decreases k,
{
    if k == 64 {
        reveal_with_fuel(spec_two_pow, 65);
        assert(spec_two_pow(64) == 0x1_0000_0000_0000_0000);
    }
    if x > 0 {
        assert(k > 0);
        lemma_popcount_bound(x / 2, (k - 1) as nat);
    }
}

/// The terminal rules, in precedence order, from the side-to-move
/// perspective:
/// own commoner gone, loss; opponent's commoner gone, win; no legal moves,
/// loss when in check and draw otherwise; halfmove clock at 100 or more,
/// draw; only two pieces left, draw.
pub open spec fn spec_terminal_outcome(
    own_commoners: u64,
    their_commoners: u64,
    has_moves: bool,
    in_check: bool,
    rule50: u16,
    occupied_count: nat,
) -> Option<Outcome> {
    if own_commoners == 0 {
        Some(Outcome::Loss)
    } else if their_commoners == 0 {
        Some(Outcome::Win)
    } else if !has_moves {
        if in_check {
            Some(Outcome::Loss)
        } else {
            Some(Outcome::Draw)
        }
    } else if rule50 >= 100 {
        Some(Outcome::Draw)
    } else if occupied_count == 2 {
        Some(Outcome::Draw)
    } else {
        None
    }
}

/// Apply the terminal rules to the facts of a position.
pub fn terminal_outcome(
    own_commoners: u64,
    their_commoners: u64,
    has_moves: bool,
    in_check: bool,
    rule50: u16,
    occupied: u64,
) -> (r: Option<Outcome>)
    ensures
        r == spec_terminal_outcome(own_commoners, their_commoners, has_moves, in_check, rule50, spec_popcount(occupied as nat)),
{
    if own_commoners == 0 {
        return Some(Outcome::Loss);
    }
    if their_commoners == 0 {
        return Some(Outcome::Win);
    }
    if !has_moves {
        if !in_check {
            return Some(Outcome::Draw);
        }
        return Some(Outcome::Loss);
    }
    if rule50 >= 100 {
        return Some(Outcome::Draw);
    }
    if popcount(occupied) == 2 {
        return Some(Outcome::Draw);
    }
    None
}

/// Cached keys of a position, updated together.
struct PositionKeys {
    board_key: u64,
    rule50: u16,
    zobrist: u64,
}

impl PositionKeys {
    spec fn view_keys(self) -> (u64, u64, u16) {
        (self.zobrist, self.board_key, self.rule50)
    }

    spec fn consistent(self) -> bool {
        self.zobrist == self.board_key ^ spec_rule50_key(self.rule50)
    }

    /// The keys are those of a board with contents `c`.
    spec fn of_contents(self, c: Seq<u64>) -> bool {
        &&& self.consistent()
        &&& self.board_key == c[spec_key_index()]
        &&& self.rule50 == c[spec_rule50_index()]
    }
}

/// What `undo_move` needs: the board and keys before the move.
struct UndoRecord {
    board: atomic_movegen::board::Board,
    keys: PositionKeys,
}

/// The keys `(position key, repetition key, halfmove clock)` are consistent:
/// the position key is the repetition key combined with the clock key.
pub open spec fn spec_keys_consistent(k: (u64, u64, u16)) -> bool {
    k.0 == k.1 ^ spec_rule50_key(k.2)
}

/// The position key of a board with contents `c`: its board key combined
/// with the key of its halfmove clock.
pub open spec fn spec_contents_key(c: Seq<u64>) -> u64 {
    c[spec_key_index()] ^ spec_rule50_key(c[spec_rule50_index()] as u16)
}

/// The terminal outcome of a board with contents `c` for the side to move:
/// the rules of [`spec_terminal_outcome`] over its commoners, legal moves,
/// check, clock and material.
pub open spec fn spec_contents_outcome(c: Seq<u64>) -> Option<Outcome> {
    let us = spec_side(c);
    spec_terminal_outcome(
        spec_mask(c, Some(us), Some(PieceType::Commoner)),
        spec_mask(c, Some(us.spec_flip()), Some(PieceType::Commoner)),
        spec_legal_moves(c).len() > 0,
        spec_checkers(c) != 0,
        c[spec_rule50_index()] as u16,
        spec_popcount(spec_mask(c, None, None) as nat),
    )
}

/// The contents reached from `c` by playing the moves of `pv` in turn, each
/// a legal move where it is played; `None` at the first move that is not.
pub open spec fn spec_replay(c: Seq<u64>, pv: Seq<Move>) -> Option<Seq<u64>>
    decreases pv.len(),
{
    if pv.len() == 0 {
        Some(c)
    } else if spec_legal_moves(c).contains(pv[0]@) {
        spec_replay(spec_after_move(c, pv[0]@), pv.drop_first())
    } else {
        None
    }
}

/// Replaying one more move continues from where the shorter line ends.
pub proof fn lemma_replay_push(c: Seq<u64>, pv: Seq<Move>, m: Move)
    ensures
        spec_replay(c, pv.push(m)) == match spec_replay(c, pv) {
            Some(d) => if spec_legal_moves(d).contains(m@) {
                Some(spec_after_move(d, m@))
            } else {
                None
            },
            None => None,
        },
    decreases pv.len(),
{
    if pv.len() == 0 {
        assert(pv.push(m).drop_first() =~= Seq::<Move>::empty());
        assert(pv.push(m)[0] == m);
        assert(spec_replay(c, pv) == Some(c));
        assert(spec_replay(spec_after_move(c, m@), Seq::<Move>::empty()) == Some(spec_after_move(c, m@)));
    } else {
        assert(pv.push(m)[0] == pv[0]);
        assert(pv.push(m).drop_first() =~= pv.drop_first().push(m));
        if spec_legal_moves(c).contains(pv[0]@) {
            lemma_replay_push(spec_after_move(c, pv[0]@), pv.drop_first(), m);
        }
    }
}

/// A board with its search keys and an undo history.
pub struct Position {
    board: atomic_movegen::board::Board,
    keys: PositionKeys,
    undo_stack: Vec<UndoRecord>,
}

impl Position {
    /// The current keys are those of the board, and every saved set of keys
    /// is that of its saved board.
    pub closed spec fn wf(self) -> bool {
        &&& self.keys.of_contents(spec_board_contents(self.board))
        &&& forall|i: int| 0 <= i < self.undo_stack@.len() ==> (#[trigger] self.undo_stack@[i]).keys.of_contents(
            spec_board_contents(self.undo_stack@[i].board),
        )
    }

    /// What the board holds.
    pub closed spec fn contents(self) -> Seq<u64> {
        spec_board_contents(self.board)
    }

    /// The legal moves of this position, as codes in generator order (none
    /// where [`movegen::spec_move_room`] fails).
    pub open spec fn legal_codes(self) -> Seq<u16> {
        spec_legal_moves(self.contents())
    }

    /// Whether `m` is one of the legal moves here.
    pub open spec fn is_legal(self, m: Move) -> bool {
        self.legal_codes().contains(m@)
    }

    /// The current `(position key, repetition key, halfmove clock)`.
    pub closed spec fn keys(self) -> (u64, u64, u16) {
        self.keys.view_keys()
    }

    /// The keys of the positions that `undo_move` returns to, oldest first.
    pub closed spec fn history(self) -> Seq<(u64, u64, u16)> {
        self.undo_stack@.map_values(|u: UndoRecord| u.keys.view_keys())
    }

    /// The contents of the boards that `undo_move` returns to, oldest first.
    pub closed spec fn board_history(self) -> Seq<Seq<u64>> {
        self.undo_stack@.map_values(|u: UndoRecord| spec_board_contents(u.board))
    }

    /// The transposition-table key: board key combined with the clock key.
    pub open spec fn key(self) -> u64 {
        self.keys().0
    }

    /// The board-only key used for repetition detection.
    pub open spec fn rep_key(self) -> u64 {
        self.keys().1
    }

    /// The halfmove clock.
    pub open spec fn clock(self) -> u16 {
        self.keys().2
    }

    /// Number of moves that can be taken back.
    pub open spec fn history_len(self) -> nat {
        self.history().len()
    }

    /// A well-formed position has consistent keys, now and in its history,
    /// and its keys are those of its board.
    pub proof fn lemma_wf_keys(self)
        requires
            self.wf(),
        ensures
            spec_keys_consistent(self.keys()),
            forall|i: int| 0 <= i < self.history().len() ==> spec_keys_consistent(#[trigger] self.history()[i]),
            self.rep_key() == self.contents()[spec_key_index()],
            self.clock() == self.contents()[spec_rule50_index()],
            self.board_history().len() == self.history().len(),
    {
        assert forall|i: int| 0 <= i < self.history().len() implies spec_keys_consistent(#[trigger] self.history()[i]) by {
            assert(self.undo_stack@[i].keys.of_contents(spec_board_contents(self.undo_stack@[i].board)));
        }
    }

    fn keys_of(board: &atomic_movegen::board::Board) -> (k: PositionKeys)
        ensures
            k.of_contents(spec_board_contents(*board)),
    {
        let board_key = movegen::board_hash(board);
        let rule50 = movegen::board_rule50(board);
        PositionKeys { board_key, rule50, zobrist: zobrist::hash_with_rule50(board_key, rule50) }
    }

    /// The standard atomic start position.
    pub fn new() -> (p: Position)
        ensures
            p.wf(),
            p.history_len() == 0,
            spec_parse_fen(movegen::STARTPOS_FEN@) == Some(p.contents()),
    {
        let board = movegen::board_startpos();
        let keys = Self::keys_of(&board);
        Position { board, keys, undo_stack: Vec::new() }
    }

    /// Whether the last run of ASCII digits in `text` reads below 32768.
    fn fullmove_small(text: &str) -> (r: bool)
        ensures
            r == spec_fullmove_small(text@),
    {
        let n = text.unicode_len();
        let mut run: u32 = 0;
        let mut last: u32 = 0;
        let ghost mut last_j: int = 0;
        let mut i: usize = 0;
        while i < n
            invariant
                n == text@.len(),
                i <= n,
                run == spec_digit_run(text@, i as int),
                0 <= last_j <= i,
                last_j > 0 ==> spec_is_digit(text@[last_j - 1]),
                forall|k: int| last_j <= k < i ==> !spec_is_digit(#[trigger] text@[k]),
                last == spec_digit_run(text@, last_j),
            decreases n - i,
        {
            let ch = text.get_char(i);
            if '0' <= ch && ch <= '9' {
                let d = (ch as u32) - ('0' as u32);
                let v = run * 10 + d;
                run = if v > 32768 { 32768 } else { v };
                last = run;
                proof {
                    last_j = i + 1;
                }
            } else {
                run = 0;
            }
            i += 1;
        }
        proof {
            assert forall|j: int|
                1 <= j <= text@.len() && spec_is_digit(text@[j - 1]) && (forall|k: int| j <= k < text@.len() ==> !spec_is_digit(#[trigger] text@[k]))
                implies #[trigger] spec_digit_run(text@, j) == last by {
                if j < last_j {
                    assert(!spec_is_digit(text@[last_j - 1]));
                } else if j > last_j {
                    assert(!spec_is_digit(text@[j - 1]));
                }
            }
            if last_j > 0 {
                assert(forall|k: int| last_j <= k < text@.len() ==> !spec_is_digit(#[trigger] text@[k]));
            }
        }
        last <= 32767
    }

    /// Parse a FEN string. A text whose fullmove number (its last digit
    /// run) is 32768 or more is refused: the move generator cannot hold the
    /// game ply of such a number.
    pub fn from_fen(fen: &str) -> (r: Result<Position, FenParseError>)
        ensures
            r is Ok ==> r->Ok_0.history_len() == 0 && r->Ok_0.wf(),
            r is Ok <==> spec_fullmove_small(fen@) && spec_parse_fen(fen@) is Some,
            r matches Ok(p) ==> spec_parse_fen(fen@) == Some(p.contents()),
    {
        if !Self::fullmove_small(fen) {
            return Err(FenParseError { message: String::from_str("the fullmove number in the FEN is too large") });
        }
        match movegen::board_from_fen(fen) {
            Ok(board) => {
                let keys = Self::keys_of(&board);
                Ok(Position { board, keys, undo_stack: Vec::new() })
            },
            Err(e) => Err(FenParseError { message: movegen::fen_error_message(&e) }),
        }
    }

    /// Read-only access to the move generator's board.
    pub fn board(&self) -> (r: &atomic_movegen::board::Board)
        ensures
            spec_board_contents(*r) == self.contents(),
    {
        &self.board
    }

    /// Play `m`, which must be legal here. The board and keys before the
    /// move are saved for `undo_move`.
    pub fn do_move(&mut self, m: Move)
        requires
            old(self).wf(),
            old(self).is_legal(m),
        ensures
            final(self).wf(),
            final(self).history() == old(self).history().push(old(self).keys()),
            final(self).board_history() == old(self).board_history().push(old(self).contents()),
            final(self).contents() == spec_after_move(old(self).contents(), m@),
    {
        let saved_board = movegen::board_clone(&self.board);
        movegen::board_do_move(&mut self.board, m);
        let saved = PositionKeys { board_key: self.keys.board_key, rule50: self.keys.rule50, zobrist: self.keys.zobrist };
        self.keys = Self::keys_of(&self.board);
        self.undo_stack.push(UndoRecord { board: saved_board, keys: saved });
        proof {
            assert(self.history() =~= old(self).history().push(old(self).keys()));
            assert(self.board_history() =~= old(self).board_history().push(old(self).contents()));
        }
    }

    /// Take back the move played last: the position returns to the board
    /// and keys it had before that move.
    pub fn undo_move(&mut self, m: Move)
        requires
            old(self).wf(),
            old(self).history_len() > 0,
        ensures
            final(self).wf(),
            final(self).keys() == old(self).history().last(),
            final(self).history() == old(self).history().drop_last(),
            final(self).contents() == old(self).board_history().last(),
            final(self).board_history() == old(self).board_history().drop_last(),
    {
        let rec = self.undo_stack.pop().unwrap();
        self.board = rec.board;
        self.keys = rec.keys;
        proof {
            assert(self.history() =~= old(self).history().drop_last());
            assert(self.board_history() =~= old(self).board_history().drop_last());
        }
    }

    /// Play `m` only if it is one of the legal moves; returns whether it was.
    pub fn try_do_move(&mut self, m: Move) -> (r: bool)
        requires
            old(self).wf(),
        ensures
            final(self).wf(),
            r == old(self).is_legal(m),
            r ==> final(self).history() == old(self).history().push(old(self).keys()),
            r ==> final(self).board_history() == old(self).board_history().push(old(self).contents()),
            r ==> final(self).contents() == spec_after_move(old(self).contents(), m@),
            !r ==> final(self).keys() == old(self).keys() && final(self).history() == old(self).history()
                && final(self).contents() == old(self).contents() && final(self).board_history() == old(self).board_history(),
    {
        let moves = self.legal_moves_vec();
        let mut i: usize = 0;
        while i < moves.len()
            invariant
                i <= moves.len(),
                self == old(self),
                self.wf(),
                moves.len() == self.legal_codes().len(),
                forall|j: int| 0 <= j < moves.len() ==> #[trigger] moves@[j]@ == self.legal_codes()[j],
                forall|j: int| 0 <= j < i ==> self.legal_codes()[j] != m@,
            decreases moves.len() - i,
        {
            if moves[i] == m {
                assert(self.legal_codes()[i as int] == m@);
                self.do_move(m);
                return true;
            }
            assert(moves@[i as int]@ != m@);
            i += 1;
        }
        false
    }

    /// Fill `moves` with the legal moves of this position.
    pub fn legal_moves(&self, moves: &mut Vec<Move>)
        ensures
            forall|i: int| 0 <= i < final(moves).len() ==> crate::moves::spec_well_formed(#[trigger] final(moves)@[i]@),
            final(moves).len() == self.legal_codes().len(),
            forall|i: int| 0 <= i < final(moves).len() ==> #[trigger] final(moves)@[i]@ == self.legal_codes()[i],
    {
        *moves = self.legal_moves_vec();
    }

    /// Populate `state` with the generator's check and pin data.
    pub fn populate_state(&self, state: &mut atomic_movegen::board::StateInfo) {
        movegen::board_populate_state(&self.board, state);
    }

    /// Populate `state` and generate the legal moves.
    pub fn legal_moves_with_state(&self, moves: &mut Vec<Move>, state: &mut atomic_movegen::board::StateInfo)
        ensures
            forall|i: int| 0 <= i < final(moves).len() ==> crate::moves::spec_well_formed(#[trigger] final(moves)@[i]@),
            final(moves).len() == self.legal_codes().len(),
            forall|i: int| 0 <= i < final(moves).len() ==> #[trigger] final(moves)@[i]@ == self.legal_codes()[i],
    {
        movegen::board_populate_state(&self.board, state);
        *moves = self.legal_moves_vec();
    }

    /// All legal moves, in generator order.
    pub fn legal_moves_vec(&self) -> (r: Vec<Move>)
        ensures
            forall|i: int| 0 <= i < r.len() ==> crate::moves::spec_well_formed(#[trigger] r@[i]@),
            r.len() == self.legal_codes().len(),
            forall|i: int| 0 <= i < r.len() ==> #[trigger] r@[i]@ == self.legal_codes()[i],
    {
        if movegen::move_room(&self.board) {
            movegen::generate_legal(&self.board)
        } else {
            Vec::new()
        }
    }

    /// Whether the side to move has a legal move (`state` is not consulted;
    /// the board answers by itself).
    pub fn has_legal_move(&self, state: &atomic_movegen::board::StateInfo) -> (r: bool)
        ensures
            r == (self.legal_codes().len() > 0),
    {
        movegen::move_room(&self.board) && movegen::has_legal_move(&self.board)
    }

    /// Whether the side to move is in check.
    pub fn in_check(&self) -> (r: bool)
        ensures
            r == (spec_checkers(self.contents()) != 0),
    {
        movegen::board_checkers(&self.board) != 0
    }

    pub fn side_to_move(&self) -> (r: Color)
        ensures
            r == spec_side(self.contents()),
    {
        movegen::board_side_to_move(&self.board)
    }

    /// The squares of `c`'s commoners, as raw bitboard bits.
    pub fn commoners(&self, c: Color) -> (r: u64)
        ensures
            r == spec_mask(self.contents(), Some(c), Some(PieceType::Commoner)),
    {
        movegen::board_commoners(&self.board, c)
    }

    /// The halfmove clock.
    pub fn rule50(&self) -> (r: u16)
        ensures
            r == self.clock(),
    {
        self.keys.rule50
    }

    /// Number of moves that `undo_move` can take back.
    pub fn undo_depth(&self) -> (r: usize)
        ensures
            r == self.history_len(),
    {
        self.undo_stack.len()
    }

    /// Number of pieces on the board.
    pub fn piece_count(&self) -> (r: u32)
        ensures
            r == spec_popcount(spec_mask(self.contents(), None, None) as nat),
    {
        popcount(movegen::board_occupied(&self.board))
    }

    /// The terminal outcome of this position, if it is terminal.
    pub fn outcome(&self) -> (r: Option<Outcome>)
        requires
            self.wf(),
        ensures
            r == spec_contents_outcome(self.contents()),
            r is None ==> self.clock() < 100,
    {
        let mut moves: Vec<Move> = Vec::new();
        let mut state = movegen::state_new();
        self.legal_moves_with_state(&mut moves, &mut state);
        self.outcome_from_state(&state, &moves)
    }

    /// Terminal detection for a caller that already generated this
    /// position's legal `moves`: the rules of [`spec_terminal_outcome`]
    /// applied to this position's commoners, moves, check status, clock and
    /// material. A position that is not terminal has a move and a clock
    /// under 100.
    pub fn outcome_from_state(&self, state: &atomic_movegen::board::StateInfo, moves: &Vec<Move>) -> (r: Option<Outcome>)
        requires
            self.wf(),
        ensures
            r == ({
                let c = self.contents();
                let us = spec_side(c);
                spec_terminal_outcome(
                    spec_mask(c, Some(us), Some(PieceType::Commoner)),
                    spec_mask(c, Some(us.spec_flip()), Some(PieceType::Commoner)),
                    moves@.len() > 0,
                    spec_checkers(c) != 0,
                    self.clock(),
                    spec_popcount(spec_mask(c, None, None) as nat),
                )
            }),
            moves@.len() == self.legal_codes().len() ==> r == spec_contents_outcome(self.contents()),
            r is None ==> moves@.len() > 0 && self.clock() < 100,
    {
        let us = self.side_to_move();
        let them = us.flip();
        let own = movegen::board_commoners(&self.board, us);
        let their = movegen::board_commoners(&self.board, them);
        let in_check = movegen::board_checkers(&self.board) != 0;
        proof {
            self.lemma_wf_keys();
        }
        terminal_outcome(own, their, moves.len() > 0, in_check, self.keys.rule50, movegen::board_occupied(&self.board))
    }

    /// The transposition-table key: board key combined with the clock key.
    pub fn hash(&self) -> (r: u64)
        requires
            self.wf(),
        ensures
            r == self.key(),
            r == self.rep_key() ^ spec_rule50_key(self.clock()),
    {
        self.keys.zobrist
    }

    /// Board-only key for repetition detection, ignoring the halfmove clock.
    pub fn repetition_key(&self) -> (r: u64)
        ensures
            r == self.rep_key(),
    {
        self.keys.board_key
    }

    pub fn fen(&self) -> (r: String)
        ensures
            r@ == spec_board_fen(self.contents()),
    {
        movegen::board_fen(&self.board)
    }

    /// A snapshot of the current board and keys with an empty history.
    pub fn snapshot(&self) -> (r: Position)
        requires
            self.wf(),
        ensures
            r.wf(),
            r.keys() == self.keys(),
            r.contents() == self.contents(),
            r.history_len() == 0,
    {
        self.clone()
    }
}

impl Clone for Position {
    /// A clone is a snapshot of the current board and keys; the history
    /// starts empty because a clone is not a replayable line.
    fn clone(&self) -> (r: Self)
        ensures
            self.wf() ==> r.wf(),
            r.keys() == self.keys(),
            r.contents() == self.contents(),
            r.history_len() == 0,
            r.board_history().len() == 0,
    {
        let r = Position {
            board: movegen::board_clone(&self.board),
            keys: PositionKeys {
                board_key: self.keys.board_key,
                rule50: self.keys.rule50,
                zobrist: self.keys.zobrist,
            },
            undo_stack: Vec::new(),
        };
        proof {
            assert(r.history() =~= Seq::<(u64, u64, u16)>::empty());
            assert(r.board_history() =~= Seq::<Seq<u64>>::empty());
        }
        r
    }
}

/// Whether `m` occurs in `v`.
pub fn moves_contain(v: &Vec<Move>, m: Move) -> (r: bool)
    ensures
        r == v@.contains(m),
{
    let mut i: usize = 0;
    while i < v.len()
        invariant
            i <= v.len(),
            forall|j: int| 0 <= j < i ==> v@[j] != m,
        decreases v.len() - i,
    {
        if v[i] == m {
            assert(v@[i as int] == m);
            return true;
        }
        i += 1;
    }
    false
}

/// A list of moves that matches a list of codes place by place contains a
/// move exactly when the codes contain its code.
pub proof fn lemma_codes_contain(moves: Seq<Move>, codes: Seq<u16>, m: Move)
    requires
        moves.len() == codes.len(),
        forall|j: int| 0 <= j < moves.len() ==> #[trigger] moves[j]@ == codes[j],
    ensures
        moves.contains(m) <==> codes.contains(m@),
{
    if codes.contains(m@) {
        let j = choose|j: int| 0 <= j < codes.len() && codes[j] == m@;
        assert(moves[j]@ == m@);
        assert(moves[j] == m);
    }
    if moves.contains(m) {
        let j = choose|j: int| 0 <= j < moves.len() && moves[j] == m;
        assert(codes[j] == m@);
    }
}

/// A move taken from a list of this position's legal moves is legal here.
pub proof fn lemma_listed_is_legal(p: Position, moves: Seq<Move>, i: int)
    requires
        moves.len() == p.legal_codes().len(),
        forall|j: int| 0 <= j < moves.len() ==> #[trigger] moves[j]@ == p.legal_codes()[j],
        0 <= i < moves.len(),
    ensures
        p.is_legal(moves[i]),
{
    assert(p.legal_codes()[i] == moves[i]@);
}

/// A move found in a list of this position's legal moves is legal here.
pub proof fn lemma_contained_is_legal(p: Position, moves: Seq<Move>, m: Move)
    requires
        moves.len() == p.legal_codes().len(),
        forall|j: int| 0 <= j < moves.len() ==> #[trigger] moves[j]@ == p.legal_codes()[j],
        moves.contains(m),
    ensures
        p.is_legal(m),
{
    let i = choose|i: int| 0 <= i < moves.len() && moves[i] == m;
    lemma_listed_is_legal(p, moves, i);
}

/// Playing a move and taking it back leaves the position's board, keys and
/// history as they were.
pub proof fn lemma_undo_reverts_do(before: Position, after_do: Position, after_undo: Position)
    requires
        after_do.history() == before.history().push(before.keys()),
        after_do.board_history() == before.board_history().push(before.contents()),
        after_undo.keys() == after_do.history().last(),
        after_undo.history() == after_do.history().drop_last(),
        after_undo.contents() == after_do.board_history().last(),
        after_undo.board_history() == after_do.board_history().drop_last(),
    ensures
        after_undo.keys() == before.keys(),
        after_undo.history() == before.history(),
        after_undo.contents() == before.contents(),
        after_undo.board_history() == before.board_history(),
{
    assert(after_do.history().drop_last() =~= before.history());
    assert(after_do.board_history().drop_last() =~= before.board_history());
}

/// A FEN string the move generator refused, with its reason.
#[derive(Debug)]
pub struct FenParseError {
    pub message: String,
}

} // verus!
