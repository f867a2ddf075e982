//! Compact binary snapshot of the transposition table (version 1).
//!
//! Little endian, no padding: the magic `ATOMTTSN`, the version byte, a
//! zero flags byte, the root FEN and a newline, the table size in megabytes
//! (`u32`), the table generation (`u32`), the solved count and the unsolved
//! count (`u64` each), then the solved records (key `u64`, outcome byte,
//! depth `u32`, move code `u16`; 15 bytes) and the unsolved records (key,
//! pn, dn `u64`, depth, remaining depth `u32`, move code `u16`, work `u64`;
//! 42 bytes). The move code `0xFFFF` stands for "no move".
//!
//! Section policy: every solved entry, of any generation; unsolved entries
//! of the current generation only; both in the table's bucket order.

use vstd::prelude::*;
use vstd::string::StringSliceAdditionalSpecFns;

use crate::moves::Move;
use crate::notation::{bits_to_move, move_to_bits, spec_canonical_bits};
use crate::position::Outcome;
use crate::proof_tree::binary::{
    outcome_from_u8, outcome_to_u8, push_le16, push_le32, push_le64, read16, read32, read64, spec_le16, spec_le32,
    spec_le64, spec_newline_from, spec_outcome_code, spec_read16, spec_read32, spec_read64, string_from_utf8,
};
use crate::proof_tree::binary::{
    lemma_newline_after, lemma_read16_le, lemma_read32_le, lemma_read64_le, lemma_three_parts, lemma_window,
};
use vstd::utf8::{decode_utf8, valid_utf8};
use crate::search::tt::{TranspositionTable, TtEntry};

verus! {

pub const SNAPSHOT_VERSION: u8 = 1;

pub const SNAPSHOT_FLAGS: u8 = 0;

/// The code written for "no move"; `move_to_bits` never produces it.
pub const MOVE_NONE_BITS: u16 = 0xFFFF;

pub const SOLVED_RECORD_BYTES: u64 = 15;

pub const UNSOLVED_RECORD_BYTES: u64 = 42;

/// The magic bytes `ATOMTTSN`.
pub open spec fn spec_snapshot_magic() -> Seq<u8> {
    seq![65u8, 84u8, 79u8, 77u8, 84u8, 84u8, 83u8, 78u8]
}

fn snapshot_magic() -> (r: Vec<u8>)
    ensures
        r@ == spec_snapshot_magic(),
{
    let mut v: Vec<u8> = Vec::new();
    v.push(65);
    v.push(84);
    v.push(79);
    v.push(77);
    v.push(84);
    v.push(84);
    v.push(83);
    v.push(78);
    proof {
        assert(v@ =~= spec_snapshot_magic());
    }
    v
}

/// Counts of a written snapshot.
#[derive(Clone, Copy, Debug, PartialEq, Eq, Structural)]
pub struct SnapshotSummary {
    pub solved: u64,
    pub unsolved: u64,
    /// Total bytes, header included.
    pub bytes: u64,
}

/// The header of a snapshot.
#[derive(Clone, Debug)]
pub struct SnapshotHeader {
    pub root_fen: String,
    pub tt_size_mb: u32,
    pub generation: u32,
    pub solved_count: u64,
    pub unsolved_count: u64,
}

/// A solved table record.
#[derive(Clone, Copy, Debug, PartialEq, Eq, Structural)]
pub struct SolvedRecord {
    pub key: u64,
    pub outcome: Outcome,
    pub depth: u32,
    pub best_move: Move,
}

/// An unsolved table record: bounds of the current generation.
#[derive(Clone, Copy, Debug, PartialEq, Eq, Structural)]
pub struct UnsolvedRecord {
    pub key: u64,
    pub pn: u64,
    pub dn: u64,
    pub depth: u32,
    pub remaining_depth: u32,
    pub best_move: Move,
    pub work: u64,
}

/// Why a snapshot could not be read.
#[derive(Clone, Copy, Debug, PartialEq, Eq, Structural)]
pub enum SnapshotError {
    UnexpectedEof,
    BadMagic,
    UnsupportedVersion(u8),
    UnsupportedFlags(u8),
    InvalidFenText,
    InvalidSolvedOutcome,
    TrailingBytes,
}

/// The code of a move in a snapshot.
pub open spec fn spec_move_code(m: Move) -> u16 {
    if m == Move::spec_none() { MOVE_NONE_BITS } else { spec_canonical_bits(m@) }
}

pub fn move_to_u16(mv: Move) -> (r: u16)
    ensures
        r == spec_move_code(mv),
{
    if mv.is_none() {
        MOVE_NONE_BITS
    } else {
        move_to_bits(mv)
    }
}

/// The move of a snapshot code: the sentinel for `0xFFFF`, else the
/// decoded code.
pub fn move_from_u16(bits: u16) -> (r: Move)
    ensures
        bits == MOVE_NONE_BITS ==> r == Move::spec_none(),
        bits != MOVE_NONE_BITS ==> r@ == spec_canonical_bits(bits),
{
    if bits == MOVE_NONE_BITS {
        return Move::none();
    }
    match bits_to_move(bits) {
        Some(m) => m,
        None => Move::none(),
    }
}

/// Header size in bytes for a FEN of `fen_len` bytes.
pub open spec fn spec_header_bytes(fen_len: nat) -> nat {
    8 + 1 + 1 + fen_len + 1 + 4 + 4 + 8 + 8
}

pub fn header_bytes(root_fen: &str) -> (r: u64)
    requires
        root_fen.spec_bytes().len() < 0x1_0000_0000,
    ensures
        r == spec_header_bytes(root_fen.spec_bytes().len()),
{
    let n = root_fen.as_bytes().len() as u64;
    8 + 1 + 1 + n + 1 + 4 + 4 + 8 + 8
}

pub open spec fn spec_solved_record(e: TtEntry) -> Seq<u8> {
    spec_le64(e.key) + seq![spec_outcome_code(e.outcome->0)] + spec_le32(e.depth) + spec_le16(spec_move_code(e.best_move))
}

pub open spec fn spec_unsolved_record(e: TtEntry) -> Seq<u8> {
    spec_le64(e.key) + spec_le64(e.pn) + spec_le64(e.dn) + spec_le32(e.depth) + spec_le32(e.remaining_depth) + spec_le16(
        spec_move_code(e.best_move),
    ) + spec_le64(e.work)
}

/// The solved section of the entries `s`, in order.
pub open spec fn spec_solved_section(s: Seq<TtEntry>) -> Seq<u8>
    decreases s.len(),
{
    if s.len() == 0 {
        Seq::empty()
    } else {
        spec_solved_section(s.drop_last()) + (if s.last().outcome is Some { spec_solved_record(s.last()) } else { Seq::empty() })
    }
}

/// The unsolved section of the entries `s` for generation `g`, in order.
pub open spec fn spec_unsolved_section(s: Seq<TtEntry>, g: u32) -> Seq<u8>
    decreases s.len(),
{
    if s.len() == 0 {
        Seq::empty()
    } else {
        spec_unsolved_section(s.drop_last(), g) + (if s.last().outcome is None && s.last().generation == g {
            spec_unsolved_record(s.last())
        } else {
            Seq::empty()
        })
    }
}

pub open spec fn spec_count_solved_entries(s: Seq<TtEntry>) -> nat
    decreases s.len(),
{
    if s.len() == 0 {
        0
    } else {
        spec_count_solved_entries(s.drop_last()) + (if s.last().outcome is Some { 1nat } else { 0nat })
    }
}

pub open spec fn spec_count_unsolved_entries(s: Seq<TtEntry>, g: u32) -> nat
    decreases s.len(),
{
    if s.len() == 0 {
        0
    } else {
        spec_count_unsolved_entries(s.drop_last(), g) + (if s.last().outcome is None && s.last().generation == g {
            1nat
        } else {
            0nat
        })
    }
}

proof fn lemma_counts_bounded(s: Seq<TtEntry>, g: u32)
    ensures
        spec_count_solved_entries(s) <= s.len(),
        spec_count_unsolved_entries(s, g) <= s.len(),
    decreases s.len(),
{
    if s.len() > 0 {
        lemma_counts_bounded(s.drop_last(), g);
    }
}

/// The snapshot of the table `tt` for the position whose FEN bytes are
/// `fen`.
pub open spec fn spec_snapshot(fen: Seq<u8>, tt_size_mb: u32, tt: TranspositionTable) -> Seq<u8> {
    let s = tt.slots();
    let g = tt.generation();
    spec_snapshot_magic() + seq![SNAPSHOT_VERSION, SNAPSHOT_FLAGS] + fen + seq![10u8] + spec_le32(tt_size_mb) + spec_le32(g)
        + spec_le64(spec_count_solved_entries(s) as u64) + spec_le64(spec_count_unsolved_entries(s, g) as u64)
        + spec_solved_section(s) + spec_unsolved_section(s, g)
}

fn push_solved_record(out: &mut Vec<u8>, e: &TtEntry)
    requires
        e.outcome is Some,
    ensures
        final(out)@ == old(out)@ + spec_solved_record(*e),
{
    let o = match e.outcome {
        Some(o) => o,
        None => Outcome::Draw,
    };
    push_le64(out, e.key);
    out.push(outcome_to_u8(o));
    push_le32(out, e.depth);
    push_le16(out, move_to_u16(e.best_move));
    proof {
        assert(final(out)@ =~= old(out)@ + spec_solved_record(*e));
    }
}

fn push_unsolved_record(out: &mut Vec<u8>, e: &TtEntry)
    ensures
        final(out)@ == old(out)@ + spec_unsolved_record(*e),
{
    push_le64(out, e.key);
    push_le64(out, e.pn);
    push_le64(out, e.dn);
    push_le32(out, e.depth);
    push_le32(out, e.remaining_depth);
    push_le16(out, move_to_u16(e.best_move));
    push_le64(out, e.work);
    proof {
        assert(final(out)@ =~= old(out)@ + spec_unsolved_record(*e));
    }
}

/// The snapshot of `tt` for `root_fen`, with its counts.
pub fn write_tt_snapshot(tt: &TranspositionTable, root_fen: &str, tt_size_mb: u32) -> (r: (Vec<u8>, SnapshotSummary))
    requires
        tt.wf(),
    ensures
        r.0@ == spec_snapshot(root_fen.spec_bytes(), tt_size_mb, *tt),
        r.1.solved == spec_count_solved_entries(tt.slots()),
        r.1.unsolved == spec_count_unsolved_entries(tt.slots(), tt.generation()),
        r.1.bytes == r.0.len(),
{
    let generation = tt.current_generation();
    let entries = tt.entries();
    let ghost s = tt.slots();
    let n = entries.len();
    let mut solved_count: u64 = 0;
    let mut unsolved_count: u64 = 0;
    let mut i: usize = 0;
    while i < n
        invariant
            i <= n,
            n == entries.len(),
            entries@ == s,
            solved_count == spec_count_solved_entries(s.take(i as int)),
            unsolved_count == spec_count_unsolved_entries(s.take(i as int), generation),
            solved_count <= i,
            unsolved_count <= i,
        decreases n - i,
    {
        proof {
            assert(s.take(i + 1).drop_last() =~= s.take(i as int));
        }
        let e = entries[i];
        if e.outcome.is_some() {
            solved_count += 1;
        } else if e.generation == generation {
            unsolved_count += 1;
        }
        i += 1;
    }
    proof {
        assert(s.take(n as int) =~= s);
    }
    let mut out = snapshot_magic();
    out.push(SNAPSHOT_VERSION);
    out.push(SNAPSHOT_FLAGS);
    let fen = root_fen.as_bytes();
    let mut k: usize = 0;
    while k < fen.len()
        invariant
            k <= fen.len(),
            out@ == spec_snapshot_magic() + seq![SNAPSHOT_VERSION, SNAPSHOT_FLAGS] + fen@.take(k as int),
        decreases fen.len() - k,
    {
        out.push(fen[k]);
        k += 1;
        proof {
            assert(out@ =~= spec_snapshot_magic() + seq![SNAPSHOT_VERSION, SNAPSHOT_FLAGS] + fen@.take(k as int));
        }
    }
    proof {
        assert(fen@.take(fen.len() as int) =~= fen@);
    }
    out.push(10u8);
    push_le32(&mut out, tt_size_mb);
    push_le32(&mut out, generation);
    push_le64(&mut out, solved_count);
    push_le64(&mut out, unsolved_count);
    let ghost header = out@;
    let mut i: usize = 0;
    while i < n
        invariant
            i <= n,
            n == entries.len(),
            entries@ == s,
            out@ == header + spec_solved_section(s.take(i as int)),
        decreases n - i,
    {
        proof {
            assert(s.take(i + 1).drop_last() =~= s.take(i as int));
        }
        let e = entries[i];
        if e.outcome.is_some() {
            push_solved_record(&mut out, &e);
        }
        proof {
            assert(out@ =~= header + spec_solved_section(s.take(i + 1)));
        }
        i += 1;
    }
    let ghost mid = out@;
    let mut i: usize = 0;
    while i < n
        invariant
            i <= n,
            n == entries.len(),
            entries@ == s,
            out@ == mid + spec_unsolved_section(s.take(i as int), generation),
        decreases n - i,
    {
        proof {
            assert(s.take(i + 1).drop_last() =~= s.take(i as int));
        }
        let e = entries[i];
        if e.outcome.is_none() && e.generation == generation {
            push_unsolved_record(&mut out, &e);
        }
        proof {
            assert(out@ =~= mid + spec_unsolved_section(s.take(i + 1), generation));
        }
        i += 1;
    }
    proof {
        assert(s.take(n as int) =~= s);
        assert(out@ =~= spec_snapshot(fen@, tt_size_mb, *tt));
    }
    let bytes = out.len() as u64;
    (out, SnapshotSummary { solved: solved_count, unsolved: unsolved_count, bytes })
}

/// Where the root FEN line of a snapshot ends (its newline).
pub open spec fn spec_fen_end(b: Seq<u8>) -> int {
    spec_newline_from(b, 10)
}

/// Where the records of a snapshot start.
pub open spec fn spec_records_start(b: Seq<u8>) -> int {
    spec_fen_end(b) + 25
}

pub open spec fn spec_solved_count_of(b: Seq<u8>) -> u64 {
    spec_read64(b, spec_fen_end(b) + 9)
}

pub open spec fn spec_unsolved_count_of(b: Seq<u8>) -> u64 {
    spec_read64(b, spec_fen_end(b) + 17)
}

/// The outcome of an outcome byte (0 draw, 1 win, 2 loss).
pub open spec fn spec_outcome_of_code(c: u8) -> Outcome {
    if c == 0 {
        Outcome::Draw
    } else if c == 1 {
        Outcome::Win
    } else {
        Outcome::Loss
    }
}

/// The move of a snapshot move code.
pub open spec fn spec_move_of_code(c: u16) -> Move {
    if c == MOVE_NONE_BITS {
        Move::spec_none()
    } else {
        Move { bits: spec_canonical_bits(c) }
    }
}

/// The solved record stored at `off`.
pub open spec fn spec_solved_at(b: Seq<u8>, off: int) -> SolvedRecord {
    SolvedRecord {
        key: spec_read64(b, off),
        outcome: spec_outcome_of_code(b[off + 8]),
        depth: spec_read32(b, off + 9),
        best_move: spec_move_of_code(spec_read16(b, off + 13)),
    }
}

/// The unsolved record stored at `off`.
pub open spec fn spec_unsolved_at(b: Seq<u8>, off: int) -> UnsolvedRecord {
    UnsolvedRecord {
        key: spec_read64(b, off),
        pn: spec_read64(b, off + 8),
        dn: spec_read64(b, off + 16),
        depth: spec_read32(b, off + 24),
        remaining_depth: spec_read32(b, off + 28),
        best_move: spec_move_of_code(spec_read16(b, off + 32)),
        work: spec_read64(b, off + 34),
    }
}

/// `b` is a well-formed snapshot: magic, version, zero flags, a UTF-8 FEN
/// line, the header fields, exactly as many record bytes as the counts say,
/// and valid outcome bytes.
pub open spec fn spec_snapshot_ok(b: Seq<u8>) -> bool {
    let e = spec_fen_end(b);
    let base = spec_records_start(b);
    let sc = spec_solved_count_of(b);
    let uc = spec_unsolved_count_of(b);
    &&& b.len() >= 10
    &&& b.take(8) == spec_snapshot_magic()
    &&& b[8] == SNAPSHOT_VERSION
    &&& b[9] == SNAPSHOT_FLAGS
    &&& e < b.len()
    &&& valid_utf8(b.subrange(10, e))
    &&& b.len() >= base
    &&& b.len() == base + 15 * sc + 42 * uc
    &&& forall|i: int| 0 <= i < sc ==> #[trigger] b[base + 15 * i + 8] <= 2
}

/// What a well-formed snapshot holds.
pub open spec fn spec_snapshot_decoded(b: Seq<u8>, h: SnapshotHeader, solved: Seq<SolvedRecord>, unsolved: Seq<UnsolvedRecord>) -> bool {
    let e = spec_fen_end(b);
    let base = spec_records_start(b);
    let sc = spec_solved_count_of(b);
    let uc = spec_unsolved_count_of(b);
    &&& h.root_fen@ == decode_utf8(b.subrange(10, e))
    &&& h.tt_size_mb == spec_read32(b, e + 1)
    &&& h.generation == spec_read32(b, e + 5)
    &&& h.solved_count == sc
    &&& h.unsolved_count == uc
    &&& solved.len() == sc
    &&& unsolved.len() == uc
    &&& forall|i: int| 0 <= i < sc ==> #[trigger] solved[i] == spec_solved_at(b, base + 15 * i)
    &&& forall|i: int| 0 <= i < uc ==> #[trigger] unsolved[i] == spec_unsolved_at(b, base + 15 * sc + 42 * i)
}

/// The newline search from `i` finds the same newline in a sequence that
/// agrees with `b` up to and including it.
proof fn lemma_newline_agrees(b: Seq<u8>, b2: Seq<u8>, i: int)
    requires
        0 <= i,
        spec_newline_from(b, i) < b.len(),
        spec_newline_from(b, i) < b2.len(),
        forall|j: int| i <= j <= spec_newline_from(b, i) ==> #[trigger] b2[j] == b[j],
    ensures
        spec_newline_from(b2, i) == spec_newline_from(b, i),
    decreases b.len() - i,
{
    if i < b.len() {
        lemma_newline_at_least(b, i);
        assert(b2[i] == b[i]);
        if b[i] != 10 {
            lemma_newline_agrees(b, b2, i + 1);
        }
    }
}

/// The newline search from a position inside the sequence ends at or after it.
proof fn lemma_newline_at_least(b: Seq<u8>, i: int)
    requires
        0 <= i < b.len(),
    ensures
        i <= spec_newline_from(b, i) <= b.len(),
    decreases b.len() - i,
{
    reveal_with_fuel(spec_newline_from, 2);
    if b[i] != 10 && i + 1 < b.len() {
        lemma_newline_at_least(b, i + 1);
    }
}

/// Two sequences that agree on eight bytes read the same 64-bit number there.
proof fn lemma_read64_agrees(b: Seq<u8>, b2: Seq<u8>, off: int)
    requires
        0 <= off,
        off + 8 <= b.len(),
        off + 8 <= b2.len(),
        forall|j: int| off <= j < off + 8 ==> #[trigger] b2[j] == b[j],
    ensures
        spec_read64(b2, off) == spec_read64(b, off),
{
    assert(b2[off] == b[off]);
    assert(b2[off + 1] == b[off + 1]);
    assert(b2[off + 2] == b[off + 2]);
    assert(b2[off + 3] == b[off + 3]);
    assert(b2[off + 4] == b[off + 4]);
    assert(b2[off + 5] == b[off + 5]);
    assert(b2[off + 6] == b[off + 6]);
    assert(b2[off + 7] == b[off + 7]);
}

/// Cut before the newline, the search runs to the end.
proof fn lemma_newline_cut(b: Seq<u8>, k: int, i: int)
    requires
        0 <= i,
        0 <= k <= spec_newline_from(b, i),
        spec_newline_from(b, i) <= b.len(),
    ensures
        spec_newline_from(b.take(k), i) == k || i > k,
    decreases b.len() - i,
{
    if i < k && b[i] != 10 {
        lemma_newline_cut(b, k, i + 1);
    }
}

/// A well-formed snapshot is refused once its last bytes are cut off, once
/// bytes are appended, and once its magic, version or flags byte changes.
pub proof fn lemma_snapshot_rejections(b: Seq<u8>, k: int, extra: Seq<u8>, i: int, x: u8)
    requires
        spec_snapshot_ok(b),
        0 <= k < b.len(),
        extra.len() > 0,
        0 <= i < 10,
        x != b[i],
    ensures
        !spec_snapshot_ok(b.take(k)),
        !spec_snapshot_ok(b + extra),
        !spec_snapshot_ok(b.update(i, x)),
{
    let e = spec_fen_end(b);
    let base = spec_records_start(b);
    // Appended bytes: the header reads the same, the length does not.
    let b2 = b + extra;
    lemma_newline_at_least(b, 10);
    lemma_newline_agrees(b, b2, 10);
    lemma_read64_agrees(b, b2, e + 9);
    lemma_read64_agrees(b, b2, e + 17);
    // A cut.
    let c = b.take(k);
    if k <= e {
        lemma_newline_cut(b, k, 10);
        if k >= 10 {
            assert(spec_fen_end(c) == k);
        }
    } else {
        lemma_newline_agrees(b, c, 10);
        if k >= base {
            lemma_read64_agrees(b, c, e + 9);
            lemma_read64_agrees(b, c, e + 17);
        }
    }
    // A changed header byte.
    let u = b.update(i, x);
    if i < 8 {
        assert(u.take(8)[i] != spec_snapshot_magic()[i]);
    }
}

/// A header count field rewritten at `off`: the eight bytes become `x`.
pub open spec fn spec_with_count(b: Seq<u8>, off: int, x: u64) -> Seq<u8> {
    b.take(off) + spec_le64(x) + b.skip(off + 8)
}

/// Rewriting one count field of a well-formed snapshot keeps its root FEN
/// line and the other count, and reads back the new value.
proof fn lemma_count_rewrite(b: Seq<u8>, off: int, x: u64, other: int)
    requires
        spec_snapshot_ok(b),
        off == spec_fen_end(b) + 9 || off == spec_fen_end(b) + 17,
        other == spec_fen_end(b) + 9 || other == spec_fen_end(b) + 17,
        other != off,
    ensures
        spec_with_count(b, off, x).len() == b.len(),
        spec_fen_end(spec_with_count(b, off, x)) == spec_fen_end(b),
        spec_read64(spec_with_count(b, off, x), off) == x,
        spec_read64(spec_with_count(b, off, x), other) == spec_read64(b, other),
{
    let e = spec_fen_end(b);
    let b2 = spec_with_count(b, off, x);
    lemma_newline_at_least(b, 10);
    assert(spec_le64(x).len() == 8);
    assert forall|j: int| 10 <= j <= e implies #[trigger] b2[j] == b[j] by {}
    lemma_newline_agrees(b, b2, 10);
    assert(b2.subrange(off, off + 8) =~= spec_le64(x));
    lemma_read64_le(b2, off, x);
    assert forall|j: int| other <= j < other + 8 implies #[trigger] b2[j] == b[j] by {}
    lemma_read64_agrees(b, b2, other);
}

/// A well-formed snapshot whose solved or unsolved record count is raised
/// by one, with nothing else changed, is refused: its records no longer
/// fill the bytes.
pub proof fn lemma_snapshot_count_raised(b: Seq<u8>)
    requires
        spec_snapshot_ok(b),
    ensures
        spec_solved_count_of(b) < u64::MAX ==> !spec_snapshot_ok(
            spec_with_count(b, spec_fen_end(b) + 9, (spec_solved_count_of(b) + 1) as u64),
        ),
        spec_unsolved_count_of(b) < u64::MAX ==> !spec_snapshot_ok(
            spec_with_count(b, spec_fen_end(b) + 17, (spec_unsolved_count_of(b) + 1) as u64),
        ),
{
    let e = spec_fen_end(b);
    if spec_solved_count_of(b) < u64::MAX {
        lemma_count_rewrite(b, e + 9, (spec_solved_count_of(b) + 1) as u64, e + 17);
    }
    if spec_unsolved_count_of(b) < u64::MAX {
        lemma_count_rewrite(b, e + 17, (spec_unsolved_count_of(b) + 1) as u64, e + 9);
    }
}

/// Read a snapshot: strict about the magic, version, flags, outcome bytes,
/// truncation and trailing bytes.
#[verifier::rlimit(60)]
pub fn read_tt_snapshot(bytes: &[u8]) -> (r: Result<(SnapshotHeader, Vec<SolvedRecord>, Vec<UnsolvedRecord>), SnapshotError>)
    ensures
        r is Ok <==> spec_snapshot_ok(bytes@),
        r matches Ok(t) ==> spec_snapshot_decoded(bytes@, t.0, t.1@, t.2@),
        bytes.len() < 8 ==> r == Err::<(SnapshotHeader, Vec<SolvedRecord>, Vec<UnsolvedRecord>), SnapshotError>(
            SnapshotError::UnexpectedEof,
        ),
        bytes.len() >= 8 && bytes@.take(8) != spec_snapshot_magic() ==> r == Err::<
            (SnapshotHeader, Vec<SolvedRecord>, Vec<UnsolvedRecord>),
            SnapshotError,
        >(SnapshotError::BadMagic),
        bytes.len() >= 10 && bytes@.take(8) == spec_snapshot_magic() && bytes@[8] != SNAPSHOT_VERSION ==> r == Err::<
            (SnapshotHeader, Vec<SolvedRecord>, Vec<UnsolvedRecord>),
            SnapshotError,
        >(SnapshotError::UnsupportedVersion(bytes@[8])),
{
    let ghost b = bytes@;
    if bytes.len() < 8 {
        return Err(SnapshotError::UnexpectedEof);
    }
    let m = snapshot_magic();
    let mut j: usize = 0;
    while j < 8
        invariant
            j <= 8,
            bytes.len() >= 8,
            m@ == spec_snapshot_magic(),
            forall|t: int| 0 <= t < j ==> bytes@[t] == m@[t],
        decreases 8 - j,
    {
        if bytes[j] != m[j] {
            proof {
                assert(bytes@.take(8)[j as int] != spec_snapshot_magic()[j as int]);
            }
            return Err(SnapshotError::BadMagic);
        }
        j += 1;
    }
    proof {
        assert(bytes@.take(8) =~= spec_snapshot_magic());
    }
    if bytes.len() < 10 {
        return Err(SnapshotError::UnexpectedEof);
    }
    if bytes[8] != SNAPSHOT_VERSION {
        return Err(SnapshotError::UnsupportedVersion(bytes[8]));
    }
    if bytes[9] != 0 {
        return Err(SnapshotError::UnsupportedFlags(bytes[9]));
    }
    let mut p: usize = 10;
    while p < bytes.len() && bytes[p] != 10u8
        invariant
            10 <= p <= bytes.len(),
            spec_newline_from(b, p as int) == spec_fen_end(b),
            b == bytes@,
        decreases bytes.len() - p,
    {
        p += 1;
    }
    proof {
        assert(spec_newline_from(b, p as int) == p);
    }
    if p >= bytes.len() {
        return Err(SnapshotError::UnexpectedEof);
    }
    let mut fen_bytes: Vec<u8> = Vec::new();
    let mut q: usize = 10;
    while q < p
        invariant
            10 <= q <= p,
            p < bytes.len(),
            fen_bytes@ == b.subrange(10, q as int),
            b == bytes@,
        decreases p - q,
    {
        fen_bytes.push(bytes[q]);
        q += 1;
        proof {
            assert(fen_bytes@ =~= b.subrange(10, q as int));
        }
    }
    let root_fen = match string_from_utf8(fen_bytes) {
        Some(s) => s,
        None => return Err(SnapshotError::InvalidFenText),
    };
    let mut off = p + 1;
    if bytes.len() - off < 24 {
        return Err(SnapshotError::UnexpectedEof);
    }
    let tt_size_mb = read32(bytes, off);
    let generation = read32(bytes, off + 4);
    let solved_count = read64(bytes, off + 8);
    let unsolved_count = read64(bytes, off + 16);
    off = off + 24;
    let ghost base: int = off as int;
    let mut solved: Vec<SolvedRecord> = Vec::new();
    let mut c: u64 = 0;
    while c < solved_count
        invariant
            c <= solved_count,
            off <= bytes.len(),
            b == bytes@,
            b.len() >= 10,
            b.take(8) == spec_snapshot_magic(),
            b[8] == SNAPSHOT_VERSION,
            base == spec_records_start(b),
            solved_count == spec_solved_count_of(b),
            off == base + 15 * c,
            solved.len() == c,
            forall|i: int| 0 <= i < c ==> #[trigger] solved@[i] == spec_solved_at(b, base + 15 * i),
            forall|i: int| 0 <= i < c ==> #[trigger] b[base + 15 * i + 8] <= 2,
        decreases solved_count - c,
    {
        if bytes.len() - off < 15 {
            proof {
                assert(15 * c + 15 <= 15 * solved_count) by (nonlinear_arith)
                    requires c < solved_count;
            }
            return Err(SnapshotError::UnexpectedEof);
        }
        let key = read64(bytes, off);
        let code = bytes[off + 8];
        let outcome = match outcome_from_u8(code) {
            Some(o) => o,
            None => {
                proof {
                    assert(b[base + 15 * c + 8] == code);
                }
                return Err(SnapshotError::InvalidSolvedOutcome);
            },
        };
        let depth = read32(bytes, off + 9);
        let best_move = move_from_u16(read16(bytes, off + 13));
        let rec = SolvedRecord { key, outcome, depth, best_move };
        proof {
            assert(outcome == spec_outcome_of_code(code));
            assert(rec == spec_solved_at(b, base + 15 * c));
        }
        solved.push(rec);
        off = off + 15;
        c += 1;
    }
    let ghost ubase: int = off as int;
    let mut unsolved: Vec<UnsolvedRecord> = Vec::new();
    let mut c: u64 = 0;
    while c < unsolved_count
        invariant
            c <= unsolved_count,
            off <= bytes.len(),
            b == bytes@,
            b.len() >= 10,
            b.take(8) == spec_snapshot_magic(),
            b[8] == SNAPSHOT_VERSION,
            ubase == spec_records_start(b) + 15 * spec_solved_count_of(b),
            unsolved_count == spec_unsolved_count_of(b),
            off == ubase + 42 * c,
            unsolved.len() == c,
            forall|i: int| 0 <= i < c ==> #[trigger] unsolved@[i] == spec_unsolved_at(b, ubase + 42 * i),
        decreases unsolved_count - c,
    {
        if bytes.len() - off < 42 {
            proof {
                assert(42 * c + 42 <= 42 * unsolved_count) by (nonlinear_arith)
                    requires c < unsolved_count;
            }
            return Err(SnapshotError::UnexpectedEof);
        }
        let key = read64(bytes, off);
        let pn = read64(bytes, off + 8);
        let dn = read64(bytes, off + 16);
        let depth = read32(bytes, off + 24);
        let remaining_depth = read32(bytes, off + 28);
        let best_move = move_from_u16(read16(bytes, off + 32));
        let work = read64(bytes, off + 34);
        let rec = UnsolvedRecord { key, pn, dn, depth, remaining_depth, best_move, work };
        proof {
            assert(rec == spec_unsolved_at(b, ubase + 42 * c));
        }
        unsolved.push(rec);
        off = off + 42;
        c += 1;
    }
    if off != bytes.len() {
        return Err(SnapshotError::TrailingBytes);
    }
    let header = SnapshotHeader { root_fen, tt_size_mb, generation, solved_count, unsolved_count };
    proof {
        assert(spec_snapshot_decoded(b, header, solved@, unsolved@));
    }
    Ok((header, solved, unsolved))
}


// ---------------------------------------------------------------------
// Reading back what was written
// ---------------------------------------------------------------------


/// The solved entries of `s`, in order.
pub open spec fn spec_solved_entries(s: Seq<TtEntry>) -> Seq<TtEntry>
    decreases s.len(),
{
    if s.len() == 0 {
        Seq::empty()
    } else {
        spec_solved_entries(s.drop_last()) + (if s.last().outcome is Some { seq![s.last()] } else { Seq::empty() })
    }
}

/// The unsolved entries of generation `g` in `s`, in order.
pub open spec fn spec_unsolved_entries(s: Seq<TtEntry>, g: u32) -> Seq<TtEntry>
    decreases s.len(),
{
    if s.len() == 0 {
        Seq::empty()
    } else {
        spec_unsolved_entries(s.drop_last(), g) + (if s.last().outcome is None && s.last().generation == g {
            seq![s.last()]
        } else {
            Seq::empty()
        })
    }
}

/// What a snapshot keeps of a solved entry.
pub open spec fn spec_solved_record_of(e: TtEntry) -> SolvedRecord {
    SolvedRecord {
        key: e.key,
        outcome: e.outcome->0,
        depth: e.depth,
        best_move: spec_move_of_code(spec_move_code(e.best_move)),
    }
}

/// What a snapshot keeps of an unsolved entry.
pub open spec fn spec_unsolved_record_of(e: TtEntry) -> UnsolvedRecord {
    UnsolvedRecord {
        key: e.key,
        pn: e.pn,
        dn: e.dn,
        depth: e.depth,
        remaining_depth: e.remaining_depth,
        best_move: spec_move_of_code(spec_move_code(e.best_move)),
        work: e.work,
    }
}

proof fn lemma_solved_section(s: Seq<TtEntry>)
    ensures
        spec_solved_entries(s).len() == spec_count_solved_entries(s),
        spec_solved_section(s).len() == 15 * spec_count_solved_entries(s),
        forall|i: int| 0 <= i < spec_count_solved_entries(s) ==> (#[trigger] spec_solved_entries(s)[i]).outcome is Some
            && spec_solved_section(s).subrange(15 * i, 15 * i + 15) == spec_solved_record(spec_solved_entries(s)[i]),
    decreases s.len(),
{
    if s.len() > 0 {
        let t = s.drop_last();
        lemma_solved_section(t);
        let c = spec_count_solved_entries(t) as int;
        if s.last().outcome is Some {
            let sec = spec_solved_section(s);
            assert(sec == spec_solved_section(t) + spec_solved_record(s.last()));
            assert forall|i: int| 0 <= i < spec_count_solved_entries(s) implies (#[trigger] spec_solved_entries(s)[i]).outcome is Some
                && sec.subrange(15 * i, 15 * i + 15) == spec_solved_record(spec_solved_entries(s)[i]) by {
                if i < c {
                    assert(spec_solved_entries(s)[i] == spec_solved_entries(t)[i]);
                    assert(sec.subrange(15 * i, 15 * i + 15) =~= spec_solved_section(t).subrange(15 * i, 15 * i + 15));
                } else {
                    assert(spec_solved_entries(s)[i] == s.last());
                    assert(sec.subrange(15 * i, 15 * i + 15) =~= spec_solved_record(s.last()));
                }
            }
        } else {
            assert(spec_solved_entries(s) =~= spec_solved_entries(t));
            assert(spec_solved_section(s) =~= spec_solved_section(t));
        }
    }
}

#[verifier::spinoff_prover]
#[verifier::rlimit(100)]
proof fn lemma_unsolved_section(s: Seq<TtEntry>, g: u32)
    ensures
        spec_unsolved_entries(s, g).len() == spec_count_unsolved_entries(s, g),
        spec_unsolved_section(s, g).len() == 42 * spec_count_unsolved_entries(s, g),
        forall|i: int| 0 <= i < spec_count_unsolved_entries(s, g) ==> spec_unsolved_section(s, g).subrange(42 * i, 42 * i + 42)
            == spec_unsolved_record(#[trigger] spec_unsolved_entries(s, g)[i]),
    decreases s.len(),
{
    if s.len() > 0 {
        let t = s.drop_last();
        lemma_unsolved_section(t, g);
        let c = spec_count_unsolved_entries(t, g) as int;
        if s.last().outcome is None && s.last().generation == g {
            let sec = spec_unsolved_section(s, g);
            assert(sec == spec_unsolved_section(t, g) + spec_unsolved_record(s.last()));
            assert forall|i: int| 0 <= i < spec_count_unsolved_entries(s, g) implies sec.subrange(42 * i, 42 * i + 42)
                == spec_unsolved_record(#[trigger] spec_unsolved_entries(s, g)[i]) by {
                if i < c {
                    assert(spec_unsolved_entries(s, g)[i] == spec_unsolved_entries(t, g)[i]);
                    assert(sec.subrange(42 * i, 42 * i + 42) =~= spec_unsolved_section(t, g).subrange(42 * i, 42 * i + 42));
                } else {
                    assert(spec_unsolved_entries(s, g)[i] == s.last());
                    assert(sec.subrange(42 * i, 42 * i + 42) =~= spec_unsolved_record(s.last()));
                }
            }
        } else {
            assert(spec_unsolved_entries(s, g) =~= spec_unsolved_entries(t, g));
            assert(spec_unsolved_section(s, g) =~= spec_unsolved_section(t, g));
        }
    }
}

/// Where the parts of a solved record lie.
proof fn lemma_solved_parts(r: Seq<u8>, k: Seq<u8>, o: Seq<u8>, d: Seq<u8>, m: Seq<u8>)
    requires
        k.len() == 8,
        o.len() == 1,
        d.len() == 4,
        m.len() == 2,
        r == k + o + d + m,
    ensures
        r.len() == 15,
        r.subrange(0, 8) == k,
        r[8] == o[0],
        r.subrange(9, 13) == d,
        r.subrange(13, 15) == m,
{
    assert(r.subrange(0, 8) =~= k);
    assert(r.subrange(9, 13) =~= d);
    assert(r.subrange(13, 15) =~= m);
}

/// Where the parts of an unsolved record lie.
#[verifier::spinoff_prover]
#[verifier::rlimit(50)]
proof fn lemma_unsolved_parts(
    r: Seq<u8>,
    k: Seq<u8>,
    p: Seq<u8>,
    q: Seq<u8>,
    d: Seq<u8>,
    e: Seq<u8>,
    m: Seq<u8>,
    w: Seq<u8>,
)
    requires
        k.len() == 8,
        p.len() == 8,
        q.len() == 8,
        d.len() == 4,
        e.len() == 4,
        m.len() == 2,
        w.len() == 8,
        r == k + p + q + d + e + m + w,
    ensures
        r.len() == 42,
        r.subrange(0, 8) == k,
        r.subrange(8, 16) == p,
        r.subrange(16, 24) == q,
        r.subrange(24, 28) == d,
        r.subrange(28, 32) == e,
        r.subrange(32, 34) == m,
        r.subrange(34, 42) == w,
{
    assert(r.subrange(0, 8) =~= k);
    assert(r.subrange(8, 16) =~= p);
    assert(r.subrange(16, 24) =~= q);
    assert(r.subrange(24, 28) =~= d);
    assert(r.subrange(28, 32) =~= e);
    assert(r.subrange(32, 34) =~= m);
    assert(r.subrange(34, 42) =~= w);
}

proof fn lemma_solved_record_read(b: Seq<u8>, off: int, e: TtEntry)
    requires
        0 <= off,
        off + 15 <= b.len(),
        b.subrange(off, off + 15) == spec_solved_record(e),
        e.outcome is Some,
    ensures
        spec_solved_at(b, off) == spec_solved_record_of(e),
        b[off + 8] <= 2,
{
    let r = spec_solved_record(e);
    let code = spec_move_code(e.best_move);
    lemma_solved_parts(r, spec_le64(e.key), seq![spec_outcome_code(e.outcome->0)], spec_le32(e.depth), spec_le16(code));
    lemma_window(b, off, r, 0, 8);
    lemma_read64_le(b, off, e.key);
    assert(b[off + 8] == b.subrange(off, off + 15)[8]);
    lemma_window(b, off, r, 9, 13);
    lemma_read32_le(b, off + 9, e.depth);
    lemma_window(b, off, r, 13, 15);
    lemma_read16_le(b, off + 13, code);
}

#[verifier::spinoff_prover]
#[verifier::rlimit(40)]
proof fn lemma_unsolved_record_read(b: Seq<u8>, off: int, e: TtEntry)
    requires
        0 <= off,
        off + 42 <= b.len(),
        b.subrange(off, off + 42) == spec_unsolved_record(e),
    ensures
        spec_unsolved_at(b, off) == spec_unsolved_record_of(e),
{
    let r = spec_unsolved_record(e);
    let code = spec_move_code(e.best_move);
    lemma_unsolved_parts(
        r,
        spec_le64(e.key),
        spec_le64(e.pn),
        spec_le64(e.dn),
        spec_le32(e.depth),
        spec_le32(e.remaining_depth),
        spec_le16(code),
        spec_le64(e.work),
    );
    lemma_window(b, off, r, 0, 8);
    lemma_read64_le(b, off, e.key);
    lemma_window(b, off, r, 8, 16);
    lemma_read64_le(b, off + 8, e.pn);
    lemma_window(b, off, r, 16, 24);
    lemma_read64_le(b, off + 16, e.dn);
    lemma_window(b, off, r, 24, 28);
    lemma_read32_le(b, off + 24, e.depth);
    lemma_window(b, off, r, 28, 32);
    lemma_read32_le(b, off + 28, e.remaining_depth);
    lemma_window(b, off, r, 32, 34);
    lemma_read16_le(b, off + 32, code);
    lemma_window(b, off, r, 34, 42);
    lemma_read64_le(b, off + 34, e.work);
}

/// Where the parts of a header laid end to end lie.
#[verifier::spinoff_prover]
#[verifier::rlimit(50)]
proof fn lemma_header_parts(head: Seq<u8>, magic: Seq<u8>, fen: Seq<u8>, a: Seq<u8>, c: Seq<u8>, d: Seq<u8>, h: Seq<u8>)
    requires
        magic.len() == 8,
        a.len() == 4,
        c.len() == 4,
        d.len() == 8,
        h.len() == 8,
        head == magic + seq![SNAPSHOT_VERSION, SNAPSHOT_FLAGS] + fen + seq![10u8] + a + c + d + h,
    ensures
        ({
            let e = 10 + fen.len() as int;
            &&& head.len() == e + 25
            &&& head.take(8) == magic
            &&& head[8] == SNAPSHOT_VERSION
            &&& head[9] == SNAPSHOT_FLAGS
            &&& head.subrange(10, e) == fen
            &&& head[e] == 10u8
            &&& head.subrange(e + 1, e + 5) == a
            &&& head.subrange(e + 5, e + 9) == c
            &&& head.subrange(e + 9, e + 17) == d
            &&& head.subrange(e + 17, e + 25) == h
        }),
{
    let e = 10 + fen.len() as int;
    assert(head.take(8) =~= magic);
    assert(head.subrange(10, e) =~= fen);
    assert(head.subrange(e + 1, e + 5) =~= a);
    assert(head.subrange(e + 5, e + 9) =~= c);
    assert(head.subrange(e + 9, e + 17) =~= d);
    assert(head.subrange(e + 17, e + 25) =~= h);
}

/// What the header fields of bytes laid out as a snapshot read as.
#[verifier::spinoff_prover]
#[verifier::rlimit(50)]
proof fn lemma_header_fields(
    b: Seq<u8>,
    head: Seq<u8>,
    x: Seq<u8>,
    y: Seq<u8>,
    fen: Seq<u8>,
    tt_size_mb: u32,
    g: u32,
    sc: u64,
    uc: u64,
)
    requires
        !fen.contains(10u8),
        head == spec_snapshot_magic() + seq![SNAPSHOT_VERSION, SNAPSHOT_FLAGS] + fen + seq![10u8] + spec_le32(tt_size_mb)
            + spec_le32(g) + spec_le64(sc) + spec_le64(uc),
        b == head + x + y,
    ensures
        ({
            let e = 10 + fen.len() as int;
            &&& b.len() == e + 25 + x.len() + y.len()
            &&& b.take(8) == spec_snapshot_magic()
            &&& b[8] == SNAPSHOT_VERSION
            &&& b[9] == SNAPSHOT_FLAGS
            &&& spec_fen_end(b) == e
            &&& b.subrange(10, e) == fen
            &&& spec_read32(b, e + 1) == tt_size_mb
            &&& spec_read32(b, e + 5) == g
            &&& spec_read64(b, e + 9) == sc
            &&& spec_read64(b, e + 17) == uc
            &&& b.subrange(e + 25, e + 25 + x.len()) == x
            &&& b.subrange(e + 25 + x.len(), b.len() as int) == y
        }),
{
    let a = spec_le32(tt_size_mb);
    let c = spec_le32(g);
    let d = spec_le64(sc);
    let h = spec_le64(uc);
    lemma_header_parts(head, spec_snapshot_magic(), fen, a, c, d, h);
    lemma_three_parts(b, head, x, y);
    let e = 10 + fen.len() as int;
    assert(b.subrange(0, 8) == head.subrange(0, 8));
    assert(b.subrange(10, e) == head.subrange(10, e));
    assert(b[8] == head[8]);
    assert(b[9] == head[9]);
    assert(b[e] == head[e]);
    lemma_newline_after(b, 10, fen, 10);
    assert(b.subrange(e + 1, e + 5) == head.subrange(e + 1, e + 5));
    lemma_read32_le(b, e + 1, tt_size_mb);
    assert(b.subrange(e + 5, e + 9) == head.subrange(e + 5, e + 9));
    lemma_read32_le(b, e + 5, g);
    assert(b.subrange(e + 9, e + 17) == head.subrange(e + 9, e + 17));
    lemma_read64_le(b, e + 9, sc);
    assert(b.subrange(e + 17, e + 25) == head.subrange(e + 17, e + 25));
    lemma_read64_le(b, e + 17, uc);
}

/// The layout of a written snapshot: where its FEN line ends, what its
/// header fields read as, and where its two sections lie.
#[verifier::spinoff_prover]
proof fn lemma_snapshot_layout(fen: Seq<u8>, tt_size_mb: u32, tt: TranspositionTable)
    requires
        !fen.contains(10u8),
        tt.wf(),
    ensures
        ({
            let b = spec_snapshot(fen, tt_size_mb, tt);
            let s = tt.slots();
            let g = tt.generation();
            let e = 10 + fen.len() as int;
            let base = e + 25;
            let ssec = spec_solved_section(s);
            let usec = spec_unsolved_section(s, g);
            &&& b.len() == base + ssec.len() + usec.len()
            &&& b.take(8) == spec_snapshot_magic()
            &&& b[8] == SNAPSHOT_VERSION
            &&& b[9] == SNAPSHOT_FLAGS
            &&& spec_fen_end(b) == e
            &&& b.subrange(10, e) == fen
            &&& spec_read32(b, e + 1) == tt_size_mb
            &&& spec_read32(b, e + 5) == g
            &&& spec_solved_count_of(b) == spec_count_solved_entries(s)
            &&& spec_unsolved_count_of(b) == spec_count_unsolved_entries(s, g)
            &&& b.subrange(base, base + ssec.len()) == ssec
            &&& b.subrange(base + ssec.len(), b.len() as int) == usec
        }),
{
    let s = tt.slots();
    let g = tt.generation();
    let b = spec_snapshot(fen, tt_size_mb, tt);
    let sc = spec_count_solved_entries(s) as u64;
    let uc = spec_count_unsolved_entries(s, g) as u64;
    tt.lemma_slot_count();
    lemma_counts_bounded(s, g);
    let head = spec_snapshot_magic() + seq![SNAPSHOT_VERSION, SNAPSHOT_FLAGS] + fen + seq![10u8] + spec_le32(tt_size_mb)
        + spec_le32(g) + spec_le64(sc) + spec_le64(uc);
    let ssec = spec_solved_section(s);
    let usec = spec_unsolved_section(s, g);
    assert(b == head + ssec + usec);
    lemma_header_fields(b, head, ssec, usec, fen, tt_size_mb, g, sc, uc);
}

/// The solved section of `s`, laid at `base` in `b`, reads back as the
/// records of the solved entries, each with a valid outcome byte.
proof fn lemma_solved_records(b: Seq<u8>, base: int, s: Seq<TtEntry>)
    requires
        0 <= base,
        base + spec_solved_section(s).len() <= b.len(),
        b.subrange(base, base + spec_solved_section(s).len()) == spec_solved_section(s),
    ensures
        spec_solved_entries(s).len() == spec_count_solved_entries(s),
        spec_solved_section(s).len() == 15 * spec_count_solved_entries(s),
        forall|i: int|
            0 <= i < spec_count_solved_entries(s) ==> spec_solved_at(b, base + 15 * i) == spec_solved_record_of(
                #[trigger] spec_solved_entries(s)[i],
            ) && b[base + 15 * i + 8] <= 2,
{
    let ssec = spec_solved_section(s);
    lemma_solved_section(s);
    assert forall|i: int| 0 <= i < spec_count_solved_entries(s) implies spec_solved_at(b, base + 15 * i)
        == spec_solved_record_of(#[trigger] spec_solved_entries(s)[i]) && b[base + 15 * i + 8] <= 2 by {
        assert(15 * i + 15 <= 15 * spec_count_solved_entries(s)) by (nonlinear_arith)
            requires i < spec_count_solved_entries(s);
        lemma_window(b, base, ssec, 15 * i, 15 * i + 15);
        lemma_solved_record_read(b, base + 15 * i, spec_solved_entries(s)[i]);
    }
}

/// The unsolved section of `s` for generation `g`, laid at `base` in `b`,
/// reads back as the records of those entries.
proof fn lemma_unsolved_records(b: Seq<u8>, base: int, s: Seq<TtEntry>, g: u32)
    requires
        0 <= base,
        base + spec_unsolved_section(s, g).len() <= b.len(),
        b.subrange(base, base + spec_unsolved_section(s, g).len()) == spec_unsolved_section(s, g),
    ensures
        spec_unsolved_entries(s, g).len() == spec_count_unsolved_entries(s, g),
        spec_unsolved_section(s, g).len() == 42 * spec_count_unsolved_entries(s, g),
        forall|i: int|
            0 <= i < spec_count_unsolved_entries(s, g) ==> spec_unsolved_at(b, base + 42 * i) == spec_unsolved_record_of(
                #[trigger] spec_unsolved_entries(s, g)[i],
            ),
{
    let usec = spec_unsolved_section(s, g);
    lemma_unsolved_section(s, g);
    assert forall|i: int| 0 <= i < spec_count_unsolved_entries(s, g) implies spec_unsolved_at(b, base + 42 * i)
        == spec_unsolved_record_of(#[trigger] spec_unsolved_entries(s, g)[i]) by {
        assert(42 * i + 42 <= 42 * spec_count_unsolved_entries(s, g)) by (nonlinear_arith)
            requires i < spec_count_unsolved_entries(s, g);
        lemma_window(b, base, usec, 42 * i, 42 * i + 42);
        lemma_unsolved_record_read(b, base + 42 * i, spec_unsolved_entries(s, g)[i]);
    }
}

/// A snapshot written for a root FEN without a newline is well formed, and
/// reading it back gives the FEN, the table size, the table's generation,
/// a record of every solved entry and one of every unsolved entry of the
/// current generation, in bucket order.
#[verifier::spinoff_prover]
#[verifier::rlimit(100)]
pub proof fn lemma_snapshot_round_trip(
    fen: Seq<u8>,
    tt_size_mb: u32,
    tt: TranspositionTable,
    h: SnapshotHeader,
    solved: Seq<SolvedRecord>,
    unsolved: Seq<UnsolvedRecord>,
)
    requires
        !fen.contains(10u8),
        valid_utf8(fen),
        tt.wf(),
    ensures
        spec_snapshot_ok(spec_snapshot(fen, tt_size_mb, tt)),
        spec_snapshot_decoded(spec_snapshot(fen, tt_size_mb, tt), h, solved, unsolved) ==> {
            &&& h.root_fen@ == decode_utf8(fen)
            &&& h.tt_size_mb == tt_size_mb
            &&& h.generation == tt.generation()
            &&& solved == spec_solved_entries(tt.slots()).map_values(|e: TtEntry| spec_solved_record_of(e))
            &&& unsolved == spec_unsolved_entries(tt.slots(), tt.generation()).map_values(|e: TtEntry| spec_unsolved_record_of(e))
        },
{
    let s = tt.slots();
    let g = tt.generation();
    let b = spec_snapshot(fen, tt_size_mb, tt);
    let e = 10 + fen.len() as int;
    let base = e + 25;
    let sc = spec_count_solved_entries(s);
    let uc = spec_count_unsolved_entries(s, g);
    lemma_snapshot_layout(fen, tt_size_mb, tt);
    let ssec = spec_solved_section(s);
    let usec = spec_unsolved_section(s, g);
    lemma_solved_records(b, base, s);
    let ubase = base + ssec.len() as int;
    assert(b.subrange(ubase, ubase + usec.len()) == usec);
    lemma_unsolved_records(b, ubase, s, g);
    assert(spec_records_start(b) == base);
    assert forall|i: int| 0 <= i < sc implies #[trigger] b[base + 15 * i + 8] <= 2 by {
        assert(spec_solved_at(b, base + 15 * i) == spec_solved_record_of(spec_solved_entries(s)[i]));
    }
    assert(spec_snapshot_ok(b));
    if spec_snapshot_decoded(b, h, solved, unsolved) {
        assert(solved =~= spec_solved_entries(s).map_values(|e: TtEntry| spec_solved_record_of(e)));
        assert forall|i: int| 0 <= i < uc implies unsolved[i] == spec_unsolved_record_of(
            #[trigger] spec_unsolved_entries(s, g)[i],
        ) by {
            assert(base + 15 * sc + 42 * i == ubase + 42 * i);
        }
        assert(unsolved =~= spec_unsolved_entries(s, g).map_values(|e: TtEntry| spec_unsolved_record_of(e)));
    }
}

} // verus!
