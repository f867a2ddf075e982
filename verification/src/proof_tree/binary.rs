//! The compact binary form of a proof tree (`proof_tree.bin`).
//!
//! Layout: the magic `ATOMTREE`, a version byte, the root FEN and a
//! newline, the root outcome byte (0 draw, 1 win, 2 loss), the root depth
//! (`u32`, little endian), then one record per node in id order: the parent
//! id (`u32`, `0xFFFF_FFFF` for the root), the 16-bit move code and, from
//! version 2 on, the node's work (`u64`). Outcomes and depths are not
//! stored: a reader derives them from the shape and the root outcome.

use vstd::prelude::*;

pub use crate::notation::{bits_to_move, move_to_bits};
use crate::notation::lemma_move_bits_round_trip;

use crate::moves::{lemma_fields_bounded, Move};
use crate::notation::spec_canonical_bits;
use crate::position::Outcome;
use crate::text::{push_decimal, spec_decimal};
use vstd::utf8::{decode_utf8, encode_utf8, valid_utf8};
use crate::proof_tree::node::{children_of, lemma_children_after, spec_chain, spec_children, spec_tree_wf, ProofNode, ProofTree};

verus! {

pub const VERSION: u8 = 2;

pub const ROOT_PARENT: u32 = 0xFFFF_FFFF;

pub const RECORD_SIZE_V2: usize = 14;

pub const RECORD_SIZE_V1: usize = 6;

/// The eight magic bytes `ATOMTREE`.
pub open spec fn spec_magic() -> Seq<u8> {
    seq![65u8, 84u8, 79u8, 77u8, 84u8, 82u8, 69u8, 69u8]
}

/// The magic bytes that open a dump.
pub fn magic() -> (r: Vec<u8>)
    ensures
        r@ == spec_magic(),
{
    let mut v: Vec<u8> = Vec::new();
    v.push(65);
    v.push(84);
    v.push(79);
    v.push(77);
    v.push(84);
    v.push(82);
    v.push(69);
    v.push(69);
    proof {
        assert(v@ =~= spec_magic());
    }
    v
}

/// Why a dump could not be written or read.
#[derive(Debug, Clone, Copy, PartialEq, Eq, Structural)]
pub enum ProofTreeFormatError {
    /// The data ended inside the header.
    UnexpectedEof,
    BadMagic,
    UnsupportedVersion(u8),
    /// The root FEN is not valid UTF-8 text.
    InvalidFenText,
    InvalidRootOutcome,
    TruncatedRecords,
    MissingRoot,
    TooManyNodes,
    BadRootRecord,
    ParentNotBefore,
    RootDepthMismatch(u32, u32),
    /// Writing: the root is a placeholder.
    UnrealizedRoot,
    /// Writing: some node is a placeholder.
    DummyNode,
}

impl ProofTreeFormatError {
    /// The message of each error.
    pub open spec fn spec_text(self) -> Seq<char> {
        match self {
            ProofTreeFormatError::UnexpectedEof => "unexpected end of data"@,
            ProofTreeFormatError::BadMagic => "bad magic: expected ATOMTREE"@,
            ProofTreeFormatError::UnsupportedVersion(v) => "unsupported proof-tree version "@ + spec_decimal(v as nat),
            ProofTreeFormatError::InvalidFenText => "root FEN line is not valid UTF-8"@,
            ProofTreeFormatError::InvalidRootOutcome => "invalid root_outcome"@,
            ProofTreeFormatError::TruncatedRecords => "truncated node records"@,
            ProofTreeFormatError::MissingRoot => "missing root node"@,
            ProofTreeFormatError::TooManyNodes => "proof tree exceeds u32 node-id limit"@,
            ProofTreeFormatError::BadRootRecord => "root record must have parent_id 0xFFFFFFFF and move_code 0"@,
            ProofTreeFormatError::ParentNotBefore => "parent_id must be smaller than child id"@,
            ProofTreeFormatError::RootDepthMismatch(h, d) => "root depth mismatch: header "@ + spec_decimal(h as nat)
                + " != derived "@ + spec_decimal(d as nat),
            ProofTreeFormatError::UnrealizedRoot => "cannot dump a proof tree with an unrealized root"@,
            ProofTreeFormatError::DummyNode => "cannot dump a proof tree containing dummy nodes"@,
        }
    }

    /// The error's message.
    pub fn to_text(self) -> (r: String)
        ensures
            r@ == self.spec_text(),
    {
        match self {
            ProofTreeFormatError::UnexpectedEof => String::from_str("unexpected end of data"),
            ProofTreeFormatError::BadMagic => String::from_str("bad magic: expected ATOMTREE"),
            ProofTreeFormatError::UnsupportedVersion(v) => {
                let mut s = String::from_str("unsupported proof-tree version ");
                push_decimal(&mut s, v as u64);
                s
            },
            ProofTreeFormatError::InvalidFenText => String::from_str("root FEN line is not valid UTF-8"),
            ProofTreeFormatError::InvalidRootOutcome => String::from_str("invalid root_outcome"),
            ProofTreeFormatError::TruncatedRecords => String::from_str("truncated node records"),
            ProofTreeFormatError::MissingRoot => String::from_str("missing root node"),
            ProofTreeFormatError::TooManyNodes => String::from_str("proof tree exceeds u32 node-id limit"),
            ProofTreeFormatError::BadRootRecord => String::from_str(
                "root record must have parent_id 0xFFFFFFFF and move_code 0",
            ),
            ProofTreeFormatError::ParentNotBefore => String::from_str("parent_id must be smaller than child id"),
            ProofTreeFormatError::RootDepthMismatch(h, d) => {
                let mut s = String::from_str("root depth mismatch: header ");
                push_decimal(&mut s, h as u64);
                s.append(" != derived ");
                push_decimal(&mut s, d as u64);
                s
            },
            ProofTreeFormatError::UnrealizedRoot => String::from_str("cannot dump a proof tree with an unrealized root"),
            ProofTreeFormatError::DummyNode => String::from_str("cannot dump a proof tree containing dummy nodes"),
        }
    }
}

pub open spec fn spec_outcome_code(o: Outcome) -> u8 {
    match o {
        Outcome::Draw => 0,
        Outcome::Win => 1,
        Outcome::Loss => 2,
    }
}

pub fn outcome_to_u8(outcome: Outcome) -> (r: u8)
    ensures
        r == spec_outcome_code(outcome),
{
    match outcome {
        Outcome::Draw => 0,
        Outcome::Win => 1,
        Outcome::Loss => 2,
    }
}

pub fn outcome_from_u8(value: u8) -> (r: Option<Outcome>)
    ensures
        r matches Some(o) ==> spec_outcome_code(o) == value,
        r is None <==> value > 2,
{
    if value == 0 {
        Some(Outcome::Draw)
    } else if value == 1 {
        Some(Outcome::Win)
    } else if value == 2 {
        Some(Outcome::Loss)
    } else {
        None
    }
}

/// Little-endian bytes of a `u32`.
pub open spec fn spec_le32(x: u32) -> Seq<u8> {
    seq![(x % 256) as u8, ((x / 256) % 256) as u8, ((x / 65536) % 256) as u8, ((x / 16777216) % 256) as u8]
}

pub open spec fn spec_le16(x: u16) -> Seq<u8> {
    seq![(x % 256) as u8, ((x / 256) % 256) as u8]
}

pub open spec fn spec_le64(x: u64) -> Seq<u8> {
    spec_le32((x % 0x1_0000_0000) as u32) + spec_le32((x / 0x1_0000_0000) as u32)
}

/// The `u32` stored little endian at `off`.
pub open spec fn spec_read32(b: Seq<u8>, off: int) -> u32 {
    (b[off] + b[off + 1] * 256 + b[off + 2] * 65536 + b[off + 3] * 16777216) as u32
}

pub open spec fn spec_read16(b: Seq<u8>, off: int) -> u16 {
    (b[off] + b[off + 1] * 256) as u16
}

pub open spec fn spec_read64(b: Seq<u8>, off: int) -> u64 {
    (spec_read32(b, off) + spec_read32(b, off + 4) * 0x1_0000_0000) as u64
}

pub(crate) fn push_le32(out: &mut Vec<u8>, x: u32)
    ensures
        final(out)@ == old(out)@ + spec_le32(x),
{
    out.push((x % 256) as u8);
    out.push(((x / 256) % 256) as u8);
    out.push(((x / 65536) % 256) as u8);
    out.push(((x / 16777216) % 256) as u8);
    proof {
        assert(final(out)@ =~= old(out)@ + spec_le32(x));
    }
}

pub(crate) fn push_le16(out: &mut Vec<u8>, x: u16)
    ensures
        final(out)@ == old(out)@ + spec_le16(x),
{
    out.push((x % 256) as u8);
    out.push(((x / 256) % 256) as u8);
    proof {
        assert(final(out)@ =~= old(out)@ + spec_le16(x));
    }
}

pub(crate) fn push_le64(out: &mut Vec<u8>, x: u64)
    ensures
        final(out)@ == old(out)@ + spec_le64(x),
{
    push_le32(out, (x % 0x1_0000_0000) as u32);
    push_le32(out, (x / 0x1_0000_0000) as u32);
    proof {
        assert(final(out)@ =~= old(out)@ + spec_le64(x));
    }
}

pub(crate) fn read32(b: &[u8], off: usize) -> (r: u32)
    requires
        off + 4 <= b.len(),
    ensures
        r == spec_read32(b@, off as int),
{
    (b[off] as u32) + (b[off + 1] as u32) * 256 + (b[off + 2] as u32) * 65536 + (b[off + 3] as u32) * 16777216
}

pub(crate) fn read16(b: &[u8], off: usize) -> (r: u16)
    requires
        off + 2 <= b.len(),
    ensures
        r == spec_read16(b@, off as int),
{
    (b[off] as u16) + (b[off + 1] as u16) * 256
}

pub(crate) fn read64(b: &[u8], off: usize) -> (r: u64)
    requires
        off + 8 <= b.len(),
    ensures
        r == spec_read64(b@, off as int),
{
    let lo = read32(b, off) as u64;
    let hi = read32(b, off + 4) as u64;
    lo + hi * 0x1_0000_0000
}

/// The index of the first newline at or after `i`, or `b.len()`.
pub open spec fn spec_newline_from(b: Seq<u8>, i: int) -> int
    decreases b.len() - i,
{
    if i < 0 || i >= b.len() {
        b.len() as int
    } else if b[i] == 10 {
        i
    } else {
        spec_newline_from(b, i + 1)
    }
}

pub(crate) proof fn lemma_read32_le(b: Seq<u8>, off: int, x: u32)
    requires
        0 <= off,
        off + 4 <= b.len(),
        b.subrange(off, off + 4) == spec_le32(x),
    ensures
        spec_read32(b, off) == x,
{
    assert(b[off] == spec_le32(x)[0]);
    assert(b[off + 1] == spec_le32(x)[1]);
    assert(b[off + 2] == spec_le32(x)[2]);
    assert(b[off + 3] == spec_le32(x)[3]);
    let v = x as int;
    assert((v % 256) + ((v / 256) % 256) * 256 + ((v / 65536) % 256) * 65536 + ((v / 16777216) % 256) * 16777216 == v)
        by (nonlinear_arith)
        requires
            0 <= v < 0x1_0000_0000,
    ;
}

pub(crate) proof fn lemma_read16_le(b: Seq<u8>, off: int, x: u16)
    requires
        0 <= off,
        off + 2 <= b.len(),
        b.subrange(off, off + 2) == spec_le16(x),
    ensures
        spec_read16(b, off) == x,
{
    assert(b[off] == spec_le16(x)[0]);
    assert(b[off + 1] == spec_le16(x)[1]);
    let v = x as int;
    assert((v % 256) + ((v / 256) % 256) * 256 == v) by (nonlinear_arith)
        requires
            0 <= v < 0x10000,
    ;
}

pub(crate) proof fn lemma_read64_le(b: Seq<u8>, off: int, x: u64)
    requires
        0 <= off,
        off + 8 <= b.len(),
        b.subrange(off, off + 8) == spec_le64(x),
    ensures
        spec_read64(b, off) == x,
{
    let lo = (x % 0x1_0000_0000) as u32;
    let hi = (x / 0x1_0000_0000) as u32;
    assert(b.subrange(off, off + 4) =~= b.subrange(off, off + 8).subrange(0, 4));
    assert(b.subrange(off + 4, off + 8) =~= b.subrange(off, off + 8).subrange(4, 8));
    assert(spec_le64(x).subrange(0, 4) =~= spec_le32(lo));
    assert(spec_le64(x).subrange(4, 8) =~= spec_le32(hi));
    lemma_read32_le(b, off, lo);
    lemma_read32_le(b, off + 4, hi);
    let v = x as int;
    assert((v % 0x1_0000_0000) + (v / 0x1_0000_0000) * 0x1_0000_0000 == v) by (nonlinear_arith)
        requires
            0 <= v,
    ;
}

/// A window of `b` that equals `r` holds `r`'s subranges at the same
/// offsets.
pub(crate) proof fn lemma_window(b: Seq<u8>, off: int, r: Seq<u8>, i: int, j: int)
    requires
        0 <= off,
        off + r.len() <= b.len(),
        b.subrange(off, off + r.len()) == r,
        0 <= i <= j <= r.len(),
    ensures
        b.subrange(off + i, off + j) == r.subrange(i, j),
{
    assert(b.subrange(off + i, off + j) =~= b.subrange(off, off + r.len()).subrange(i, j));
}

/// Subranges of `x + y + z` that lie in one part.
pub(crate) proof fn lemma_three_parts(b: Seq<u8>, x: Seq<u8>, y: Seq<u8>, z: Seq<u8>)
    requires
        b == x + y + z,
    ensures
        b.len() == x.len() + y.len() + z.len(),
        b.subrange(0, x.len() as int) == x,
        b.subrange(x.len() as int, (x.len() + y.len()) as int) == y,
        b.subrange((x.len() + y.len()) as int, b.len() as int) == z,
        forall|i: int, j: int| 0 <= i <= j <= x.len() ==> #[trigger] b.subrange(i, j) == x.subrange(i, j),
{
    assert(b.subrange(0, x.len() as int) =~= x);
    assert(b.subrange(x.len() as int, (x.len() + y.len()) as int) =~= y);
    assert(b.subrange((x.len() + y.len()) as int, b.len() as int) =~= z);
    assert forall|i: int, j: int| 0 <= i <= j <= x.len() implies #[trigger] b.subrange(i, j) == x.subrange(i, j) by {
        assert(b.subrange(i, j) =~= x.subrange(i, j));
    }
}

/// The first newline at or after `i` in `b` is the one that ends the
/// newline-free `fen` laid at `start`.
pub(crate) proof fn lemma_newline_after(b: Seq<u8>, start: int, fen: Seq<u8>, i: int)
    requires
        0 <= start,
        b.len() > start + fen.len(),
        b.subrange(start, start + fen.len() as int) == fen,
        !fen.contains(10u8),
        b[start + fen.len() as int] == 10u8,
        start <= i <= start + fen.len(),
    ensures
        spec_newline_from(b, i) == start + fen.len(),
    decreases start + fen.len() - i,
{
    if i < start + fen.len() {
        assert(b[i] == b.subrange(start, start + fen.len() as int)[i - start]);
        assert(fen[i - start] != 10u8);
        lemma_newline_after(b, start, fen, i + 1);
    }
}

/// The parent field of a record.
pub open spec fn spec_parent_code(n: ProofNode) -> u32 {
    match n.parent {
        Some(p) => p,
        None => ROOT_PARENT,
    }
}

/// The record of node `n`.
pub open spec fn spec_record(n: ProofNode) -> Seq<u8> {
    spec_le32(spec_parent_code(n)) + spec_le16(spec_canonical_bits(n.mv@)) + spec_le64(n.work)
}

/// The records of `nodes`, in order.
pub open spec fn spec_records(nodes: Seq<ProofNode>) -> Seq<u8>
    decreases nodes.len(),
{
    if nodes.len() == 0 {
        Seq::empty()
    } else {
        spec_records(nodes.drop_last()) + spec_record(nodes.last())
    }
}

/// The dump of a tree with root FEN bytes `fen`.
pub open spec fn spec_dump(fen: Seq<u8>, nodes: Seq<ProofNode>) -> Seq<u8> {
    spec_magic() + seq![VERSION] + fen + seq![10u8] + seq![spec_outcome_code(nodes[0].outcome->0)] + spec_le32(nodes[0].depth)
        + spec_records(nodes)
}

fn push_record(out: &mut Vec<u8>, node: &ProofNode)
    ensures
        final(out)@ == old(out)@ + spec_record(*node),
{
    let parent_id = match node.parent {
        Some(p) => p,
        None => ROOT_PARENT,
    };
    push_le32(out, parent_id);
    let code = move_to_bits(node.mv);
    out.push((code % 256) as u8);
    out.push(((code / 256) % 256) as u8);
    push_le32(out, (node.work % 0x1_0000_0000) as u32);
    push_le32(out, (node.work / 0x1_0000_0000) as u32);
    proof {
        assert(final(out)@ =~= old(out)@ + spec_record(*node));
    }
}

/// Serialise `tree`, which must be finalized: every node proven.
pub fn write_proof_tree(tree: &ProofTree) -> (r: Result<Vec<u8>, ProofTreeFormatError>)
    requires
        tree.wf(),
    ensures
        tree.nodes@[0].outcome is None <==> r == Err::<Vec<u8>, ProofTreeFormatError>(ProofTreeFormatError::UnrealizedRoot),
        (tree.nodes@[0].outcome is Some && exists|i: int| 0 <= i < tree.nodes.len() && (#[trigger] tree.nodes@[i]).outcome is None)
            <==> r == Err::<Vec<u8>, ProofTreeFormatError>(ProofTreeFormatError::DummyNode),
        r is Ok <==> forall|i: int| 0 <= i < tree.nodes.len() ==> (#[trigger] tree.nodes@[i]).outcome is Some,
        r matches Ok(bytes) ==> bytes@ == spec_dump(encode_utf8(tree.root_fen@), tree.nodes@),
{
    let root = tree.nodes[0];
    let root_outcome = match root.outcome {
        Some(o) => o,
        None => return Err(ProofTreeFormatError::UnrealizedRoot),
    };
    let mut out = magic();
    out.push(VERSION);
    let fen = tree.root_fen.as_str().as_bytes();
    let mut i: usize = 0;
    while i < fen.len()
        invariant
            i <= fen.len(),
            out@ == spec_magic() + seq![VERSION] + fen@.take(i as int),
        decreases fen.len() - i,
    {
        out.push(fen[i]);
        i += 1;
        proof {
            assert(out@ =~= spec_magic() + seq![VERSION] + fen@.take(i as int));
        }
    }
    proof {
        assert(fen@.take(fen.len() as int) =~= fen@);
    }
    out.push(10u8);
    out.push(outcome_to_u8(root_outcome));
    push_le32(&mut out, root.depth);
    let ghost header = out@;
    let mut k: usize = 0;
    while k < tree.nodes.len()
        invariant
            k <= tree.nodes.len(),
            out@ == header + spec_records(tree.nodes@.take(k as int)),
            forall|j: int| 0 <= j < k ==> (#[trigger] tree.nodes@[j]).outcome is Some,
            tree.nodes@[0].outcome is Some,
        decreases tree.nodes.len() - k,
    {
        let node = tree.nodes[k];
        if node.outcome.is_none() {
            proof {
                assert(tree.nodes@[k as int].outcome is None);
            }
            return Err(ProofTreeFormatError::DummyNode);
        }
        push_record(&mut out, &node);
        proof {
            assert(tree.nodes@.take(k + 1).drop_last() =~= tree.nodes@.take(k as int));
            assert(out@ =~= header + spec_records(tree.nodes@.take(k + 1)));
        }
        k += 1;
    }
    proof {
        assert(tree.nodes@.take(tree.nodes.len() as int) =~= tree.nodes@);
        assert(out@ =~= spec_dump(fen@, tree.nodes@));
    }
    Ok(out)
}

/// `String::from_utf8`: `Some` exactly when `bytes` are valid UTF-8, and
/// then the text they encode.
#[verifier::external_body]
pub(crate) fn string_from_utf8(bytes: Vec<u8>) -> (r: Option<String>)
    ensures
        r is Some <==> valid_utf8(bytes@),
        r matches Some(s) ==> s@ == decode_utf8(bytes@),
{
    String::from_utf8(bytes).ok()
}

/// The smallest (`use_min`) or largest depth among the nodes `cs`.
pub open spec fn spec_extreme_depth(nodes: Seq<ProofNode>, cs: Seq<int>, use_min: bool) -> u32
    decreases cs.len(),
{
    if cs.len() == 0 {
        if use_min { u32::MAX } else { 0 }
    } else {
        let rest = spec_extreme_depth(nodes, cs.drop_last(), use_min);
        let d = nodes[cs.last()].depth;
        if use_min {
            if d < rest { d } else { rest }
        } else {
            if d > rest { d } else { rest }
        }
    }
}

/// The depth a reader derives for node `i`: 0 for a leaf or a draw, one
/// more than the shallowest child at a win and the deepest at a loss
/// (saturating).
pub open spec fn spec_derived_depth(nodes: Seq<ProofNode>, i: int) -> u32 {
    let cs = spec_children(nodes, i);
    if cs.len() == 0 {
        0
    } else {
        match nodes[i].outcome {
            Some(Outcome::Win) => {
                let m = spec_extreme_depth(nodes, cs, true);
                if m == u32::MAX { u32::MAX } else { (m + 1) as u32 }
            },
            Some(Outcome::Loss) => {
                let m = spec_extreme_depth(nodes, cs, false);
                if m == u32::MAX { u32::MAX } else { (m + 1) as u32 }
            },
            _ => 0,
        }
    }
}

/// Whether node `i` is an even number of plies below the root.
pub open spec fn spec_even_ply(nodes: Seq<ProofNode>, i: int) -> bool
    decreases i,
{
    if i <= 0 || i >= nodes.len() {
        true
    } else {
        match nodes[i].parent {
            Some(p) => if (p as int) < i { !spec_even_ply(nodes, p as int) } else { true },
            None => true,
        }
    }
}

/// The outcome a reader gives node `i` from the root outcome: the root's on
/// even plies, the flipped one on odd plies, a draw everywhere under a
/// drawn root.
pub open spec fn spec_derived_outcome(root: Outcome, even: bool) -> Outcome {
    if root == Outcome::Draw {
        Outcome::Draw
    } else if even {
        root
    } else {
        root.spec_flip()
    }
}

/// Two node arrays with the same sibling links have the same child lists.
proof fn lemma_chain_same_links(a: Seq<ProofNode>, b: Seq<ProofNode>, c: int)
    requires
        a.len() == b.len(),
        forall|k: int| 0 <= k < a.len() ==> (#[trigger] a[k]).next_sibling == b[k].next_sibling,
    ensures
        spec_chain(a, c) == spec_chain(b, c),
    decreases c,
{
    if 0 <= c < a.len() {
        assert(a[c].next_sibling == b[c].next_sibling);
        match a[c].next_sibling {
            Some(s) => {
                if (s as int) < c {
                    lemma_chain_same_links(a, b, s as int);
                }
            },
            None => {},
        }
    }
}

proof fn lemma_children_same_shape(a: Seq<ProofNode>, b: Seq<ProofNode>, i: int)
    requires
        a.len() == b.len(),
        forall|k: int| 0 <= k < a.len() ==> (#[trigger] a[k]).next_sibling == b[k].next_sibling && a[k].first_child
            == b[k].first_child,
    ensures
        forall|k: int| 0 <= k < a.len() ==> #[trigger] spec_children(a, k) == spec_children(b, k),
{
    assert forall|k: int| 0 <= k < a.len() implies #[trigger] spec_children(a, k) == spec_children(b, k) by {
        assert(a[k].first_child == b[k].first_child);
        match a[k].first_child {
            Some(c) => lemma_chain_same_links(a, b, c as int),
            None => {},
        }
    }
}

proof fn lemma_even_ply_same_parents(a: Seq<ProofNode>, b: Seq<ProofNode>, k: int)
    requires
        a.len() == b.len(),
        forall|t: int| 0 <= t < a.len() ==> (#[trigger] a[t]).parent == b[t].parent,
    ensures
        spec_even_ply(a, k) == spec_even_ply(b, k),
    decreases k,
{
    if 0 < k < a.len() {
        assert(a[k].parent == b[k].parent);
        match a[k].parent {
            Some(p) => {
                if (p as int) < k {
                    lemma_even_ply_same_parents(a, b, p as int);
                }
            },
            None => {},
        }
    }
}

proof fn lemma_extreme_same_depths(a: Seq<ProofNode>, b: Seq<ProofNode>, cs: Seq<int>, use_min: bool)
    requires
        forall|t: int| 0 <= t < cs.len() ==> 0 <= #[trigger] cs[t] < a.len() && cs[t] < b.len() && a[cs[t]].depth == b[cs[t]].depth,
    ensures
        spec_extreme_depth(a, cs, use_min) == spec_extreme_depth(b, cs, use_min),
    decreases cs.len(),
{
    if cs.len() > 0 {
        lemma_extreme_same_depths(a, b, cs.drop_last(), use_min);
    }
}

/// Changing only node `i`'s depth leaves the derived depth of every node at
/// or after `i` as it was.
proof fn lemma_derived_depth_frame(a: Seq<ProofNode>, b: Seq<ProofNode>, k: int, i: int)
    requires
        spec_tree_wf(a),
        a.len() == b.len(),
        0 <= i <= k < a.len(),
        forall|t: int| 0 <= t < a.len() && t != i ==> #[trigger] b[t] == a[t],
        b[i] == (ProofNode { depth: b[i].depth, ..a[i] }),
        k != i ==> b[k].depth == spec_derived_depth(a, k),
    ensures
        spec_derived_depth(b, k) == spec_derived_depth(a, k),
{
    lemma_children_same_shape(a, b, k);
    lemma_children_after(a, k);
    let cs = spec_children(a, k);
    assert forall|t: int| 0 <= t < cs.len() implies 0 <= #[trigger] cs[t] < a.len() && cs[t] < b.len() && a[cs[t]].depth
        == b[cs[t]].depth by {
        assert(k < cs[t]);
    }
    lemma_extreme_same_depths(a, b, cs, true);
    lemma_extreme_same_depths(a, b, cs, false);
    assert(a[k].outcome == b[k].outcome);
}

/// The derived depth of node `i` from its children's depths.
pub(crate) fn derive_depth(nodes: &Vec<ProofNode>, i: usize) -> (r: u32)
    requires
        spec_tree_wf(nodes@),
        i < nodes.len(),
    ensures
        r == spec_derived_depth(nodes@, i as int),
{
    let cs = children_of(nodes, i);
    let ghost csi = spec_children(nodes@, i as int);
    if cs.len() == 0 {
        proof {
            assert(csi.len() == 0);
        }
        return 0;
    }
    let use_min = match nodes[i].outcome {
        Some(Outcome::Win) => true,
        Some(Outcome::Loss) => false,
        _ => {
            return 0;
        },
    };
    let mut best: u32 = if use_min { u32::MAX } else { 0 };
    let mut k: usize = 0;
    while k < cs.len()
        invariant
            k <= cs.len(),
            cs@.map_values(|x: usize| x as int) == csi,
            forall|t: int| 0 <= t < cs.len() ==> #[trigger] cs@[t] < nodes.len(),
            best == spec_extreme_depth(nodes@, csi.take(k as int), use_min),
        decreases cs.len() - k,
    {
        let c = cs[k];
        let d = nodes[c].depth;
        proof {
            assert(csi.take(k + 1).drop_last() =~= csi.take(k as int));
            assert(csi.take(k + 1).last() == c as int);
        }
        if use_min {
            if d < best {
                best = d;
            }
        } else {
            if d > best {
                best = d;
            }
        }
        k += 1;
    }
    proof {
        assert(csi.take(cs.len() as int) =~= csi);
    }
    if best == u32::MAX {
        u32::MAX
    } else {
        best + 1
    }
}

/// Where the root FEN line of a dump ends (its newline).
pub open spec fn spec_dump_fen_end(b: Seq<u8>) -> int {
    spec_newline_from(b, 9)
}

/// The record size of a dump: 6 bytes in version 1, 14 in version 2.
pub open spec fn spec_dump_record_size(b: Seq<u8>) -> int {
    if b[8] == 1 {
        6
    } else {
        14
    }
}

/// Where the records of a dump start.
pub open spec fn spec_dump_start(b: Seq<u8>) -> int {
    spec_dump_fen_end(b) + 6
}

/// The root depth stored in a dump's header.
pub open spec fn spec_dump_root_depth(b: Seq<u8>) -> u32 {
    spec_read32(b, spec_dump_fen_end(b) + 2)
}

/// The number of whole records in a dump.
pub open spec fn spec_dump_count(b: Seq<u8>) -> int {
    (b.len() - spec_dump_start(b)) / spec_dump_record_size(b)
}

/// The parent field of record `k` of `rs`-byte records laid from `start`.
pub open spec fn spec_rec_parent(b: Seq<u8>, start: int, rs: int, k: int) -> u32 {
    spec_read32(b, start + rs * k)
}

/// The move code of record `k`.
pub open spec fn spec_rec_code(b: Seq<u8>, start: int, rs: int, k: int) -> u16 {
    spec_read16(b, start + rs * k + 4)
}

/// The work of record `k`: stored from version 2 on, else 0.
pub open spec fn spec_rec_work(b: Seq<u8>, start: int, rs: int, k: int) -> u64 {
    if rs == 14 {
        spec_read64(b, start + rs * k + 6)
    } else {
        0
    }
}

/// The first record is the root sentinel and every later record names an
/// earlier parent.
pub open spec fn spec_recs_ok(b: Seq<u8>, start: int, rs: int, n: int) -> bool {
    &&& spec_rec_parent(b, start, rs, 0) == ROOT_PARENT
    &&& spec_rec_code(b, start, rs, 0) == 0
    &&& forall|k: int| 0 < k < n ==> (#[trigger] spec_rec_parent(b, start, rs, k)) < k
}

/// Node `n` carries the parent, move and work of record `k`.
pub open spec fn spec_decoded_node(n: ProofNode, b: Seq<u8>, start: int, rs: int, k: int) -> bool {
    &&& n.parent == (if k == 0 { None } else { Some(spec_rec_parent(b, start, rs, k)) })
    &&& n.mv == Move { bits: spec_canonical_bits(spec_rec_code(b, start, rs, k)) }
    &&& n.work == spec_rec_work(b, start, rs, k)
}

/// The header of a dump is well formed: magic, a known version, a UTF-8
/// root FEN line, a valid root outcome byte and the root depth.
pub open spec fn spec_dump_header_ok(b: Seq<u8>) -> bool {
    let e = spec_dump_fen_end(b);
    &&& b.len() >= 9
    &&& b.take(8) == spec_magic()
    &&& (b[8] == 1 || b[8] == 2)
    &&& e < b.len()
    &&& valid_utf8(b.subrange(9, e))
    &&& e + 6 <= b.len()
    &&& b[e + 1] <= 2
}

/// A dump whose header and records are well formed: a whole number of
/// records, at least one and fewer than `0xFFFF_FFFF`, the root sentinel
/// first and parents before children.
pub open spec fn spec_dump_format_ok(b: Seq<u8>) -> bool {
    let start = spec_dump_start(b);
    let rs = spec_dump_record_size(b);
    &&& spec_dump_header_ok(b)
    &&& (b.len() - start) % rs == 0
    &&& 0 < spec_dump_count(b) < 0xFFFF_FFFF
    &&& spec_recs_ok(b, start, rs, spec_dump_count(b))
}

/// The header fields of a dump: record size, offset of the first record,
/// root FEN text, root outcome and root depth.
pub struct DumpHeader {
    pub record_size: usize,
    pub start: usize,
    pub root_fen: String,
    pub root_outcome: Outcome,
    pub root_depth: u32,
}

fn parse_header(bytes: &[u8]) -> (r: Result<DumpHeader, ProofTreeFormatError>)
    ensures
        bytes.len() < 8 ==> r == Err::<DumpHeader, ProofTreeFormatError>(ProofTreeFormatError::UnexpectedEof),
        bytes.len() >= 8 && bytes@.take(8) != spec_magic() ==> r == Err::<DumpHeader, ProofTreeFormatError>(
            ProofTreeFormatError::BadMagic,
        ),
        bytes.len() >= 9 && bytes@.take(8) == spec_magic() && bytes@[8] != 1 && bytes@[8] != 2 ==> r == Err::<
            DumpHeader,
            ProofTreeFormatError,
        >(ProofTreeFormatError::UnsupportedVersion(bytes@[8])),
        r is Ok <==> spec_dump_header_ok(bytes@),
        !(r matches Err(ProofTreeFormatError::RootDepthMismatch(_, _))),
        r matches Ok(h) ==> {
            &&& h.record_size == spec_dump_record_size(bytes@)
            &&& h.start == spec_dump_start(bytes@)
            &&& h.start <= bytes.len()
            &&& h.root_fen@ == decode_utf8(bytes@.subrange(9, spec_dump_fen_end(bytes@)))
            &&& spec_outcome_code(h.root_outcome) == bytes@[spec_dump_fen_end(bytes@) + 1]
            &&& h.root_depth == spec_dump_root_depth(bytes@)
        },
{
    let ghost b = bytes@;
    if bytes.len() < 8 {
        return Err(ProofTreeFormatError::UnexpectedEof);
    }
    let m = magic();
    let mut j: usize = 0;
    while j < 8
        invariant
            j <= 8,
            bytes.len() >= 8,
            m@ == spec_magic(),
            forall|t: int| 0 <= t < j ==> bytes@[t] == m@[t],
        decreases 8 - j,
    {
        if bytes[j] != m[j] {
            proof {
                assert(bytes@.take(8)[j as int] != spec_magic()[j as int]);
            }
            return Err(ProofTreeFormatError::BadMagic);
        }
        j += 1;
    }
    proof {
        assert(bytes@.take(8) =~= spec_magic());
    }
    if bytes.len() < 9 {
        return Err(ProofTreeFormatError::UnexpectedEof);
    }
    let version = bytes[8];
    let record_size: usize = if version == 1 {
        RECORD_SIZE_V1
    } else if version == 2 {
        RECORD_SIZE_V2
    } else {
        return Err(ProofTreeFormatError::UnsupportedVersion(version));
    };
    // The root FEN runs up to the first newline.
    let mut p: usize = 9;
    while p < bytes.len() && bytes[p] != 10u8
        invariant
            9 <= p <= bytes.len(),
            spec_newline_from(b, p as int) == spec_dump_fen_end(b),
            b == bytes@,
        decreases bytes.len() - p,
    {
        p += 1;
    }
    proof {
        assert(spec_newline_from(b, p as int) == p);
    }
    if p >= bytes.len() {
        return Err(ProofTreeFormatError::UnexpectedEof);
    }
    let mut fen_bytes: Vec<u8> = Vec::new();
    let mut q: usize = 9;
    while q < p
        invariant
            9 <= q <= p,
            p < bytes.len(),
            fen_bytes@ == b.subrange(9, q as int),
            b == bytes@,
        decreases p - q,
    {
        fen_bytes.push(bytes[q]);
        q += 1;
        proof {
            assert(fen_bytes@ =~= b.subrange(9, q as int));
        }
    }
    let root_fen = match string_from_utf8(fen_bytes) {
        Some(s) => s,
        None => return Err(ProofTreeFormatError::InvalidFenText),
    };
    if bytes.len() - p < 2 {
        return Err(ProofTreeFormatError::UnexpectedEof);
    }
    let root_outcome = match outcome_from_u8(bytes[p + 1]) {
        Some(o) => o,
        None => return Err(ProofTreeFormatError::InvalidRootOutcome),
    };
    if bytes.len() - p < 6 {
        return Err(ProofTreeFormatError::UnexpectedEof);
    }
    let root_depth = read32(bytes, p + 2);
    Ok(DumpHeader { record_size, start: p + 6, root_fen, root_outcome, root_depth })
}

/// Decode `count` records of `record_size` bytes from `start`: parent ids
/// must point backwards and the root record must be the sentinel one.
fn decode_records(bytes: &[u8], start: usize, record_size: usize, count: usize) -> (r: Result<Vec<ProofNode>, ProofTreeFormatError>)
    requires
        record_size == 6 || record_size == 14,
        start + record_size * count <= bytes.len(),
        0 < count < 0xFFFF_FFFF,
    ensures
        r is Ok <==> spec_recs_ok(bytes@, start as int, record_size as int, count as int),
        !(r matches Err(ProofTreeFormatError::RootDepthMismatch(_, _))),
        r matches Ok(nodes) ==> forall|k: int|
            0 <= k < count ==> spec_decoded_node(#[trigger] nodes@[k], bytes@, start as int, record_size as int, k),
        r matches Ok(nodes) ==> {
            &&& nodes.len() == count
            &&& nodes@[0].parent is None
            &&& forall|k: int| 0 <= k < count ==> {
                let n = #[trigger] nodes@[k];
                &&& n.first_child is None
                &&& n.next_sibling is None
                &&& n.hash == 0
                &&& n.outcome is Some
                &&& (k > 0 ==> (n.parent matches Some(pp) && (pp as int) < k))
            }
        },
{
    let mut nodes: Vec<ProofNode> = Vec::new();
    let mut i: usize = 0;
    while i < count
        invariant
            i <= count,
            count < 0xFFFF_FFFF,
            start + record_size * count <= bytes.len(),
            record_size == 6 || record_size == 14,
            nodes.len() == i,
            forall|k: int| 0 <= k < i ==> {
                let n = #[trigger] nodes@[k];
                &&& n.first_child is None
                &&& n.next_sibling is None
                &&& n.hash == 0
                &&& n.outcome is Some
                &&& (k == 0 ==> n.parent is None)
                &&& (k > 0 ==> (n.parent matches Some(pp) && (pp as int) < k))
                &&& spec_decoded_node(n, bytes@, start as int, record_size as int, k)
            },
            i > 0 ==> spec_rec_parent(bytes@, start as int, record_size as int, 0) == ROOT_PARENT
                && spec_rec_code(bytes@, start as int, record_size as int, 0) == 0,
            forall|k: int| 0 < k < i ==> (#[trigger] spec_rec_parent(bytes@, start as int, record_size as int, k)) < k,
        decreases count - i,
    {
        proof {
            assert(record_size * i + record_size <= record_size * count) by (nonlinear_arith)
                requires i < count, record_size > 0;
        }
        let off = start + record_size * i;
        let parent_id = read32(bytes, off);
        let code = read16(bytes, off + 4);
        let work: u64 = if record_size == RECORD_SIZE_V2 { read64(bytes, off + 6) } else { 0 };
        if i == 0 && (parent_id != ROOT_PARENT || code != 0) {
            return Err(ProofTreeFormatError::BadRootRecord);
        }
        if i != 0 && parent_id as usize >= i {
            proof {
                assert(spec_rec_parent(bytes@, start as int, record_size as int, i as int) >= i);
            }
            return Err(ProofTreeFormatError::ParentNotBefore);
        }
        let mv = match bits_to_move(code) {
            Some(mv) => mv,
            None => Move::none(),
        };
        nodes.push(ProofNode {
            parent: if i == 0 { None } else { Some(parent_id) },
            first_child: None,
            next_sibling: None,
            mv,
            hash: 0,
            outcome: Some(Outcome::Draw),
            depth: 0,
            work,
        });
        i += 1;
    }
    Ok(nodes)
}

/// The newest child of `p` among the nodes `1..b`, if any.
pub open spec fn spec_last_child_below(nodes: Seq<ProofNode>, p: int, b: int) -> Option<u32>
    decreases b,
{
    if b <= 1 {
        None
    } else if nodes[b - 1].parent == Some(p as u32) {
        Some((b - 1) as u32)
    } else {
        spec_last_child_below(nodes, p, b - 1)
    }
}

/// The child links are the ones the parents determine: each node's first
/// child is its newest child, and each child's next sibling is the newest
/// older child of the same parent.
pub open spec fn spec_links_from_parents(nodes: Seq<ProofNode>) -> bool {
    &&& nodes[0].next_sibling is None
    &&& forall|k: int| 0 <= k < nodes.len() ==> (#[trigger] nodes[k]).first_child == spec_last_child_below(nodes, k, nodes.len() as int)
    &&& forall|j: int| 0 < j < nodes.len() ==> (#[trigger] nodes[j]).next_sibling == spec_last_child_below(nodes, nodes[j].parent->0 as int, j)
}

/// The newest child below a bound depends on the parent links alone.
proof fn lemma_last_child_same_parents(a: Seq<ProofNode>, b: Seq<ProofNode>, p: int, bound: int)
    requires
        bound <= a.len(),
        bound <= b.len(),
        forall|t: int| 0 <= t < bound ==> (#[trigger] a[t]).parent == b[t].parent,
    ensures
        spec_last_child_below(a, p, bound) == spec_last_child_below(b, p, bound),
    decreases bound,
{
    if bound > 1 {
        assert(a[bound - 1].parent == b[bound - 1].parent);
        lemma_last_child_same_parents(a, b, p, bound - 1);
    }
}

/// Rebuild the child lists from the parent links, in id order.
fn link_children(nodes: &mut Vec<ProofNode>)
    requires
        0 < old(nodes).len() < 0xFFFF_FFFF,
        old(nodes)@[0].parent is None,
        forall|k: int| 0 <= k < old(nodes).len() ==> {
            let n = #[trigger] old(nodes)@[k];
            &&& n.first_child is None
            &&& n.next_sibling is None
            &&& (k > 0 ==> (n.parent matches Some(pp) && (pp as int) < k))
        },
    ensures
        spec_tree_wf(final(nodes)@),
        final(nodes).len() == old(nodes).len(),
        forall|k: int| 0 <= k < final(nodes).len() ==> (#[trigger] final(nodes)@[k]).parent == old(nodes)@[k].parent
            && final(nodes)@[k].mv == old(nodes)@[k].mv && final(nodes)@[k].work == old(nodes)@[k].work
            && final(nodes)@[k].hash == old(nodes)@[k].hash && final(nodes)@[k].outcome == old(nodes)@[k].outcome
            && final(nodes)@[k].depth == old(nodes)@[k].depth,
        spec_links_from_parents(final(nodes)@),
{
    let count = nodes.len();
    let mut i: usize = 1;
    while i < count
        invariant
            1 <= i <= count,
            count < 0xFFFF_FFFF,
            nodes.len() == count,
            nodes@[0].parent is None,
            forall|k: int| 0 < k < count ==> ((#[trigger] nodes@[k]).parent matches Some(pp) && (pp as int) < k),
            forall|k: int| 0 <= k < count ==> ((#[trigger] nodes@[k]).first_child matches Some(c) ==> k < c < i && nodes@[c as int].parent
                == Some(k as u32)),
            forall|k: int| 0 <= k < count ==> ((#[trigger] nodes@[k]).next_sibling matches Some(s) ==> (s as int) < k && nodes@[s as int].parent
                == nodes@[k].parent),
            forall|k: int| i <= k < count ==> (#[trigger] nodes@[k]).next_sibling is None,
            forall|k: int| 0 <= k < count ==> (#[trigger] nodes@[k]).parent == old(nodes)@[k].parent && nodes@[k].mv == old(nodes)@[k].mv
                && nodes@[k].work == old(nodes)@[k].work && nodes@[k].hash == old(nodes)@[k].hash && nodes@[k].outcome == old(nodes)@[k].outcome
                && nodes@[k].depth == old(nodes)@[k].depth,
            nodes@[0].next_sibling is None,
            forall|k: int| 0 <= k < count ==> (#[trigger] nodes@[k]).first_child == spec_last_child_below(old(nodes)@, k, i as int),
            forall|j: int| 0 < j < i ==> (#[trigger] nodes@[j]).next_sibling == spec_last_child_below(
                old(nodes)@,
                old(nodes)@[j].parent->0 as int,
                j,
            ),
        decreases count - i,
    {
        let ghost before = nodes@;
        let pp = match nodes[i].parent {
            Some(x) => x as usize,
            None => 0,
        };
        let old_first = nodes[pp].first_child;
        let mut child = nodes[i];
        child.next_sibling = old_first;
        nodes.set(i, child);
        let mut par = nodes[pp];
        par.first_child = Some(i as u32);
        nodes.set(pp, par);
        proof {
            let o = old(nodes)@;
            assert(o[i as int].parent == Some(pp as u32));
            assert forall|k: int| 0 <= k < count implies (#[trigger] nodes@[k]).first_child == spec_last_child_below(o, k, i + 1) by {
                assert(spec_last_child_below(o, k, i + 1) == (if o[i as int].parent == Some(k as u32) {
                    Some(i as u32)
                } else {
                    spec_last_child_below(o, k, i as int)
                }));
                if k == pp {
                    assert(o[i as int].parent == Some(k as u32));
                } else {
                    assert(o[i as int].parent != Some(k as u32));
                    assert(nodes@[k] == before[k] || k == i);
                }
            }
            assert(nodes@[i as int].next_sibling == spec_last_child_below(o, o[i as int].parent->0 as int, i as int));
        }
        i += 1;
    }
    proof {
        let f = nodes@;
        let o = old(nodes)@;
        assert forall|k: int| 0 <= k < count implies (#[trigger] f[k]).first_child == spec_last_child_below(f, k, count as int) by {
            lemma_last_child_same_parents(o, f, k, count as int);
        }
        assert forall|j: int| 0 < j < count implies (#[trigger] f[j]).next_sibling == spec_last_child_below(f, f[j].parent->0 as int, j) by {
            lemma_last_child_same_parents(o, f, f[j].parent->0 as int, j);
        }
    }
}

/// Give every node the outcome of its ply parity under `root_outcome`.
fn assign_outcomes(nodes: &mut Vec<ProofNode>, root_outcome: Outcome)
    requires
        spec_tree_wf(old(nodes)@),
    ensures
        spec_tree_wf(final(nodes)@),
        final(nodes).len() == old(nodes).len(),
        forall|k: int| 0 <= k < final(nodes).len() ==> (#[trigger] final(nodes)@[k]) == (ProofNode {
            outcome: Some(spec_derived_outcome(root_outcome, spec_even_ply(old(nodes)@, k))),
            ..old(nodes)@[k]
        }),
{
    let count = nodes.len();
    let mut even: Vec<bool> = Vec::new();
    let mut i: usize = 0;
    while i < count
        invariant
            i <= count,
            nodes.len() == count,
            spec_tree_wf(old(nodes)@),
            old(nodes).len() == count,
            even.len() == i,
            forall|k: int| 0 <= k < i ==> #[trigger] even@[k] == spec_even_ply(old(nodes)@, k),
            forall|k: int| 0 <= k < i ==> (#[trigger] nodes@[k]) == (ProofNode {
                outcome: Some(spec_derived_outcome(root_outcome, spec_even_ply(old(nodes)@, k))),
                ..old(nodes)@[k]
            }),
            forall|k: int| i <= k < count ==> #[trigger] nodes@[k] == old(nodes)@[k],
        decreases count - i,
    {
        let e = if i == 0 {
            true
        } else {
            match nodes[i].parent {
                Some(pp) => !even[pp as usize],
                None => true,
            }
        };
        proof {
            let o = old(nodes)@;
            assert(o[i as int] == o[i as int]);
        }
        let mut n = nodes[i];
        n.outcome = Some(
            if root_outcome == Outcome::Draw {
                Outcome::Draw
            } else if e {
                root_outcome
            } else {
                root_outcome.flip()
            },
        );
        nodes.set(i, n);
        even.push(e);
        i += 1;
    }
    proof {
        let a = old(nodes)@;
        let b = nodes@;
        assert forall|k: int| 0 <= k < b.len() implies (#[trigger] b[k]).parent == a[k].parent && b[k].first_child
            == a[k].first_child && b[k].next_sibling == a[k].next_sibling by {}
        assert(spec_tree_wf(b));
    }
}

/// Derive every node's depth bottom-up.
pub(crate) fn assign_depths(nodes: &mut Vec<ProofNode>)
    requires
        spec_tree_wf(old(nodes)@),
    ensures
        spec_tree_wf(final(nodes)@),
        final(nodes).len() == old(nodes).len(),
        forall|k: int| 0 <= k < final(nodes).len() ==> (#[trigger] final(nodes)@[k]) == (ProofNode {
            depth: final(nodes)@[k].depth,
            ..old(nodes)@[k]
        }) && final(nodes)@[k].depth == spec_derived_depth(final(nodes)@, k),
{
    let count = nodes.len();
    let mut i: usize = count;
    while i > 0
        invariant
            i <= count,
            nodes.len() == count,
            old(nodes).len() == count,
            spec_tree_wf(nodes@),
            forall|k: int| 0 <= k < count ==> (#[trigger] nodes@[k]) == (ProofNode { depth: nodes@[k].depth, ..old(nodes)@[k] }),
            forall|k: int| i <= k < count ==> (#[trigger] nodes@[k]).depth == spec_derived_depth(nodes@, k),
        decreases i,
    {
        i = i - 1;
        let ghost before = nodes@;
        let d = derive_depth(nodes, i);
        let mut n = nodes[i];
        n.depth = d;
        nodes.set(i, n);
        proof {
            let after = nodes@;
            assert forall|k: int| 0 <= k < after.len() implies (#[trigger] after[k]).parent == before[k].parent
                && after[k].first_child == before[k].first_child && after[k].next_sibling == before[k].next_sibling by {}
            assert(spec_tree_wf(after));
            assert forall|k: int| i <= k < count implies (#[trigger] after[k]).depth == spec_derived_depth(after, k) by {
                lemma_derived_depth_frame(before, after, k, i as int);
            }
        }
    }
}

/// `nodes` is the tree a reader builds from the dump `b`: one node per
/// record with its parent, move and work, hash 0, child links from the
/// parents, the root outcome of the header, outcomes by ply parity and
/// depths derived bottom-up.
pub open spec fn spec_dump_tree(b: Seq<u8>, nodes: Seq<ProofNode>) -> bool {
    let start = spec_dump_start(b);
    let rs = spec_dump_record_size(b);
    &&& nodes.len() == spec_dump_count(b)
    &&& spec_tree_wf(nodes)
    &&& spec_links_from_parents(nodes)
    &&& nodes[0].outcome is Some
    &&& spec_outcome_code(nodes[0].outcome->0) == b[spec_dump_fen_end(b) + 1]
    &&& forall|k: int|
        0 <= k < nodes.len() ==> {
            let n = #[trigger] nodes[k];
            &&& spec_decoded_node(n, b, start, rs, k)
            &&& n.hash == 0
            &&& n.outcome == Some(spec_derived_outcome(nodes[0].outcome->0, spec_even_ply(nodes, k)))
            &&& n.depth == spec_derived_depth(nodes, k)
        }
}

/// Two trees that agree on everything but depths, with depths derived
/// bottom-up in both, agree on the depths from `m` on.
proof fn lemma_derived_depths_agree(x: Seq<ProofNode>, y: Seq<ProofNode>, m: int)
    requires
        spec_tree_wf(x),
        x.len() == y.len(),
        0 <= m <= x.len(),
        forall|k: int| 0 <= k < x.len() ==> (#[trigger] x[k]) == (ProofNode { depth: x[k].depth, ..y[k] }),
        forall|k: int| 0 <= k < x.len() ==> (#[trigger] x[k]).depth == spec_derived_depth(x, k),
        forall|k: int| 0 <= k < y.len() ==> (#[trigger] y[k]).depth == spec_derived_depth(y, k),
    ensures
        forall|k: int| m <= k < x.len() ==> (#[trigger] x[k]).depth == y[k].depth,
    decreases x.len() - m,
{
    if m < x.len() {
        lemma_derived_depths_agree(x, y, m + 1);
        lemma_children_same_shape(x, y, m);
        lemma_children_after(x, m);
        let cs = spec_children(x, m);
        assert forall|t: int| 0 <= t < cs.len() implies 0 <= #[trigger] cs[t] < x.len() && cs[t] < y.len() && x[cs[t]].depth
            == y[cs[t]].depth by {
            assert(m < cs[t]);
        }
        lemma_extreme_same_depths(x, y, cs, true);
        lemma_extreme_same_depths(x, y, cs, false);
        assert(x[m].outcome == y[m].outcome);
        assert(spec_children(y, m) == cs);
    }
}

/// A dump determines the tree a reader builds from it.
pub proof fn lemma_dump_tree_unique(b: Seq<u8>, x: Seq<ProofNode>, y: Seq<ProofNode>)
    requires
        spec_dump_tree(b, x),
        spec_dump_tree(b, y),
    ensures
        x == y,
{
    let start = spec_dump_start(b);
    let rs = spec_dump_record_size(b);
    assert forall|k: int| 0 <= k < x.len() implies (#[trigger] x[k]).parent == y[k].parent by {
        assert(spec_decoded_node(x[k], b, start, rs, k));
        assert(spec_decoded_node(y[k], b, start, rs, k));
    }
    // The root outcomes share their code.
    let ox = x[0].outcome->0;
    let oy = y[0].outcome->0;
    assert(ox == oy) by {
        assert(spec_outcome_code(ox) == spec_outcome_code(oy));
    }
    assert forall|k: int| 0 <= k < x.len() implies (#[trigger] x[k]) == (ProofNode { depth: x[k].depth, ..y[k] }) by {
        assert(spec_decoded_node(x[k], b, start, rs, k));
        assert(spec_decoded_node(y[k], b, start, rs, k));
        lemma_even_ply_same_parents(x, y, k);
        lemma_last_child_same_parents(x, y, k, x.len() as int);
        if k > 0 {
            lemma_last_child_same_parents(x, y, x[k].parent->0 as int, k);
        }
    }
    lemma_derived_depths_agree(x, y, 0);
    assert(x =~= y);
}

/// Read a dump. The returned tree has every node proven, outcomes by ply
/// parity from the root outcome, depths derived bottom-up, and hash 0 (the
/// format stores no hashes).
pub fn read_proof_tree(bytes: &[u8]) -> (r: Result<ProofTree, ProofTreeFormatError>)
    ensures
        bytes.len() < 8 ==> r == Err::<ProofTree, ProofTreeFormatError>(ProofTreeFormatError::UnexpectedEof),
        bytes.len() >= 8 && bytes@.take(8) != spec_magic() ==> r == Err::<ProofTree, ProofTreeFormatError>(
            ProofTreeFormatError::BadMagic,
        ),
        bytes.len() >= 9 && bytes@.take(8) == spec_magic() && bytes@[8] != 1 && bytes@[8] != 2 ==> r == Err::<
            ProofTree,
            ProofTreeFormatError,
        >(ProofTreeFormatError::UnsupportedVersion(bytes@[8])),
        (r is Ok || r matches Err(ProofTreeFormatError::RootDepthMismatch(_, _))) <==> spec_dump_format_ok(bytes@),
        r matches Err(ProofTreeFormatError::RootDepthMismatch(h, d)) ==> h == spec_dump_root_depth(bytes@) && h != d,
        r matches Err(ProofTreeFormatError::RootDepthMismatch(h, d)) ==> exists|nodes: Seq<ProofNode>|
            spec_dump_tree(bytes@, nodes) && nodes[0].depth == d,
        r matches Ok(t) ==> spec_dump_tree(bytes@, t.nodes@),
        r matches Ok(t) ==> {
            &&& t.nodes.len() == spec_dump_count(bytes@)
            &&& t.root_fen@ == decode_utf8(bytes@.subrange(9, spec_dump_fen_end(bytes@)))
            &&& spec_outcome_code(t.nodes@[0].outcome->0) == bytes@[spec_dump_fen_end(bytes@) + 1]
            &&& t.nodes@[0].depth == spec_dump_root_depth(bytes@)
            &&& forall|k: int|
                0 <= k < t.nodes.len() ==> spec_decoded_node(
                    #[trigger] t.nodes@[k],
                    bytes@,
                    spec_dump_start(bytes@),
                    spec_dump_record_size(bytes@),
                    k,
                )
        },
        r matches Ok(t) ==> {
            &&& t.wf()
            &&& bytes@.take(8) == spec_magic()
            &&& (bytes@[8] == 1 || bytes@[8] == 2)
            &&& forall|i: int| 0 <= i < t.nodes.len() ==> {
                let n = #[trigger] t.nodes@[i];
                &&& n.hash == 0
                &&& n.depth == spec_derived_depth(t.nodes@, i)
                &&& n.outcome == Some(spec_derived_outcome(t.nodes@[0].outcome->0, spec_even_ply(t.nodes@, i)))
            }
        },
{
    let header = match parse_header(bytes) {
        Ok(h) => h,
        Err(e) => return Err(e),
    };
    let record_size = header.record_size;
    let start = header.start;
    let payload_len = bytes.len() - start;
    if payload_len % record_size != 0 {
        return Err(ProofTreeFormatError::TruncatedRecords);
    }
    let count = payload_len / record_size;
    if count == 0 {
        return Err(ProofTreeFormatError::MissingRoot);
    }
    if count >= 0xFFFF_FFFF {
        return Err(ProofTreeFormatError::TooManyNodes);
    }
    proof {
        assert(record_size * count <= payload_len) by (nonlinear_arith)
            requires count == payload_len / record_size, record_size > 0;
    }
    let mut nodes = match decode_records(bytes, start, record_size, count) {
        Ok(n) => n,
        Err(e) => return Err(e),
    };
    let ghost decoded = nodes@;
    link_children(&mut nodes);
    let ghost linked = nodes@;
    assign_outcomes(&mut nodes, header.root_outcome);
    let ghost outcomes = nodes@;
    assign_depths(&mut nodes);
    proof {
        let f = nodes@;
        assert forall|k: int| 0 <= k < f.len() implies spec_decoded_node(#[trigger] f[k], bytes@, start as int, record_size as int, k) by {
            assert(spec_decoded_node(decoded[k], bytes@, start as int, record_size as int, k));
            assert(linked[k].parent == decoded[k].parent && linked[k].mv == decoded[k].mv && linked[k].work == decoded[k].work);
            assert(outcomes[k].parent == linked[k].parent && outcomes[k].mv == linked[k].mv && outcomes[k].work == linked[k].work);
            assert(f[k].parent == outcomes[k].parent && f[k].mv == outcomes[k].mv && f[k].work == outcomes[k].work);
        }
    }
    proof {
        let f = nodes@;
        lemma_even_ply_same_parents(linked, f, 0);
        assert forall|i: int| 0 <= i < f.len() implies spec_even_ply(linked, i) == spec_even_ply(f, i) by {
            lemma_even_ply_same_parents(linked, f, i);
        }
        assert(spec_even_ply(linked, 0));
        assert(f[0].outcome == Some(spec_derived_outcome(header.root_outcome, true)));
        assert(spec_derived_outcome(header.root_outcome, true) == header.root_outcome);
    }
    proof {
        let f = nodes@;
        assert(spec_links_from_parents(f)) by {
            assert forall|k: int| 0 <= k < f.len() implies (#[trigger] f[k]).first_child == spec_last_child_below(f, k, f.len() as int) by {
                lemma_last_child_same_parents(linked, f, k, f.len() as int);
            }
            assert forall|j: int| 0 < j < f.len() implies (#[trigger] f[j]).next_sibling == spec_last_child_below(f, f[j].parent->0 as int, j) by {
                lemma_last_child_same_parents(linked, f, f[j].parent->0 as int, j);
            }
        }
        assert forall|k: int| 0 <= k < f.len() implies (#[trigger] f[k]).outcome == Some(spec_derived_outcome(f[0].outcome->0, spec_even_ply(f, k))) by {
            lemma_even_ply_same_parents(linked, f, k);
        }
        assert(spec_dump_tree(bytes@, f));
    }
    if nodes[0].depth != header.root_depth {
        return Err(ProofTreeFormatError::RootDepthMismatch(header.root_depth, nodes[0].depth));
    }
    Ok(ProofTree { root_fen: header.root_fen, nodes })
}

/// Where the parts of a dump header laid end to end lie.
#[verifier::spinoff_prover]
proof fn lemma_dump_header_parts(head: Seq<u8>, fen: Seq<u8>, code: u8, d: Seq<u8>)
    requires
        d.len() == 4,
        head == spec_magic() + seq![VERSION] + fen + seq![10u8] + seq![code] + d,
    ensures
        ({
            let e = 9 + fen.len() as int;
            &&& head.len() == e + 6
            &&& head.take(8) == spec_magic()
            &&& head[8] == VERSION
            &&& head.subrange(9, e) == fen
            &&& head[e] == 10u8
            &&& head[e + 1] == code
            &&& head.subrange(e + 2, e + 6) == d
        }),
{
    let e = 9 + fen.len() as int;
    assert(head.take(8) =~= spec_magic());
    assert(head.subrange(9, e) =~= fen);
    assert(head.subrange(e + 2, e + 6) =~= d);
}

/// The records of `nodes` lie end to end, 14 bytes each.
proof fn lemma_records_layout(nodes: Seq<ProofNode>)
    ensures
        spec_records(nodes).len() == 14 * nodes.len(),
        forall|k: int| 0 <= k < nodes.len() ==> spec_records(nodes).subrange(14 * k, 14 * k + 14) == spec_record(
            #[trigger] nodes[k],
        ),
    decreases nodes.len(),
{
    if nodes.len() > 0 {
        let t = nodes.drop_last();
        lemma_records_layout(t);
        let r = spec_records(nodes);
        let n = nodes.len() as int;
        assert(spec_record(nodes.last()).len() == 14);
        assert(r == spec_records(t) + spec_record(nodes.last()));
        assert forall|k: int| 0 <= k < nodes.len() implies r.subrange(14 * k, 14 * k + 14) == spec_record(#[trigger] nodes[k]) by {
            if k < n - 1 {
                assert(nodes[k] == t[k]);
                assert(r.subrange(14 * k, 14 * k + 14) =~= spec_records(t).subrange(14 * k, 14 * k + 14));
            } else {
                assert(r.subrange(14 * k, 14 * k + 14) =~= spec_record(nodes.last()));
            }
        }
    }
}

/// Where the fields of a record lie.
proof fn lemma_record_parts(r: Seq<u8>, p: Seq<u8>, c: Seq<u8>, w: Seq<u8>)
    requires
        p.len() == 4,
        c.len() == 2,
        w.len() == 8,
        r == p + c + w,
    ensures
        r.len() == 14,
        r.subrange(0, 4) == p,
        r.subrange(4, 6) == c,
        r.subrange(6, 14) == w,
{
    assert(r.subrange(0, 4) =~= p);
    assert(r.subrange(4, 6) =~= c);
    assert(r.subrange(6, 14) =~= w);
}

/// A record laid at `off` in `b` reads back as its node's parent code, move
/// code and work.
proof fn lemma_record_fields(b: Seq<u8>, off: int, n: ProofNode)
    requires
        0 <= off,
        off + 14 <= b.len(),
        b.subrange(off, off + 14) == spec_record(n),
    ensures
        spec_read32(b, off) == spec_parent_code(n),
        spec_read16(b, off + 4) == spec_canonical_bits(n.mv@),
        spec_read64(b, off + 6) == n.work,
{
    let r = spec_record(n);
    let code = spec_canonical_bits(n.mv@);
    lemma_record_parts(r, spec_le32(spec_parent_code(n)), spec_le16(code), spec_le64(n.work));
    lemma_window(b, off, r, 0, 4);
    lemma_read32_le(b, off, spec_parent_code(n));
    lemma_window(b, off, r, 4, 6);
    lemma_read16_le(b, off + 4, code);
    lemma_window(b, off, r, 6, 14);
    lemma_read64_le(b, off + 6, n.work);
}

/// Record `k` of `nodes`, laid at `base` in `b`, reads back as node `k`'s
/// parent code, move code and work.
proof fn lemma_record_read(b: Seq<u8>, base: int, nodes: Seq<ProofNode>, k: int)
    requires
        0 <= base,
        0 <= k < nodes.len(),
        base + 14 * nodes.len() <= b.len(),
        b.subrange(base, base + 14 * nodes.len()) == spec_records(nodes),
        spec_records(nodes).len() == 14 * nodes.len(),
        forall|j: int| 0 <= j < nodes.len() ==> spec_records(nodes).subrange(14 * j, 14 * j + 14) == spec_record(
            #[trigger] nodes[j],
        ),
    ensures
        spec_rec_parent(b, base, 14, k) == spec_parent_code(nodes[k]),
        spec_rec_code(b, base, 14, k) == spec_canonical_bits(nodes[k].mv@),
        spec_rec_work(b, base, 14, k) == nodes[k].work,
{
    let recs = spec_records(nodes);
    assert(14 * k + 14 <= 14 * nodes.len()) by (nonlinear_arith)
        requires k < nodes.len();
    lemma_window(b, base, recs, 14 * k, 14 * k + 14);
    assert(recs.subrange(14 * k, 14 * k + 14) == spec_record(nodes[k]));
    lemma_record_fields(b, base + 14 * k, nodes[k]);
}

/// The records of `nodes`, laid at `base` in `b`, read back as the nodes'
/// parent codes, move codes and works.
proof fn lemma_records_read_all(b: Seq<u8>, base: int, nodes: Seq<ProofNode>)
    requires
        0 <= base,
        base + spec_records(nodes).len() <= b.len(),
        b.subrange(base, base + spec_records(nodes).len()) == spec_records(nodes),
    ensures
        spec_records(nodes).len() == 14 * nodes.len(),
        forall|k: int| 0 <= k < nodes.len() ==> {
            &&& spec_rec_parent(b, base, 14, k) == spec_parent_code(#[trigger] nodes[k])
            &&& spec_rec_code(b, base, 14, k) == spec_canonical_bits(nodes[k].mv@)
            &&& spec_rec_work(b, base, 14, k) == nodes[k].work
        },
{
    lemma_records_layout(nodes);
    assert forall|k: int| 0 <= k < nodes.len() implies {
        &&& spec_rec_parent(b, base, 14, k) == spec_parent_code(#[trigger] nodes[k])
        &&& spec_rec_code(b, base, 14, k) == spec_canonical_bits(nodes[k].mv@)
        &&& spec_rec_work(b, base, 14, k) == nodes[k].work
    } by {
        lemma_record_read(b, base, nodes, k);
    }
}

/// What the header of bytes laid out as a dump reads as.
#[verifier::spinoff_prover]
proof fn lemma_dump_header_fields(b: Seq<u8>, head: Seq<u8>, recs: Seq<u8>, fen: Seq<u8>, code: u8, depth: u32)
    requires
        !fen.contains(10u8),
        head == spec_magic() + seq![VERSION] + fen + seq![10u8] + seq![code] + spec_le32(depth),
        b == head + recs,
    ensures
        ({
            let e = 9 + fen.len() as int;
            &&& b.len() == e + 6 + recs.len()
            &&& b.take(8) == spec_magic()
            &&& b[8] == VERSION
            &&& spec_newline_from(b, 9) == e
            &&& b.subrange(9, e) == fen
            &&& b[e + 1] == code
            &&& spec_read32(b, e + 2) == depth
            &&& b.subrange(e + 6, e + 6 + recs.len()) == recs
        }),
{
    let e = 9 + fen.len() as int;
    let d = spec_le32(depth);
    lemma_dump_header_parts(head, fen, code, d);
    lemma_three_parts(b, head, recs, Seq::empty());
    assert(b.subrange(0, 8) == head.subrange(0, 8));
    assert(b.subrange(9, e) == head.subrange(9, e));
    assert(b[8] == head[8]);
    assert(b[e] == head[e]);
    assert(b[e + 1] == head[e + 1]);
    lemma_newline_after(b, 9, fen, 9);
    assert(b.subrange(e + 2, e + 6) == head.subrange(e + 2, e + 6));
    lemma_read32_le(b, e + 2, depth);
    assert(b.subrange(e + 6, e + 6 + recs.len()) =~= recs);
}

/// The no-move sentinel keeps code 0.
proof fn lemma_none_code()
    ensures
        spec_canonical_bits(Move::spec_none()@) == 0,
{
    lemma_fields_bounded(0u16);
    assert((0u16 >> 12u16) & 3 == 0) by (bit_vector);
    assert((0u16 >> 14u16) & 3 == 0) by (bit_vector);
}

/// Bytes whose header and records read as `fen`, `nodes` and the root's
/// outcome and depth form a well-formed dump that decodes to them.
#[verifier::spinoff_prover]
#[verifier::rlimit(30)]
proof fn lemma_dump_decodes(b: Seq<u8>, fen: Seq<u8>, nodes: Seq<ProofNode>)
    requires
        spec_tree_wf(nodes),
        nodes[0].outcome is Some,
        spec_canonical_bits(nodes[0].mv@) == 0,
        valid_utf8(fen),
        b.len() == 9 + fen.len() + 6 + 14 * nodes.len(),
        b.take(8) == spec_magic(),
        b[8] == VERSION,
        spec_newline_from(b, 9) == 9 + fen.len(),
        b.subrange(9, 9 + fen.len() as int) == fen,
        b[9 + fen.len() as int + 1] == spec_outcome_code(nodes[0].outcome->0),
        spec_read32(b, 9 + fen.len() as int + 2) == nodes[0].depth,
        forall|k: int| 0 <= k < nodes.len() ==> {
            &&& spec_rec_parent(b, 9 + fen.len() as int + 6, 14, k) == spec_parent_code(#[trigger] nodes[k])
            &&& spec_rec_code(b, 9 + fen.len() as int + 6, 14, k) == spec_canonical_bits(nodes[k].mv@)
            &&& spec_rec_work(b, 9 + fen.len() as int + 6, 14, k) == nodes[k].work
        },
    ensures
        ({
            let start = spec_dump_start(b);
            &&& spec_dump_format_ok(b)
            &&& spec_dump_record_size(b) == 14
            &&& start == 9 + fen.len() + 6
            &&& spec_dump_count(b) == nodes.len()
            &&& b.subrange(9, spec_dump_fen_end(b)) == fen
            &&& b[spec_dump_fen_end(b) + 1] == spec_outcome_code(nodes[0].outcome->0)
            &&& spec_dump_root_depth(b) == nodes[0].depth
            &&& forall|k: int|
                0 <= k < nodes.len() ==> {
                    &&& (k > 0 ==> (#[trigger] nodes[k]).parent == Some(spec_rec_parent(b, start, 14, k)))
                    &&& spec_canonical_bits(spec_rec_code(b, start, 14, k)) == spec_canonical_bits(nodes[k].mv@)
                    &&& spec_rec_work(b, start, 14, k) == nodes[k].work
                }
        }),
{
    let e = 9 + fen.len() as int;
    let start = e + 6;
    let n = nodes.len() as int;
    assert(b.len() - start == 14 * n);
    assert((14 * n) % 14 == 0 && (14 * n) / 14 == n) by (nonlinear_arith);
    assert(spec_rec_parent(b, start, 14, 0) == spec_parent_code(nodes[0]));
    assert(spec_rec_code(b, start, 14, 0) == spec_canonical_bits(nodes[0].mv@));
    assert forall|k: int| 0 < k < n implies (#[trigger] spec_rec_parent(b, start, 14, k)) < k by {
        assert(spec_rec_parent(b, start, 14, k) == spec_parent_code(nodes[k]));
    }
    assert forall|k: int| 0 <= k < nodes.len() implies {
        &&& (k > 0 ==> (#[trigger] nodes[k]).parent == Some(spec_rec_parent(b, start, 14, k)))
        &&& spec_canonical_bits(spec_rec_code(b, start, 14, k)) == spec_canonical_bits(nodes[k].mv@)
        &&& spec_rec_work(b, start, 14, k) == nodes[k].work
    } by {
        assert(spec_rec_parent(b, start, 14, k) == spec_parent_code(nodes[k]));
        assert(spec_rec_code(b, start, 14, k) == spec_canonical_bits(nodes[k].mv@));
        lemma_move_bits_round_trip(nodes[k].mv, nodes[k].mv@);
    }
}

/// A dump written for a tree whose root is proven, whose root record is the
/// no-move sentinel and whose root FEN encodes without a newline is well
/// formed, and it reads back as the tree's FEN, root outcome and root depth,
/// with every node's parent, move code and work in place. The reader can
/// then refuse it only for a root depth that differs from the one it
/// derives.
pub proof fn lemma_dump_round_trip(fen: Seq<char>, nodes: Seq<ProofNode>)
    requires
        spec_tree_wf(nodes),
        nodes[0].outcome is Some,
        nodes[0].mv == Move::spec_none(),
        !encode_utf8(fen).contains(10u8),
    ensures
        ({
            let b = spec_dump(encode_utf8(fen), nodes);
            let start = spec_dump_start(b);
            &&& spec_dump_format_ok(b)
            &&& spec_dump_record_size(b) == 14
            &&& spec_dump_count(b) == nodes.len()
            &&& decode_utf8(b.subrange(9, spec_dump_fen_end(b))) == fen
            &&& b[spec_dump_fen_end(b) + 1] == spec_outcome_code(nodes[0].outcome->0)
            &&& spec_dump_root_depth(b) == nodes[0].depth
            &&& forall|k: int|
                0 <= k < nodes.len() ==> {
                    &&& (k > 0 ==> (#[trigger] nodes[k]).parent == Some(spec_rec_parent(b, start, 14, k)))
                    &&& spec_canonical_bits(spec_rec_code(b, start, 14, k)) == spec_canonical_bits(nodes[k].mv@)
                    &&& spec_rec_work(b, start, 14, k) == nodes[k].work
                }
        }),
{
    let bytes = encode_utf8(fen);
    let b = spec_dump(bytes, nodes);
    let e = 9 + bytes.len() as int;
    let code = spec_outcome_code(nodes[0].outcome->0);
    let head = spec_magic() + seq![VERSION] + bytes + seq![10u8] + seq![code] + spec_le32(nodes[0].depth);
    let recs = spec_records(nodes);
    assert(b == head + recs);
    lemma_dump_header_fields(b, head, recs, bytes, code, nodes[0].depth);
    lemma_records_read_all(b, e + 6, nodes);
    assert(valid_utf8(bytes) && decode_utf8(bytes) == fen) by {
        vstd::utf8::encode_utf8_valid_utf8(fen);
        vstd::utf8::encode_utf8_decode_utf8(fen);
    }
    lemma_none_code();
    lemma_dump_decodes(b, bytes, nodes);
}

/// The nodes with every hash cleared (the dump stores no hashes).
pub open spec fn spec_without_hashes(nodes: Seq<ProofNode>) -> Seq<ProofNode> {
    Seq::new(nodes.len(), |i: int| ProofNode { hash: 0, ..nodes[i] })
}

/// A canonical proven tree: child links as the parents determine them, a
/// proven root with the sentinel move, outcomes by ply parity from the
/// root, depths derived bottom-up, and move codes in canonical form.
pub open spec fn spec_canonical_tree(nodes: Seq<ProofNode>) -> bool {
    &&& spec_tree_wf(nodes)
    &&& spec_links_from_parents(nodes)
    &&& nodes[0].outcome is Some
    &&& nodes[0].mv == Move::spec_none()
    &&& forall|k: int|
        0 <= k < nodes.len() ==> {
            let n = #[trigger] nodes[k];
            &&& n.outcome == Some(spec_derived_outcome(nodes[0].outcome->0, spec_even_ply(nodes, k)))
            &&& n.depth == spec_derived_depth(nodes, k)
            &&& spec_canonical_bits(n.mv@) == n.mv@
        }
}

/// Clearing the hashes keeps the shape, the ply parities and the derived
/// depths.
proof fn lemma_without_hashes_shape(nodes: Seq<ProofNode>)
    requires
        spec_canonical_tree(nodes),
    ensures
        ({
            let z = spec_without_hashes(nodes);
            &&& z.len() == nodes.len()
            &&& spec_tree_wf(z)
            &&& spec_links_from_parents(z)
            &&& forall|k: int|
                0 <= k < z.len() ==> {
                    &&& #[trigger] z[k] == (ProofNode { hash: 0, ..nodes[k] })
                    &&& spec_even_ply(z, k) == spec_even_ply(nodes, k)
                    &&& spec_derived_depth(z, k) == spec_derived_depth(nodes, k)
                }
        }),
{
    let z = spec_without_hashes(nodes);
    assert forall|k: int| 0 <= k < z.len() implies (#[trigger] z[k]).parent == nodes[k].parent && z[k].first_child
        == nodes[k].first_child && z[k].next_sibling == nodes[k].next_sibling && z[k].depth == nodes[k].depth
        && z[k].outcome == nodes[k].outcome by {}
    assert(spec_tree_wf(z));
    assert forall|k: int| 0 <= k < z.len() implies (#[trigger] z[k]).first_child == spec_last_child_below(z, k, z.len() as int) by {
        lemma_last_child_same_parents(nodes, z, k, z.len() as int);
    }
    assert forall|j: int| 0 < j < z.len() implies (#[trigger] z[j]).next_sibling == spec_last_child_below(z, z[j].parent->0 as int, j) by {
        lemma_last_child_same_parents(nodes, z, z[j].parent->0 as int, j);
    }
    assert forall|k: int| 0 <= k < z.len() implies #[trigger] spec_even_ply(z, k) == spec_even_ply(nodes, k) && spec_derived_depth(
        z,
        k,
    ) == spec_derived_depth(nodes, k) by {
        lemma_even_ply_same_parents(nodes, z, k);
        lemma_children_same_shape(nodes, z, k);
        lemma_children_after(nodes, k);
        let cs = spec_children(nodes, k);
        assert forall|t: int| 0 <= t < cs.len() implies 0 <= #[trigger] cs[t] < nodes.len() && cs[t] < z.len() && nodes[cs[t]].depth
            == z[cs[t]].depth by {
            assert(k < cs[t]);
        }
        lemma_extreme_same_depths(nodes, z, cs, true);
        lemma_extreme_same_depths(nodes, z, cs, false);
    }
}

/// Bytes whose records read as a canonical tree's parents, move codes and
/// works, and whose header names its root outcome, are read as that tree
/// with its hashes cleared.
proof fn lemma_dump_tree_of(b: Seq<u8>, nodes: Seq<ProofNode>)
    requires
        spec_canonical_tree(nodes),
        spec_dump_record_size(b) == 14,
        spec_dump_count(b) == nodes.len(),
        b[spec_dump_fen_end(b) + 1] == spec_outcome_code(nodes[0].outcome->0),
        forall|k: int|
            0 <= k < nodes.len() ==> {
                &&& (k > 0 ==> (#[trigger] nodes[k]).parent == Some(spec_rec_parent(b, spec_dump_start(b), 14, k)))
                &&& spec_canonical_bits(spec_rec_code(b, spec_dump_start(b), 14, k)) == spec_canonical_bits(nodes[k].mv@)
                &&& spec_rec_work(b, spec_dump_start(b), 14, k) == nodes[k].work
            },
    ensures
        spec_dump_tree(b, spec_without_hashes(nodes)),
{
    let z = spec_without_hashes(nodes);
    let start = spec_dump_start(b);
    lemma_without_hashes_shape(nodes);
    assert forall|k: int| 0 <= k < z.len() implies {
        let n = #[trigger] z[k];
        &&& spec_decoded_node(n, b, start, 14, k)
        &&& n.hash == 0
        &&& n.outcome == Some(spec_derived_outcome(z[0].outcome->0, spec_even_ply(z, k)))
        &&& n.depth == spec_derived_depth(z, k)
    } by {
        assert(z[k] == (ProofNode { hash: 0, ..nodes[k] }));
        assert(z[0] == (ProofNode { hash: 0, ..nodes[0] }));
        assert(spec_canonical_bits(nodes[k].mv@) == nodes[k].mv@);
        if k == 0 {
            assert(nodes[k].parent is None);
        }
    }
}

/// The dump of a canonical tree, whose root FEN encodes without a newline,
/// reads back as exactly that tree with its hashes cleared, and its FEN:
/// the dump is well formed, the header's root depth is the derived one,
/// and the tree a reader builds from it is that one and no other.
pub proof fn lemma_dump_reads_back(fen: Seq<char>, nodes: Seq<ProofNode>)
    requires
        spec_canonical_tree(nodes),
        !encode_utf8(fen).contains(10u8),
    ensures
        ({
            let b = spec_dump(encode_utf8(fen), nodes);
            &&& spec_dump_format_ok(b)
            &&& decode_utf8(b.subrange(9, spec_dump_fen_end(b))) == fen
            &&& spec_dump_root_depth(b) == nodes[0].depth
            &&& spec_dump_tree(b, spec_without_hashes(nodes))
            &&& forall|other: Seq<ProofNode>| #[trigger] spec_dump_tree(b, other) ==> other == spec_without_hashes(nodes)
        }),
{
    let b = spec_dump(encode_utf8(fen), nodes);
    lemma_dump_round_trip(fen, nodes);
    lemma_dump_tree_of(b, nodes);
    assert forall|other: Seq<ProofNode>| #[trigger] spec_dump_tree(b, other) implies other == spec_without_hashes(nodes) by {
        lemma_dump_tree_unique(b, other, spec_without_hashes(nodes));
    }
}

/// A tree read from a well-formed dump is canonical, so writing it and
/// reading it again gives it back.
pub proof fn lemma_dump_tree_canonical(b: Seq<u8>, nodes: Seq<ProofNode>)
    requires
        spec_dump_format_ok(b),
        spec_dump_tree(b, nodes),
    ensures
        spec_canonical_tree(nodes),
{
    let start = spec_dump_start(b);
    let rs = spec_dump_record_size(b);
    assert(spec_decoded_node(nodes[0], b, start, rs, 0));
    lemma_none_code();
    assert(nodes[0].mv == Move::spec_none());
    assert forall|k: int| 0 <= k < nodes.len() implies spec_canonical_bits((#[trigger] nodes[k]).mv@) == nodes[k].mv@ by {
        assert(spec_decoded_node(nodes[k], b, start, rs, k));
        lemma_move_bits_round_trip(nodes[k].mv, spec_rec_code(b, start, rs, k));
    }
}

impl ProofTree {
    /// The tree in the dump format.
    pub fn to_bin(&self) -> (r: Result<Vec<u8>, ProofTreeFormatError>)
        requires
            self.wf(),
        ensures
            r is Ok <==> forall|i: int| 0 <= i < self.nodes.len() ==> (#[trigger] self.nodes@[i]).outcome is Some,
            r matches Ok(bytes) ==> bytes@ == spec_dump(encode_utf8(self.root_fen@), self.nodes@),
    {
        write_proof_tree(self)
    }

    /// A tree read from the dump format.
    pub fn from_bin(bytes: &[u8]) -> (r: Result<ProofTree, ProofTreeFormatError>)
        ensures
            bytes.len() < 8 ==> r == Err::<ProofTree, ProofTreeFormatError>(ProofTreeFormatError::UnexpectedEof),
            bytes.len() >= 8 && bytes@.take(8) != spec_magic() ==> r == Err::<ProofTree, ProofTreeFormatError>(
                ProofTreeFormatError::BadMagic,
            ),
            bytes.len() >= 9 && bytes@.take(8) == spec_magic() && bytes@[8] != 1 && bytes@[8] != 2 ==> r == Err::<
                ProofTree,
                ProofTreeFormatError,
            >(ProofTreeFormatError::UnsupportedVersion(bytes@[8])),
            (r is Ok || r matches Err(ProofTreeFormatError::RootDepthMismatch(_, _))) <==> spec_dump_format_ok(bytes@),
            r matches Err(ProofTreeFormatError::RootDepthMismatch(h, d)) ==> h == spec_dump_root_depth(bytes@) && h != d,
            r matches Err(ProofTreeFormatError::RootDepthMismatch(h, d)) ==> exists|nodes: Seq<ProofNode>|
                spec_dump_tree(bytes@, nodes) && nodes[0].depth == d,
            r matches Ok(t) ==> spec_dump_tree(bytes@, t.nodes@),
            r matches Ok(t) ==> {
                &&& t.nodes.len() == spec_dump_count(bytes@)
                &&& t.root_fen@ == decode_utf8(bytes@.subrange(9, spec_dump_fen_end(bytes@)))
                &&& spec_outcome_code(t.nodes@[0].outcome->0) == bytes@[spec_dump_fen_end(bytes@) + 1]
                &&& t.nodes@[0].depth == spec_dump_root_depth(bytes@)
                &&& forall|k: int|
                    0 <= k < t.nodes.len() ==> spec_decoded_node(
                        #[trigger] t.nodes@[k],
                        bytes@,
                        spec_dump_start(bytes@),
                        spec_dump_record_size(bytes@),
                        k,
                    )
            },
            r matches Ok(t) ==> {
                &&& t.wf()
                &&& bytes@.take(8) == spec_magic()
                &&& (bytes@[8] == 1 || bytes@[8] == 2)
                &&& forall|i: int| 0 <= i < t.nodes.len() ==> {
                    let n = #[trigger] t.nodes@[i];
                    &&& n.hash == 0
                    &&& n.depth == spec_derived_depth(t.nodes@, i)
                    &&& n.outcome == Some(spec_derived_outcome(t.nodes@[0].outcome->0, spec_even_ply(t.nodes@, i)))
                }
            },
    {
        read_proof_tree(bytes)
    }
}

} // verus!
