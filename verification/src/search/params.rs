//! Configurable weights of the static move scorer and their validation.

use vstd::prelude::*;

use crate::moves::PieceType;
use crate::text::{push_signed_decimal, spec_signed_decimal};

verus! {

/// Why a `ScorerParams` value was rejected.
#[derive(Clone, Debug, PartialEq, Eq)]
pub enum ScorerParamsError {
    Negative { field: &'static str, value: i32 },
    OutOfRange { field: &'static str, value: i32, min: i32, max: i32 },
    Hierarchy { field: &'static str, expected_above: &'static str, value: i64, bound: i64 },
    PieceHierarchy { value: i64, bound: i64 },
    Overflow { field: &'static str, value: i64 },
}

impl ScorerParamsError {
    /// The message of the error.
    pub open spec fn spec_text(self) -> Seq<char> {
        match self {
            ScorerParamsError::Negative { field, value } => field@ + " must be non-negative, got "@ + spec_signed_decimal(value as int),
            ScorerParamsError::OutOfRange { field, value, min, max } => field@ + "="@ + spec_signed_decimal(value as int)
                + " is out of range ["@ + spec_signed_decimal(min as int) + ", "@ + spec_signed_decimal(max as int) + "]"@,
            ScorerParamsError::Hierarchy { field, expected_above, value, bound } => field@ + " ("@ + spec_signed_decimal(value as int)
                + ") must be strictly greater than "@ + expected_above@ + " ("@ + spec_signed_decimal(bound as int) + ")"@,
            ScorerParamsError::PieceHierarchy { value, bound } => "commoner value ("@ + spec_signed_decimal(value as int)
                + ") must be strictly greater than the sum of all other pieces ("@ + spec_signed_decimal(bound as int) + ")"@,
            ScorerParamsError::Overflow { field, value } => field@ + " computation overflowed i32: "@ + spec_signed_decimal(
                value as int,
            ),
        }
    }

    /// The message of the error.
    pub fn to_text(&self) -> (r: String)
        ensures
            r@ == self.spec_text(),
    {
        let mut s = String::new();
        match self {
            ScorerParamsError::Negative { field, value } => {
                s.append(field);
                s.append(" must be non-negative, got ");
                push_signed_decimal(&mut s, *value as i64);
            },
            ScorerParamsError::OutOfRange { field, value, min, max } => {
                s.append(field);
                s.append("=");
                push_signed_decimal(&mut s, *value as i64);
                s.append(" is out of range [");
                push_signed_decimal(&mut s, *min as i64);
                s.append(", ");
                push_signed_decimal(&mut s, *max as i64);
                s.append("]");
            },
            ScorerParamsError::Hierarchy { field, expected_above, value, bound } => {
                s.append(field);
                s.append(" (");
                push_signed_decimal(&mut s, *value);
                s.append(") must be strictly greater than ");
                s.append(expected_above);
                s.append(" (");
                push_signed_decimal(&mut s, *bound);
                s.append(")");
            },
            ScorerParamsError::PieceHierarchy { value, bound } => {
                s.append("commoner value (");
                push_signed_decimal(&mut s, *value);
                s.append(") must be strictly greater than the sum of all other pieces (");
                push_signed_decimal(&mut s, *bound);
                s.append(")");
            },
            ScorerParamsError::Overflow { field, value } => {
                s.append(field);
                s.append(" computation overflowed i32: ");
                push_signed_decimal(&mut s, *value);
            },
        }
        proof {
            assert(s@ =~= self.spec_text());
        }
        s
    }
}

/// Piece values used by the capture estimate and promotion bonuses.
#[derive(Clone, Debug)]
pub struct PieceValues {
    pub pawn: i32,
    pub knight: i32,
    pub bishop: i32,
    pub rook: i32,
    pub queen: i32,
    pub commoner: i32,
}

impl Default for PieceValues {
    fn default() -> (r: PieceValues)
        ensures
            r.pawn == 100 && r.knight == 320 && r.bishop == 330 && r.rook == 500 && r.queen == 900 && r.commoner == 20_000,
    {
        PieceValues { pawn: 100, knight: 320, bishop: 330, rook: 500, queen: 900, commoner: 20_000 }
    }
}

/// All weights of the static atomic move scorer.
#[derive(Clone, Debug)]
pub struct ScorerParams {
    pub score_winning_capture: i32,
    pub score_promotion: i32,
    pub score_capture: i32,
    pub capture_net_scale: i32,
    pub score_threat_last: i32,
    pub score_threat: i32,
    pub score_kamikaze_last: i32,
    pub score_kamikaze: i32,
    pub score_approach: i32,
    pub score_approach_step: i32,
    pub score_center: i32,
    pub score_center_step: i32,
    pub score_pawn_storm: i32,
    pub score_pawn_storm_step: i32,
    pub score_rook_center: i32,
    pub score_rook_open_file: i32,
    pub score_rook_open_file_step: i32,
    pub score_rook_back_rank: i32,
    pub and_pawn_storm_scale: i32,
    pub and_rook_attack_scale: i32,
    pub and_approach_scale: i32,
    pub pieces: PieceValues,
}

impl ScorerParams {
    /// The compiled-in default weights.
    pub open spec fn spec_default() -> ScorerParams {
        ScorerParams {
            score_winning_capture: 100_000_000,
            score_promotion: 1_000_000,
            score_capture: 5_000,
            capture_net_scale: 10,
            score_threat_last: 10_000,
            score_threat: 1_000,
            score_kamikaze_last: 9_000,
            score_kamikaze: 3_000,
            score_approach: 100,
            score_approach_step: 10,
            score_center: 50,
            score_center_step: 10,
            score_pawn_storm: 5_500,
            score_pawn_storm_step: 100,
            score_rook_center: 500,
            score_rook_open_file: 2_000,
            score_rook_open_file_step: 50,
            score_rook_back_rank: 300,
            and_pawn_storm_scale: 50,
            and_rook_attack_scale: 50,
            and_approach_scale: 75,
            pieces: PieceValues { pawn: 100, knight: 320, bishop: 330, rook: 500, queen: 900, commoner: 20_000 },
        }
    }
}

impl Default for ScorerParams {
    fn default() -> (r: ScorerParams)
        ensures
            r == ScorerParams::spec_default(),
            r.score_winning_capture == 100_000_000,
            r.score_promotion == 1_000_000,
            r.score_capture == 5_000,
            r.capture_net_scale == 10,
            r.score_threat_last == 10_000,
            r.score_threat == 1_000,
            r.score_kamikaze_last == 9_000,
            r.score_kamikaze == 3_000,
            r.score_approach == 100,
            r.score_approach_step == 10,
            r.score_center == 50,
            r.score_center_step == 10,
            r.score_pawn_storm == 5_500,
            r.score_pawn_storm_step == 100,
            r.score_rook_center == 500,
            r.score_rook_open_file == 2_000,
            r.score_rook_open_file_step == 50,
            r.score_rook_back_rank == 300,
            r.and_pawn_storm_scale == 50,
            r.and_rook_attack_scale == 50,
            r.and_approach_scale == 75,
            r.pieces.pawn == 100 && r.pieces.knight == 320 && r.pieces.bishop == 330,
            r.pieces.rook == 500 && r.pieces.queen == 900 && r.pieces.commoner == 20_000,
    {
        ScorerParams {
            score_winning_capture: 100_000_000,
            score_promotion: 1_000_000,
            score_capture: 5_000,
            capture_net_scale: 10,
            score_threat_last: 10_000,
            score_threat: 1_000,
            score_kamikaze_last: 9_000,
            score_kamikaze: 3_000,
            score_approach: 100,
            score_approach_step: 10,
            score_center: 50,
            score_center_step: 10,
            score_pawn_storm: 5_500,
            score_pawn_storm_step: 100,
            score_rook_center: 500,
            score_rook_open_file: 2_000,
            score_rook_open_file_step: 50,
            score_rook_back_rank: 300,
            and_pawn_storm_scale: 50,
            and_rook_attack_scale: 50,
            and_approach_scale: 75,
            pieces: PieceValues::default(),
        }
    }
}

/// The value of a piece type.
pub open spec fn spec_piece_value(p: ScorerParams, pt: PieceType) -> i32 {
    match pt {
        PieceType::Pawn => p.pieces.pawn,
        PieceType::Knight => p.pieces.knight,
        PieceType::Bishop => p.pieces.bishop,
        PieceType::Rook => p.pieces.rook,
        PieceType::Queen => p.pieces.queen,
        PieceType::Commoner => p.pieces.commoner,
    }
}

/// The score fields and piece values that must be non-negative, in the
/// order they are checked.
pub open spec fn spec_non_negative_fields(p: ScorerParams) -> Seq<(&'static str, i32)> {
    seq![
        ("score_winning_capture", p.score_winning_capture),
        ("score_promotion", p.score_promotion),
        ("score_capture", p.score_capture),
        ("capture_net_scale", p.capture_net_scale),
        ("score_threat_last", p.score_threat_last),
        ("score_threat", p.score_threat),
        ("score_kamikaze_last", p.score_kamikaze_last),
        ("score_kamikaze", p.score_kamikaze),
        ("score_approach", p.score_approach),
        ("score_approach_step", p.score_approach_step),
        ("score_center", p.score_center),
        ("score_center_step", p.score_center_step),
        ("score_pawn_storm", p.score_pawn_storm),
        ("score_pawn_storm_step", p.score_pawn_storm_step),
        ("score_rook_center", p.score_rook_center),
        ("score_rook_open_file", p.score_rook_open_file),
        ("score_rook_open_file_step", p.score_rook_open_file_step),
        ("score_rook_back_rank", p.score_rook_back_rank),
        ("and_pawn_storm_scale", p.and_pawn_storm_scale),
        ("and_rook_attack_scale", p.and_rook_attack_scale),
        ("and_approach_scale", p.and_approach_scale),
        ("pieces.pawn", p.pieces.pawn),
        ("pieces.knight", p.pieces.knight),
        ("pieces.bishop", p.pieces.bishop),
        ("pieces.rook", p.pieces.rook),
        ("pieces.queen", p.pieces.queen),
        ("pieces.commoner", p.pieces.commoner),
    ]
}

/// The percentage scale factors, which must lie in `[0, 100]`.
pub open spec fn spec_scale_fields(p: ScorerParams) -> Seq<(&'static str, i32)> {
    seq![
        ("and_pawn_storm_scale", p.and_pawn_storm_scale),
        ("and_rook_attack_scale", p.and_rook_attack_scale),
        ("and_approach_scale", p.and_approach_scale),
    ]
}

/// Index of the first field of `s` (from `i` on) whose value fails `ok`.
pub open spec fn spec_first_failing(s: Seq<(&'static str, i32)>, i: int, lo: int, hi: int) -> Option<int>
    decreases s.len() - i,
{
    if i < 0 || i >= s.len() {
        None
    } else if !(lo <= s[i].1 <= hi) {
        Some(i)
    } else {
        spec_first_failing(s, i + 1, lo, hi)
    }
}

pub open spec fn spec_other_pieces_sum(p: ScorerParams) -> i64 {
    (p.pieces.pawn + p.pieces.knight + p.pieces.bishop + p.pieces.rook + p.pieces.queen) as i64
}

pub open spec fn spec_max_promotion_score(p: ScorerParams) -> i64 {
    (p.score_promotion + p.pieces.queen) as i64
}

pub open spec fn spec_max_capture_score(p: ScorerParams) -> int {
    p.score_capture + p.capture_net_scale * (p.pieces.queen + p.pieces.rook + p.pieces.bishop + p.pieces.knight - p.pieces.pawn)
}

/// The validation rules, checked in order: non-negative fields; scale
/// factors within `[0, 100]`; the commoner worth more than all other pieces
/// together; `score_promotion + queen` within `i32`; the winning capture
/// above it; the best non-winning capture score within `i32`; and the
/// promotion above that.
pub open spec fn spec_validate(p: ScorerParams) -> Result<(), ScorerParamsError> {
    let nn = spec_non_negative_fields(p);
    let sc = spec_scale_fields(p);
    if spec_first_failing(nn, 0, 0, i32::MAX as int) is Some {
        let k = spec_first_failing(nn, 0, 0, i32::MAX as int)->0;
        Err(ScorerParamsError::Negative { field: nn[k].0, value: nn[k].1 })
    } else if spec_first_failing(sc, 0, 0, 100) is Some {
        let k = spec_first_failing(sc, 0, 0, 100)->0;
        Err(ScorerParamsError::OutOfRange { field: sc[k].0, value: sc[k].1, min: 0, max: 100 })
    } else if p.pieces.commoner <= spec_other_pieces_sum(p) {
        Err(ScorerParamsError::PieceHierarchy { value: p.pieces.commoner as i64, bound: spec_other_pieces_sum(p) })
    } else if spec_max_promotion_score(p) > i32::MAX {
        Err(ScorerParamsError::Overflow { field: "score_promotion + max_piece_value", value: spec_max_promotion_score(p) })
    } else if p.score_winning_capture <= spec_max_promotion_score(p) {
        Err(ScorerParamsError::Hierarchy {
            field: "score_winning_capture",
            expected_above: "score_promotion + queen",
            value: p.score_winning_capture as i64,
            bound: spec_max_promotion_score(p),
        })
    } else if spec_max_capture_score(p) > i32::MAX {
        Err(ScorerParamsError::Overflow { field: "max_capture_score", value: spec_max_capture_score(p) as i64 })
    } else if spec_max_capture_score(p) >= p.score_promotion {
        Err(ScorerParamsError::Hierarchy {
            field: "score_promotion",
            expected_above: "max_capture_score",
            value: p.score_promotion as i64,
            bound: spec_max_capture_score(p) as i64,
        })
    } else {
        Ok(())
    }
}

fn first_failing(s: &[(&'static str, i32)], lo: i32, hi: i32) -> (r: Option<usize>)
    ensures
        r == (match spec_first_failing(s@, 0, lo as int, hi as int) {
            Some(k) => Some(k as usize),
            None => None,
        }),
        r matches Some(k) ==> k < s.len(),
        spec_first_failing(s@, 0, lo as int, hi as int) matches Some(k) ==> 0 <= k < s.len(),
{
    proof {
        lemma_first_failing_range(s@, 0, lo as int, hi as int);
    }
    let mut i: usize = 0;
    while i < s.len()
        invariant
            i <= s.len(),
            spec_first_failing(s@, 0, lo as int, hi as int) == spec_first_failing(s@, i as int, lo as int, hi as int),
        decreases s.len() - i,
    {
        let (_, v) = s[i];
        if v < lo || v > hi {
            return Some(i);
        }
        i += 1;
    }
    None
}

impl ScorerParams {
    /// The value of a piece type.
    pub fn piece_value(&self, pt: PieceType) -> (r: i32)
        ensures
            r == spec_piece_value(*self, pt),
    {
        match pt {
            PieceType::Pawn => self.pieces.pawn,
            PieceType::Knight => self.pieces.knight,
            PieceType::Bishop => self.pieces.bishop,
            PieceType::Rook => self.pieces.rook,
            PieceType::Queen => self.pieces.queen,
            PieceType::Commoner => self.pieces.commoner,
        }
    }

    /// Check that the weights keep the scorer's early-return categories
    /// (winning capture, promotion, capture) strictly ordered and free of
    /// overflow; see [`spec_validate`].
    pub fn validate(&self) -> (r: Result<(), ScorerParamsError>)
        ensures
            r == spec_validate(*self),
    {
        let non_negative = [
            ("score_winning_capture", self.score_winning_capture),
            ("score_promotion", self.score_promotion),
            ("score_capture", self.score_capture),
            ("capture_net_scale", self.capture_net_scale),
            ("score_threat_last", self.score_threat_last),
            ("score_threat", self.score_threat),
            ("score_kamikaze_last", self.score_kamikaze_last),
            ("score_kamikaze", self.score_kamikaze),
            ("score_approach", self.score_approach),
            ("score_approach_step", self.score_approach_step),
            ("score_center", self.score_center),
            ("score_center_step", self.score_center_step),
            ("score_pawn_storm", self.score_pawn_storm),
            ("score_pawn_storm_step", self.score_pawn_storm_step),
            ("score_rook_center", self.score_rook_center),
            ("score_rook_open_file", self.score_rook_open_file),
            ("score_rook_open_file_step", self.score_rook_open_file_step),
            ("score_rook_back_rank", self.score_rook_back_rank),
            ("and_pawn_storm_scale", self.and_pawn_storm_scale),
            ("and_rook_attack_scale", self.and_rook_attack_scale),
            ("and_approach_scale", self.and_approach_scale),
            ("pieces.pawn", self.pieces.pawn),
            ("pieces.knight", self.pieces.knight),
            ("pieces.bishop", self.pieces.bishop),
            ("pieces.rook", self.pieces.rook),
            ("pieces.queen", self.pieces.queen),
            ("pieces.commoner", self.pieces.commoner),
        ];
        assert(non_negative@ =~= spec_non_negative_fields(*self));
        if let Some(k) = first_failing(&non_negative, 0, i32::MAX) {
            let (field, value) = non_negative[k];
            return Err(ScorerParamsError::Negative { field, value });
        }
        let scales = [
            ("and_pawn_storm_scale", self.and_pawn_storm_scale),
            ("and_rook_attack_scale", self.and_rook_attack_scale),
            ("and_approach_scale", self.and_approach_scale),
        ];
        assert(scales@ =~= spec_scale_fields(*self));
        if let Some(k) = first_failing(&scales, 0, 100) {
            let (field, value) = scales[k];
            return Err(ScorerParamsError::OutOfRange { field, value, min: 0, max: 100 });
        }
        proof {
            // every field is now known to be non-negative
            assert forall|i: int| 0 <= i < 27 implies 0 <= (#[trigger] spec_non_negative_fields(*self)[i]).1 by {
                lemma_first_failing_none(spec_non_negative_fields(*self), 0, 0, i32::MAX as int, i);
            }
            assert(0 <= spec_non_negative_fields(*self)[21].1);
            assert(0 <= spec_non_negative_fields(*self)[22].1);
            assert(0 <= spec_non_negative_fields(*self)[23].1);
            assert(0 <= spec_non_negative_fields(*self)[24].1);
            assert(0 <= spec_non_negative_fields(*self)[25].1);
            assert(0 <= spec_non_negative_fields(*self)[2].1);
            assert(0 <= spec_non_negative_fields(*self)[3].1);
            assert(0 <= spec_non_negative_fields(*self)[1].1);
        }
        let other_pieces_sum: i64 = (self.pieces.pawn as i64) + (self.pieces.knight as i64) + (self.pieces.bishop as i64)
            + (self.pieces.rook as i64) + (self.pieces.queen as i64);
        if (self.pieces.commoner as i64) <= other_pieces_sum {
            return Err(ScorerParamsError::PieceHierarchy { value: self.pieces.commoner as i64, bound: other_pieces_sum });
        }
        let max_promotion_score: i64 = (self.score_promotion as i64) + (self.pieces.queen as i64);
        check_i32("score_promotion + max_piece_value", max_promotion_score)?;
        if (self.score_winning_capture as i64) <= max_promotion_score {
            return Err(ScorerParamsError::Hierarchy {
                field: "score_winning_capture",
                expected_above: "score_promotion + queen",
                value: self.score_winning_capture as i64,
                bound: max_promotion_score,
            });
        }
        let max_non_commoner_value: i64 = (self.pieces.queen as i64) + (self.pieces.rook as i64) + (self.pieces.bishop as i64)
            + (self.pieces.knight as i64);
        let max_capture_net: i64 = max_non_commoner_value - (self.pieces.pawn as i64);
        assert(-0x4000_0000_0000_0000 < (self.capture_net_scale as i64) * max_capture_net < 0x4000_0000_0000_0000) by (nonlinear_arith)
            requires
                0 <= self.capture_net_scale < 0x8000_0000,
                -0x8000_0000 < max_capture_net < 0x8000_0000,
        ;
        let max_capture_score: i64 = (self.score_capture as i64) + (self.capture_net_scale as i64) * max_capture_net;
        check_i32("max_capture_score", max_capture_score)?;
        if max_capture_score >= (self.score_promotion as i64) {
            return Err(ScorerParamsError::Hierarchy {
                field: "score_promotion",
                expected_above: "max_capture_score",
                value: self.score_promotion as i64,
                bound: max_capture_score,
            });
        }
        Ok(())
    }
}

proof fn lemma_first_failing_range(s: Seq<(&'static str, i32)>, i: int, lo: int, hi: int)
    requires
        0 <= i,
    ensures
        spec_first_failing(s, i, lo, hi) matches Some(k) ==> i <= k < s.len(),
    decreases s.len() - i,
{
    if i < s.len() {
        lemma_first_failing_range(s, i + 1, lo, hi);
    }
}

proof fn lemma_first_failing_none(s: Seq<(&'static str, i32)>, i: int, lo: int, hi: int, j: int)
    requires
        0 <= i <= j < s.len(),
        spec_first_failing(s, i, lo, hi) is None,
    ensures
        lo <= s[j].1 <= hi,
    decreases j - i,
{
    if i < j {
        lemma_first_failing_none(s, i + 1, lo, hi, j);
    }
}

/// Reject values above `i32::MAX`.
pub fn check_i32(field: &'static str, value: i64) -> (r: Result<(), ScorerParamsError>)
    ensures
        r == (if value > i32::MAX { Err(ScorerParamsError::Overflow { field, value }) } else { Ok(()) }),
{
    if value > i32::MAX as i64 {
        return Err(ScorerParamsError::Overflow { field, value });
    }
    Ok(())
}

} // verus!
