use atomic_solver::moves::PieceType;
use atomic_solver::search::params::{PieceValues, ScorerParams, ScorerParamsError};

#[test]
fn defaults_validate() {
    let params = ScorerParams::default();
    assert!(params.validate().is_ok(), "default params should validate");
}

#[test]
fn piece_value_uses_configured_table() {
    let params = ScorerParams::default();
    assert_eq!(params.piece_value(PieceType::Pawn), 100);
    assert_eq!(params.piece_value(PieceType::Queen), 900);
    assert_eq!(params.piece_value(PieceType::Commoner), 20_000);
}

#[test]
fn commoner_must_dominate_other_pieces() {
    let params = ScorerParams {
        pieces: PieceValues {
            commoner: 1000,
            ..Default::default()
        },
        ..Default::default()
    };
    assert!(params.validate().is_err());
}

#[test]
fn negative_score_rejected() {
    let params = ScorerParams {
        score_threat: -1,
        ..Default::default()
    };
    assert!(params.validate().is_err());
}

#[test]
fn scale_factor_above_percent_rejected() {
    let params = ScorerParams {
        and_pawn_storm_scale: 101,
        ..Default::default()
    };
    assert!(params.validate().is_err());
}

#[test]
fn scale_factor_negative_rejected() {
    let params = ScorerParams {
        and_pawn_storm_scale: -1,
        ..Default::default()
    };
    assert!(params.validate().is_err());
}

#[test]
fn scale_factor_in_range_validates() {
    let params = ScorerParams {
        and_pawn_storm_scale: 50,
        ..Default::default()
    };
    assert!(params.validate().is_ok());
}

#[test]
fn promotion_must_beat_max_capture() {
    let params = ScorerParams {
        score_capture: 2_000_000,
        ..Default::default()
    };
    assert!(params.validate().is_err());
}

#[test]
fn winning_capture_must_beat_promotion() {
    let params = ScorerParams {
        score_winning_capture: 1_000_000,
        ..Default::default()
    };
    assert!(params.validate().is_err());
}

#[test]
fn every_scale_bound_is_inclusive() {
    for scale in [0, 100] {
        let params = ScorerParams {
            and_rook_attack_scale: scale,
            and_approach_scale: scale,
            ..Default::default()
        };
        assert!(params.validate().is_ok(), "scale {scale} is within 0..=100");
    }
}

#[test]
fn piece_values_default_table() {
    let p = PieceValues::default();
    assert_eq!((p.pawn, p.knight, p.bishop, p.rook, p.queen, p.commoner), (100, 320, 330, 500, 900, 20_000));
}

#[test]
fn error_messages_name_the_field_and_values() {
    assert_eq!(ScorerParamsError::Negative { field: "pawn", value: -5 }.to_text(), "pawn must be non-negative, got -5");
    assert_eq!(
        ScorerParamsError::OutOfRange { field: "depth", value: 300, min: 0, max: 255 }.to_text(),
        "depth=300 is out of range [0, 255]"
    );
    assert_eq!(
        ScorerParamsError::PieceHierarchy { value: 10, bound: 2150 }.to_text(),
        "commoner value (10) must be strictly greater than the sum of all other pieces (2150)"
    );
    assert_eq!(
        ScorerParamsError::Overflow { field: "x", value: i64::MIN }.to_text(),
        "x computation overflowed i32: -9223372036854775808"
    );
}
