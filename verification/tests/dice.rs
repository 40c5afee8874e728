use fatescroll::dice::{dice_range, digit_dice_params, digit_dice_values, DiceOp, DiceShape, RollShape, ScoringMode};
use fatescroll::error::{Error, ValidationError};
use fatescroll::dice::{dice_range_fits, digit_dice_fit};

fn roll(count: u32, sides: u32) -> RollShape {
    RollShape { count, sides, has_modifiers: false, scoring: ScoringMode::Sum }
}

fn offset(op: DiceOp, count: u32, sides: u32, z: i64) -> DiceShape {
    DiceShape::BinOp { op, left: Some(roll(count, sides)), right: Some(z) }
}

fn unsupported_reason(err: Error) -> String {
    match err {
        Error::Validation(ValidationError::UnsupportedDiceExpression { reason, .. }) => reason,
        other => panic!("expected an unsupported dice expression, got {other:?}"),
    }
}

#[test]
fn dice_range_1d6() {
    let (min, max) = dice_range("1d6", &Ok(DiceShape::Roll(roll(1, 6)))).unwrap();
    assert_eq!(min, 1);
    assert_eq!(max, 6);
}

#[test]
fn dice_range_2d6() {
    let (min, max) = dice_range("2d6", &Ok(DiceShape::Roll(roll(2, 6)))).unwrap();
    assert_eq!(min, 2);
    assert_eq!(max, 12);
}

#[test]
fn dice_range_1d8_plus_1() {
    let (min, max) = dice_range("1d8+1", &Ok(offset(DiceOp::Add, 1, 8, 1))).unwrap();
    assert_eq!(min, 2);
    assert_eq!(max, 9);
}

#[test]
fn dice_range_invalid_expression() {
    assert!(dice_range("1z6", &Err("unexpected character".into())).is_err());
}

#[test]
fn dice_range_rejects_keep_modifier() {
    let shape = DiceShape::Roll(RollShape { count: 4, sides: 6, has_modifiers: true, scoring: ScoringMode::Sum });
    let err = dice_range("4d6kh3", &Ok(shape)).unwrap_err();
    assert_eq!(unsupported_reason(err), "dice modifiers");
}

#[test]
fn dice_range_rejects_exploding() {
    let shape = DiceShape::Roll(RollShape { count: 1, sides: 6, has_modifiers: true, scoring: ScoringMode::Sum });
    let err = dice_range("1d6!", &Ok(shape)).unwrap_err();
    assert_eq!(unsupported_reason(err), "dice modifiers");
}

#[test]
fn dice_range_rejects_dice_plus_dice() {
    let shape = DiceShape::BinOp { op: DiceOp::Add, left: Some(roll(1, 6)), right: None };
    let err = dice_range("1d6+1d4", &Ok(shape)).unwrap_err();
    assert_eq!(unsupported_reason(err), "non-literal right-hand expression");
}

#[test]
fn dice_range_rejects_multiplication() {
    let err = dice_range("1d6*2", &Ok(offset(DiceOp::Other, 1, 6, 2))).unwrap_err();
    assert_eq!(unsupported_reason(err), "operator (only +/- supported)");
}

#[test]
fn dice_range_1d8_plus_6() {
    let (min, max) = dice_range("1d8+6", &Ok(offset(DiceOp::Add, 1, 8, 6))).unwrap();
    assert_eq!(min, 7);
    assert_eq!(max, 14);
}

#[test]
fn dice_range_1d6_minus_1() {
    let (min, max) = dice_range("1d6-1", &Ok(offset(DiceOp::Sub, 1, 6, 1))).unwrap();
    assert_eq!(min, 0);
    assert_eq!(max, 5);
}

#[test]
fn dice_range_d66() {
    let d66 = DiceShape::Roll(RollShape { count: 2, sides: 6, has_modifiers: false, scoring: ScoringMode::DigitConcatenate });
    let (min, max) = dice_range("D66", &Ok(d66)).unwrap();
    assert_eq!(min, 11);
    assert_eq!(max, 66);
}

#[test]
fn dice_range_rejects_negative_offset() {
    let err = dice_range("1d4-3", &Ok(offset(DiceOp::Sub, 1, 4, 3))).unwrap_err();
    assert_eq!(unsupported_reason(err), "produces negative values");
}

#[test]
fn dice_range_rejects_other_shapes() {
    assert_eq!(unsupported_reason(dice_range("5", &Ok(DiceShape::Number(5))).unwrap_err()), "expression type");
    let other = DiceShape::BinOp { op: DiceOp::Add, left: None, right: Some(1) };
    assert_eq!(unsupported_reason(dice_range("(1d4*2)+1", &Ok(other)).unwrap_err()), "complex left-hand expression");
}

#[test]
fn digit_dice_params_only_for_digit_scoring() {
    let d66 = DiceShape::Roll(RollShape { count: 2, sides: 6, has_modifiers: false, scoring: ScoringMode::DigitConcatenate });
    assert_eq!(digit_dice_params(&d66), Some((6, 2)));
    assert_eq!(digit_dice_params(&DiceShape::Roll(roll(2, 6))), None);
}

#[test]
fn digit_dice_values_d66() {
    let values = digit_dice_values(6, 2);
    assert_eq!(values.len(), 36);
    assert_eq!(values[0], 11);
    assert_eq!(values[values.len() - 1], 66);
    assert!(values.contains(&35));
    assert!(!values.contains(&17));
}

#[test]
fn digit_dice_values_d44() {
    let values = digit_dice_values(4, 2);
    assert_eq!(values.len(), 16);
    assert_eq!(values[0], 11);
    assert_eq!(values[values.len() - 1], 44);
}

#[test]
fn digit_dice_values_d666() {
    let values = digit_dice_values(6, 3);
    assert_eq!(values.len(), 216);
    assert_eq!(values[0], 111);
    assert_eq!(values[values.len() - 1], 666);
}

#[test]
fn digit_dice_values_are_strictly_ascending() {
    let values = digit_dice_values(3, 2);
    assert_eq!(values, vec![11, 12, 13, 21, 22, 23, 31, 32, 33]);
}

#[test]
fn dice_fit_checks() {
    assert!(digit_dice_fit(6, 2));
    assert!(digit_dice_fit(9, 9));
    assert!(!digit_dice_fit(9, 11));
    assert!(!digit_dice_fit(0, 2));
    assert!(digit_dice_fit(0, 0));
    let plain = RollShape { count: 2, sides: 6, has_modifiers: false, scoring: ScoringMode::Sum };
    assert!(dice_range_fits(&DiceShape::Roll(plain)));
    let huge = RollShape { count: u32::MAX, sides: 2, has_modifiers: false, scoring: ScoringMode::Sum };
    assert!(!dice_range_fits(&DiceShape::Roll(huge)));
    let shifted = DiceShape::BinOp { op: DiceOp::Add, left: Some(plain), right: Some(i64::MAX) };
    assert!(!dice_range_fits(&shifted));
    let small = DiceShape::BinOp { op: DiceOp::Sub, left: Some(plain), right: Some(1) };
    assert!(dice_range_fits(&small));
}

#[test]
fn dice_digit_values_are_all_digit_readings() {
    let d66 = digit_dice_values(6, 2);
    assert_eq!(d66.len(), 36);
    let d666 = digit_dice_values(6, 3);
    assert_eq!(d666.len(), 216);
    for v in 0..1000u32 {
        let digits_ok = (100..=999).contains(&v) && v.to_string().chars().all(|c| ('1'..='6').contains(&c));
        assert_eq!(d666.contains(&v), digits_ok, "{v}");
    }
    assert_eq!(digit_dice_values(3, 0), vec![0]);
}
