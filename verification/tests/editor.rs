use fatescroll::dice::{DiceFacts, DiceOp, DiceShape, RollShape, ScoringMode};
use fatescroll::editor::{dice_info, expected_values, DiceInfo, OutcomeKind};
use fatescroll::models::{ModifierRange, ResultEntry, Table};
use fatescroll::validator::validate_table;

fn roll(count: u32, sides: u32, has_modifiers: bool, scoring: ScoringMode) -> RollShape {
    RollShape { count, sides, has_modifiers, scoring }
}

/// What the dice engine reports for `2d6`.
fn two_d6() -> DiceFacts {
    DiceFacts { parsed: Ok(DiceShape::Roll(roll(2, 6, false, ScoringMode::Sum))), simulated: Ok((2, 12)) }
}

/// What the dice engine reports for `1d8`.
fn one_d8() -> DiceFacts {
    DiceFacts { parsed: Ok(DiceShape::Roll(roll(1, 8, false, ScoringMode::Sum))), simulated: Ok((1, 8)) }
}

/// What the dice engine reports for `D66`.
fn d66() -> DiceFacts {
    DiceFacts {
        parsed: Ok(DiceShape::Roll(roll(2, 6, false, ScoringMode::DigitConcatenate))),
        simulated: Ok((11, 66)),
    }
}

/// What the dice engine reports for `4d6kh3`: keep-highest dice, which
/// only the simulation can measure.
fn four_d6_keep_three() -> DiceFacts {
    DiceFacts { parsed: Ok(DiceShape::Roll(roll(4, 6, true, ScoringMode::Sum))), simulated: Ok((3, 18)) }
}

/// What the dice engine reports for `not dice`.
fn not_dice() -> DiceFacts {
    DiceFacts { parsed: Err("unexpected character 'n'".to_string()), simulated: Err("unexpected character 'n'".to_string()) }
}

#[test]
fn dice_info_standard_and_digit_and_bad() {
    let d6 = dice_info("2d6", &two_d6()).unwrap();
    assert_eq!((d6.min, d6.max, d6.kind), (Some(2), Some(12), OutcomeKind::Range));
    let digit = dice_info("D66", &d66()).unwrap();
    assert_eq!((digit.kind, digit.min, digit.max, digit.outcomes), (OutcomeKind::Digit, Some(11), Some(66), 36));
    let bad = dice_info("not dice", &not_dice());
    assert!(bad.is_err());
    assert_eq!(bad.unwrap_err(), "unexpected character 'n'");
}

#[test]
fn expected_values_modifier_and_digit() {
    let vals = expected_values("1d8", true, 0, 6, &one_d8()).unwrap();
    assert_eq!(vals, (1..=14).collect::<Vec<i64>>());
    let dv = expected_values("D66", false, 0, 0, &d66()).unwrap();
    assert_eq!(dv.len(), 36);
    assert_eq!(dv[6], 21); // 11..16 then 21
    // digit dice + modifier is a core error
    let err = expected_values("D66", true, 0, 1, &d66());
    assert!(err.is_err());
}

#[test]
fn expected_values_rejects_modifier_on_unsupported_dice() {
    let err = expected_values("4d6kh3", true, 0, 1, &four_d6_keep_three());
    assert!(err.is_err());
}

#[test]
fn expected_values_rejects_reversed_modifier_range() {
    let err = expected_values("1d8", true, 5, 0, &one_d8());
    assert!(err.is_err());
    assert!(err.unwrap_err().contains('5'));
}

#[test]
fn dice_info_keep_modifier_falls_back_to_simulation() {
    let kh = dice_info("4d6kh3", &four_d6_keep_three()).unwrap();
    assert_eq!(kh.kind, OutcomeKind::Simulated);
    assert_eq!(kh.min, Some(3));
    assert_eq!(kh.max, Some(18));
}

#[test]
fn expected_values_rejects_negative_envelope() {
    let facts = DiceFacts {
        parsed: Ok(DiceShape::BinOp {
            op: DiceOp::Sub,
            left: Some(roll(1, 6, false, ScoringMode::Sum)),
            right: Some(3),
        }),
        simulated: Ok((-2, 3)),
    };
    let err = expected_values("1d6 - 3", false, 0, 0, &facts);
    assert!(err.is_err());
}

#[test]
fn editor_dice_info_range_width_and_simulation_error() {
    let info = dice_info("1d20", &DiceFacts {
        parsed: Ok(DiceShape::Roll(roll(1, 20, false, ScoringMode::Sum))),
        simulated: Ok((1, 20)),
    });
    assert_eq!(info, Ok(DiceInfo { kind: OutcomeKind::Range, min: Some(1), max: Some(20), outcomes: 20 }));
    let failed = dice_info("3d6!", &DiceFacts {
        parsed: Ok(DiceShape::Roll(roll(3, 6, true, ScoringMode::Sum))),
        simulated: Err("simulation failed".to_string()),
    });
    assert_eq!(failed, Err("simulation failed".to_string()));
}

#[test]
fn editor_expected_values_exact_messages() {
    assert_eq!(
        expected_values("D66", true, 0, 1, &d66()),
        Err("modifier_range unsupported for digit dice".to_string())
    );
    assert_eq!(expected_values("1d8", true, 5, 0, &one_d8()), Err("modifier_range reversed: [5, 0]".to_string()));
    assert_eq!(expected_values("2d6", false, 0, 0, &two_d6()), Ok((2..=12).collect::<Vec<i64>>()));
}

fn autofilled(roll: &str, modifier_range: Option<ModifierRange>, values: &[i64]) -> Table {
    Table::Simple {
        id: "auto".into(),
        name: "Auto".into(),
        tags: vec![],
        notes: vec![],
        roll: roll.into(),
        modifier_range,
        results: values
            .iter()
            .map(|&v| ResultEntry { min: v as i32, max: v as i32, text: Some(format!("R{v}")), chain: None, bindings: vec![] })
            .collect(),
    }
}

#[test]
fn editor_autofilled_tables_validate() {
    let with_modifier = expected_values("1d8", true, 0, 6, &one_d8()).unwrap();
    let table = autofilled("1d8", Some(ModifierRange { min: 0, max: 6 }), &with_modifier);
    assert_eq!(validate_table(&table, &one_d8()), Ok(()));

    let digits = expected_values("D66", false, 0, 0, &d66()).unwrap();
    assert_eq!(validate_table(&autofilled("D66", None, &digits), &d66()), Ok(()));

    let simulated = expected_values("2d6", false, 0, 0, &two_d6()).unwrap();
    assert_eq!(validate_table(&autofilled("2d6", None, &simulated), &two_d6()), Ok(()));
}

#[test]
fn editor_expected_values_reports_a_reversed_modifier_past_the_span() {
    assert_eq!(expected_values("1d8", true, 10, 0, &one_d8()), Err("modifier_range reversed: [10, 0]".to_string()));
}
