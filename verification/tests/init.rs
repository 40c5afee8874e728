use fatescroll::dice::{DiceOp, DiceShape, RollShape, ScoringMode};
use fatescroll::error::{Error, ValidationError};
use fatescroll::init::{
    calculate_distribution, choose_roll_expression, generate_template, Distribution, DistributionResult, RollChoice,
    Suggestion,
};

fn roll(count: u32, sides: u32) -> DiceShape {
    DiceShape::Roll(RollShape { count, sides, has_modifiers: false, scoring: ScoringMode::Sum })
}

#[test]
fn init_generate_template_1d6() {
    let output = generate_template("1d6", "Test Table", &Ok(roll(1, 6))).unwrap();
    assert!(output.contains("name: Test Table"));
    assert!(output.contains("type: simple"));
    assert!(output.contains("roll: 1d6"));
    assert!(output.contains("min: 1"));
    assert!(output.contains("max: 6"));
    let min_count = output.matches("  - min:").count();
    assert_eq!(min_count, 6);
}

#[test]
fn init_generate_template_2d6() {
    let output = generate_template("2d6", "Bell Table", &Ok(roll(2, 6))).unwrap();
    assert!(output.contains("roll: 2d6"));
    assert!(output.contains("min: 2"));
    assert!(output.contains("max: 12"));
    let min_count = output.matches("  - min:").count();
    assert_eq!(min_count, 11);
}

#[test]
fn flat_distribution_8_entries() {
    let result = calculate_distribution(8, Distribution::Flat);
    assert_eq!(result, DistributionResult::Exact("1d8".to_string()));
}

#[test]
fn bell_exact_match_2d6() {
    let result = calculate_distribution(11, Distribution::Bell);
    assert_eq!(result, DistributionResult::Exact("2d6".to_string()));
}

#[test]
fn bell_exact_match_3d6() {
    let result = calculate_distribution(16, Distribution::Bell);
    assert_eq!(result, DistributionResult::Exact("3d6".to_string()));
}

#[test]
fn bell_no_exact_match_shows_suggestions() {
    let result = calculate_distribution(12, Distribution::Bell);
    match result {
        DistributionResult::Suggestions(suggestions) => {
            assert!(!suggestions.is_empty());
            assert!(suggestions.iter().any(|s| s.expression == "2d6"));
            assert!(suggestions.iter().any(|s| s.expression == "2d7"));
        }
        other => panic!("Expected Suggestions, got {:?}", other),
    }
}

#[test]
fn bell_minimum_entries() {
    let result = calculate_distribution(3, Distribution::Bell);
    assert_eq!(result, DistributionResult::Exact("2d2".to_string()));
}

#[test]
fn generate_template_d66() {
    let d66 = DiceShape::Roll(RollShape { count: 2, sides: 6, has_modifiers: false, scoring: ScoringMode::DigitConcatenate });
    let output = generate_template("D66", "D66 Test", &Ok(d66)).unwrap();
    assert!(output.contains("name: D66 Test"));
    assert!(output.contains("roll: D66"));
    let entry_count = output.matches("  - min:").count();
    assert_eq!(entry_count, 36);
    assert!(output.contains("min: 11"));
    assert!(output.contains("max: 66"));
    assert!(!output.contains("min: 17"));
}

#[test]
fn generate_template_exact_text_for_1d2() {
    let output = generate_template("1d2", "Coin", &Ok(roll(1, 2))).unwrap();
    assert_eq!(
        output,
        "name: Coin\ntype: simple\ntags: []\nroll: 1d2\nresults:\n  - min: 1\n    max: 1\n    text: \"\"\n  - min: 2\n    max: 2\n    text: \"\"\n"
    );
}

#[test]
fn generate_template_with_offset() {
    let shape = DiceShape::BinOp { op: DiceOp::Add, left: Some(RollShape { count: 1, sides: 4, has_modifiers: false, scoring: ScoringMode::Sum }), right: Some(2) };
    let output = generate_template("1d4+2", "Offset", &Ok(shape)).unwrap();
    assert_eq!(output.matches("  - min:").count(), 4);
    assert!(output.contains("  - min: 3\n"));
    assert!(output.contains("    max: 6\n"));
}

#[test]
fn generate_template_reports_parse_failure() {
    let err = generate_template("1z6", "Bad", &Err("unexpected 'z'".to_string())).unwrap_err();
    assert!(matches!(err, Error::Dice(m) if m == "unexpected 'z'"));
}

#[test]
fn generate_template_rejects_unsupported_dice() {
    let shape = DiceShape::Roll(RollShape { count: 4, sides: 6, has_modifiers: true, scoring: ScoringMode::Sum });
    let err = generate_template("4d6kh3", "Keep", &Ok(shape)).unwrap_err();
    match err {
        Error::Validation(ValidationError::UnsupportedDiceExpression { expr, reason }) => {
            assert_eq!(expr, "4d6kh3");
            assert_eq!(reason, "dice modifiers");
        }
        other => panic!("expected UnsupportedDiceExpression, got {other:?}"),
    }
}

#[test]
fn bell_suggestions_are_exact_for_12_entries() {
    let result = calculate_distribution(12, Distribution::Bell);
    assert_eq!(
        result,
        DistributionResult::Suggestions(vec![
            Suggestion { expression: "2d6".into(), num_dice: 2, entries: 11, range_min: 2, range_max: 12 },
            Suggestion { expression: "2d7".into(), num_dice: 2, entries: 13, range_min: 2, range_max: 14 },
            Suggestion { expression: "3d4".into(), num_dice: 3, entries: 10, range_min: 3, range_max: 12 },
            Suggestion { expression: "3d5".into(), num_dice: 3, entries: 13, range_min: 3, range_max: 15 },
        ])
    );
}

#[test]
fn bell_single_entry_has_only_ceiling_suggestions() {
    let result = calculate_distribution(1, Distribution::Bell);
    assert_eq!(
        result,
        DistributionResult::Suggestions(vec![
            Suggestion { expression: "2d2".into(), num_dice: 2, entries: 3, range_min: 2, range_max: 4 },
            Suggestion { expression: "3d2".into(), num_dice: 3, entries: 4, range_min: 3, range_max: 6 },
        ])
    );
}

#[test]
fn init_choose_roll_expression_prefers_explicit_roll() {
    let r = choose_roll_expression(Some("2d6".to_string()), Some(7), Some("bell".to_string()));
    assert_eq!(r, RollChoice::Expression("2d6".to_string()));
}

#[test]
fn init_choose_roll_expression_from_entries() {
    let flat = choose_roll_expression(None, Some(6), Some("flat".to_string()));
    assert_eq!(flat, RollChoice::Expression("1d6".to_string()));
    let bell = choose_roll_expression(None, Some(7), Some("bell".to_string()));
    assert_eq!(bell, RollChoice::Expression("2d4".to_string()));
    match choose_roll_expression(None, Some(8), Some("bell".to_string())) {
        RollChoice::NoExactMatch(v) => {
            assert!(!v.is_empty());
            assert!(v.iter().all(|s| s.entries != 8));
        }
        other => panic!("expected suggestions, got {other:?}"),
    }
}

#[test]
fn init_choose_roll_expression_refusals() {
    assert_eq!(
        choose_roll_expression(None, Some(5), Some("wavy".to_string())),
        RollChoice::Refused("unknown distribution type: 'wavy' (expected 'flat' or 'bell')".to_string())
    );
    assert_eq!(
        choose_roll_expression(None, Some(0), Some("flat".to_string())),
        RollChoice::Refused("entries must be at least 1".to_string())
    );
    assert_eq!(
        choose_roll_expression(None, Some(2), Some("bell".to_string())),
        RollChoice::Refused("bell curves require at least 3 entries (minimum is 2d2)".to_string())
    );
    assert_eq!(
        choose_roll_expression(None, None, None),
        RollChoice::Refused("specify --roll <expression> or --entries <count> --distribution <type>".to_string())
    );
}

#[test]
fn init_bell_distribution_near_the_top_of_u32() {
    assert_eq!(
        calculate_distribution(u32::MAX, Distribution::Bell),
        DistributionResult::Exact("2d2147483648".to_string())
    );
    assert_eq!(
        calculate_distribution(u32::MAX - 2, Distribution::Bell),
        DistributionResult::Exact("2d2147483647".to_string())
    );
    match calculate_distribution(u32::MAX - 3, Distribution::Bell) {
        DistributionResult::Suggestions(v) => {
            let exprs: Vec<&str> = v.iter().map(|s| s.expression.as_str()).collect();
            assert_eq!(exprs, vec!["2d2147483646", "2d2147483647", "3d1431655764", "3d1431655765"]);
            assert_eq!(v[3].range_max, u32::MAX);
            assert_eq!(v[1].entries, u32::MAX - 2);
        }
        other => panic!("expected suggestions, got {other:?}"),
    }
    assert_eq!(
        choose_roll_expression(None, Some(u32::MAX), Some("bell".to_string())),
        RollChoice::Expression("2d2147483648".to_string())
    );
}
