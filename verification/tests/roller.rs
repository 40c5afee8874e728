use fatescroll::models::{ChainRef, ModifierRange, ResultEntry, RollResult, Table};
use fatescroll::registry::Registry;
use fatescroll::error::RollError;
use fatescroll::roller::{
    checked_total_to_i32, roll, roll_with_modifier, roll_with_value, DiceOutcome, RollStep,
};

/// A small seeded dice roller for `NdS`, `NdS+K` and `NdS-K`; anything
/// else is refused, as a dice engine would refuse it.
struct TestDice {
    state: u64,
}

impl TestDice {
    fn with_seed(seed: u64) -> TestDice {
        TestDice { state: seed.wrapping_mul(6364136223846793005).wrapping_add(1442695040888963407) | 1 }
    }

    fn next(&mut self) -> u64 {
        self.state ^= self.state << 13;
        self.state ^= self.state >> 7;
        self.state ^= self.state << 17;
        self.state
    }

    fn roll(&mut self, expr: &str) -> DiceOutcome {
        let expr: String = expr.chars().filter(|c| !c.is_whitespace()).collect();
        let (dice, offset) = if let Some(i) = expr.rfind(['+', '-']) {
            let k: i64 = match expr[i + 1..].parse() {
                Ok(k) => k,
                Err(_) => return DiceOutcome::Failed(format!("bad offset in '{expr}'")),
            };
            (expr[..i].to_string(), if &expr[i..i + 1] == "-" { -k } else { k })
        } else {
            (expr.clone(), 0)
        };
        let Some(d) = dice.find('d') else {
            return DiceOutcome::Failed(format!("no dice in '{expr}'"));
        };
        let count: u64 = if d == 0 { 1 } else {
            match dice[..d].parse() {
                Ok(c) => c,
                Err(_) => return DiceOutcome::Failed(format!("bad count in '{expr}'")),
            }
        };
        let sides: u64 = match dice[d + 1..].parse() {
            Ok(s) if s > 0 => s,
            _ => return DiceOutcome::Failed(format!("bad sides in '{expr}'")),
        };
        let mut total: i64 = offset;
        for _ in 0..count {
            total += (self.next() % sides) as i64 + 1;
        }
        DiceOutcome::Value(total)
    }
}

/// Drive a roll to its end, rolling each dice expression it asks for.
fn drive(step: impl Fn(&Vec<DiceOutcome>) -> RollStep, dice: &mut TestDice) -> Result<RollResult, RollError> {
    let mut outcomes: Vec<DiceOutcome> = Vec::new();
    loop {
        match step(&outcomes) {
            RollStep::Done(r) => return r,
            RollStep::Roll(expr) => outcomes.push(dice.roll(&expr)),
        }
    }
}

fn roll_with_seed(reg: &Registry, id: &str, seed: u64) -> Result<RollResult, RollError> {
    drive(|o| roll(reg, id, o), &mut TestDice::with_seed(seed))
}

fn roll_modified(reg: &Registry, id: &str, modifier: Option<i32>, seed: u64) -> Result<RollResult, RollError> {
    drive(|o| roll_with_modifier(reg, id, modifier, o), &mut TestDice::with_seed(seed))
}

fn roll_valued(reg: &Registry, id: &str, value: i32, seed: u64) -> Result<RollResult, RollError> {
    drive(|o| roll_with_value(reg, id, value, o), &mut TestDice::with_seed(seed))
}

fn entry(min: i32, max: i32, text: &str, chain: Option<Vec<ChainRef>>) -> ResultEntry {
    ResultEntry { min, max, text: Some(text.into()), chain, bindings: vec![] }
}

fn simple(id: &str, name: &str, roll: &str, results: Vec<ResultEntry>) -> Table {
    Table::Simple {
        id: id.into(),
        name: name.into(),
        tags: vec![],
        notes: vec![],
        roll: roll.into(),
        modifier_range: None,
        results,
    }
}

fn build_test_registry() -> Registry {
    let mut reg = Registry::new();
    reg.register(
        "test.simple".into(),
        simple("simple", "Simple Test", "1d6", vec![entry(1, 3, "Low", None), entry(4, 6, "High", None)]),
    )
    .unwrap();
    reg.register(
        "test.chained".into(),
        simple(
            "chained",
            "Chained",
            "1d4",
            vec![
                entry(1, 2, "Follow up", Some(vec![ChainRef::Simple("simple".into())])),
                entry(3, 4, "No chain", None),
            ],
        ),
    )
    .unwrap();
    reg.register(
        "test.compound".into(),
        Table::Compound {
            id: "compound".into(),
            name: "Compound Test".into(),
            tags: vec![],
            notes: vec![],
            tables: vec!["simple".into()],
        },
    )
    .unwrap();
    reg.register(
        "test.interpolated".into(),
        simple("interpolated", "Interpolated", "1d4", vec![entry(1, 4, "Found {2d6} gold coins", None)]),
    )
    .unwrap();
    reg
}

#[test]
fn roll_simple_table() {
    let reg = build_test_registry();
    let result = roll_with_seed(&reg, "test.simple", 42).unwrap();
    assert_eq!(result.table_name, "Simple Test");
    assert!(result.roll.is_some());
    assert!(result.text.is_some());
    assert!(result.children.is_empty());
}

#[test]
fn roll_not_found() {
    let reg = build_test_registry();
    let err = roll_with_seed(&reg, "nonexistent", 42).unwrap_err();
    assert!(matches!(err, RollError::TableNotFound { .. }));
}

#[test]
fn roll_compound_table() {
    let reg = build_test_registry();
    let result = roll_with_seed(&reg, "test.compound", 42).unwrap();
    assert_eq!(result.table_name, "Compound Test");
    assert!(result.roll.is_none());
    assert_eq!(result.children.len(), 1);
    assert_eq!(result.children[0].table_name, "Simple Test");
}

#[test]
fn roll_with_chain_triggered() {
    let mut reg = Registry::new();
    reg.register(
        "ns.parent".into(),
        simple("parent", "Parent", "1d4", vec![entry(1, 4, "Always chains", Some(vec![ChainRef::Simple("child".into())]))]),
    )
    .unwrap();
    reg.register("ns.child".into(), simple("child", "Child", "1d6", vec![entry(1, 6, "Child result", None)]))
        .unwrap();
    let result = roll_with_seed(&reg, "ns.parent", 42).unwrap();
    assert_eq!(result.children.len(), 1);
    assert_eq!(result.children[0].table_name, "Child");
    assert!(result.children[0].text.is_some());
}

#[test]
fn roll_interpolates_dice_in_text() {
    let reg = build_test_registry();
    let result = roll_with_seed(&reg, "test.interpolated", 42).unwrap();
    let text = result.text.as_ref().unwrap();
    assert!(!text.contains('{'));
    assert!(text.starts_with("Found "));
    assert!(text.ends_with(" gold coins"));
}

#[test]
fn chain_depth_limit() {
    let mut reg = Registry::new();
    reg.register("loop.a".into(), simple("a", "A", "1d4", vec![entry(1, 4, "Loop", Some(vec![ChainRef::Simple("b".into())]))]))
        .unwrap();
    reg.register("loop.b".into(), simple("b", "B", "1d4", vec![entry(1, 4, "Loop", Some(vec![ChainRef::Simple("a".into())]))]))
        .unwrap();
    let err = roll_with_seed(&reg, "loop.a", 42).unwrap_err();
    assert!(matches!(err, RollError::ChainDepthExceeded { .. }));
    assert_eq!(err, RollError::ChainDepthExceeded { table: "b".into(), limit: 10 });
}

#[test]
fn roll_negative_result_errors() {
    let mut reg = Registry::new();
    reg.register("test.negative".into(), simple("negative", "Negative", "1d4-10", vec![entry(1, 4, "Unreachable", None)]))
        .unwrap();
    let err = roll_with_seed(&reg, "test.negative", 42).unwrap_err();
    assert!(matches!(err, RollError::NegativeRoll { value } if value < 0));
}

#[test]
fn roll_out_of_range_errors() {
    let mut reg = Registry::new();
    reg.register("test.gap".into(), simple("gap", "Gap", "1d6", vec![entry(100, 100, "Unreachable", None)]))
        .unwrap();
    let err = roll_with_seed(&reg, "test.gap", 42).unwrap_err();
    assert!(matches!(err, RollError::RollOutOfRange { .. }));
}

#[test]
fn roll_invalid_dice_expression_errors() {
    let mut reg = Registry::new();
    reg.register("test.baddice".into(), simple("baddice", "BadDice", "not_a_dice_expr", vec![entry(1, 6, "Unreachable", None)]))
        .unwrap();
    let err = roll_with_seed(&reg, "test.baddice", 42).unwrap_err();
    assert!(matches!(err, RollError::DiceEvaluation { .. }));
}

#[test]
fn interpolate_dice_preserves_non_dice_braces() {
    let mut reg = Registry::new();
    reg.register(
        "test.fallback".into(),
        simple("fallback", "Fallback", "1d4", vec![entry(1, 4, "Hello {world} and {2d6} gold", None)]),
    )
    .unwrap();
    let result = roll_with_seed(&reg, "test.fallback", 42).unwrap();
    let text = result.text.unwrap();
    assert!(text.contains("{world}"));
    assert!(!text.contains("{2d6}"));
    assert!(text.starts_with("Hello {world} and "));
    assert!(text.ends_with(" gold"));
}

#[test]
fn roll_entry_with_no_text() {
    let mut reg = Registry::new();
    reg.register(
        "test.notext".into(),
        simple("notext", "NoText", "1d4", vec![ResultEntry { min: 1, max: 4, text: None, chain: None, bindings: vec![] }]),
    )
    .unwrap();
    let result = roll_with_seed(&reg, "test.notext", 42).unwrap();
    assert!(result.text.is_none());
}

#[test]
fn roll_with_reroll_avoids_excluded_values() {
    let mut reg = Registry::new();
    reg.register(
        "ns.reroll-parent".into(),
        simple(
            "reroll-parent",
            "Reroll Parent",
            "1d4",
            vec![
                entry(1, 1, "Chains with reroll", Some(vec![ChainRef::Modified { table: "reroll-target".into(), reroll: vec![1] }])),
                entry(2, 4, "Normal", None),
            ],
        ),
    )
    .unwrap();
    reg.register(
        "ns.reroll-target".into(),
        simple("reroll-target", "Reroll Target", "1d4", vec![entry(1, 1, "Should be skipped", None), entry(2, 4, "Valid result", None)]),
    )
    .unwrap();
    for seed in 0..100 {
        let result = roll_with_seed(&reg, "ns.reroll-parent", seed).unwrap();
        if !result.children.is_empty() {
            assert_ne!(result.children[0].roll.unwrap(), 1, "seed {seed}: reroll should have prevented value 1");
        }
    }
}

#[test]
fn roll_entry_with_multiple_chains() {
    let mut reg = Registry::new();
    reg.register(
        "ns.multi".into(),
        simple(
            "multi",
            "MultiChain",
            "1d4",
            vec![entry(1, 4, "Branches", Some(vec![ChainRef::Simple("child_a".into()), ChainRef::Simple("child_b".into())]))],
        ),
    )
    .unwrap();
    reg.register("ns.child_a".into(), simple("child_a", "Child A", "1d6", vec![entry(1, 6, "Result A", None)])).unwrap();
    reg.register("ns.child_b".into(), simple("child_b", "Child B", "1d6", vec![entry(1, 6, "Result B", None)])).unwrap();
    let result = roll_with_seed(&reg, "ns.multi", 42).unwrap();
    assert_eq!(result.children.len(), 2);
    assert_eq!(result.children[0].table_name, "Child A");
    assert_eq!(result.children[1].table_name, "Child B");
}

#[test]
fn reroll_exhaustion_returns_error() {
    let mut reg = Registry::new();
    reg.register(
        "ns.exhaust-parent".into(),
        simple(
            "exhaust-parent",
            "Exhaust Parent",
            "1d4",
            vec![entry(1, 4, "Always chains", Some(vec![ChainRef::Modified { table: "exhaust-target".into(), reroll: vec![1, 2, 3, 4] }]))],
        ),
    )
    .unwrap();
    reg.register("ns.exhaust-target".into(), simple("exhaust-target", "Exhaust Target", "1d4", vec![entry(1, 4, "Unreachable", None)]))
        .unwrap();
    let err = roll_with_seed(&reg, "ns.exhaust-parent", 42).unwrap_err();
    assert!(matches!(err, RollError::RerollExhausted { .. }));
    assert_eq!(
        err,
        RollError::RerollExhausted { table: "Exhaust Target".into(), attempts: 100, reroll_values: vec![1, 2, 3, 4] }
    );
}

fn carousing_registry() -> Registry {
    let mut reg = Registry::new();
    let results = (1..=14).map(|v| entry(v, v, &format!("E{v}"), None)).collect();
    reg.register(
        "ns.carousing".into(),
        Table::Simple {
            id: "carousing".into(),
            name: "Carousing".into(),
            tags: vec![],
            notes: vec![],
            roll: "1d8".into(),
            modifier_range: Some(ModifierRange { min: 0, max: 6 }),
            results,
        },
    )
    .unwrap();
    reg
}

#[test]
fn modifier_shifts_lookup_value() {
    let reg = carousing_registry();
    let raw = roll_modified(&reg, "ns.carousing", None, 7).unwrap().roll.unwrap();
    let modded = roll_modified(&reg, "ns.carousing", Some(3), 7).unwrap().roll.unwrap();
    assert_eq!(modded, raw + 3);
}

#[test]
fn modifier_clamps_overflow_high() {
    let reg = carousing_registry();
    for seed in 0..50 {
        let r = roll_modified(&reg, "ns.carousing", Some(100), seed).unwrap();
        assert_eq!(r.roll.unwrap(), 14);
    }
}

#[test]
fn modifier_clamps_overflow_low() {
    let reg = carousing_registry();
    for seed in 0..50 {
        let r = roll_modified(&reg, "ns.carousing", Some(-100), seed).unwrap();
        assert_eq!(r.roll.unwrap(), 1);
    }
}

#[test]
fn modifier_on_table_without_modifier_range_errors() {
    let reg = build_test_registry();
    let err = roll_modified(&reg, "test.simple", Some(2), 1).unwrap_err();
    assert!(matches!(err, RollError::ModifierNotSupported { .. }));
}

#[test]
fn modifier_on_compound_errors() {
    let reg = build_test_registry();
    let err = roll_modified(&reg, "test.compound", Some(1), 1).unwrap_err();
    assert!(matches!(err, RollError::ModifierNotSupported { .. }));
}

#[test]
fn modifier_does_not_leak_to_children() {
    let mut reg = Registry::new();
    let parent_results = (1..=14).map(|v| entry(v, v, "P", Some(vec![ChainRef::Simple("child".into())]))).collect();
    reg.register(
        "ns.parent".into(),
        Table::Simple {
            id: "parent".into(),
            name: "Parent".into(),
            tags: vec![],
            notes: vec![],
            roll: "1d8".into(),
            modifier_range: Some(ModifierRange { min: 0, max: 6 }),
            results: parent_results,
        },
    )
    .unwrap();
    reg.register("ns.child".into(), simple("child", "Child", "1d6", vec![entry(1, 6, "C", None)])).unwrap();
    for seed in 0..100 {
        let r = roll_modified(&reg, "ns.parent", Some(6), seed).unwrap();
        assert_eq!(r.children.len(), 1, "seed {seed}: child should always be rolled");
        let child = &r.children[0];
        assert!(child.roll.unwrap() >= 1 && child.roll.unwrap() <= 6);
    }
}

#[test]
fn validated_modifier_table_never_out_of_range() {
    let reg = carousing_registry();
    for seed in 0..500 {
        for m in [-100, -6, 0, 6, 100] {
            assert!(roll_modified(&reg, "ns.carousing", Some(m), seed).is_ok());
        }
    }
}

#[test]
fn extreme_modifier_clamps_without_overflow() {
    let reg = carousing_registry();
    assert_eq!(roll_modified(&reg, "ns.carousing", Some(i32::MAX), 3).unwrap().roll.unwrap(), 14);
    assert_eq!(roll_modified(&reg, "ns.carousing", Some(i32::MIN), 3).unwrap().roll.unwrap(), 1);
}

#[test]
fn checked_total_to_i32_in_range() {
    assert_eq!(checked_total_to_i32(0), Some(0));
    assert_eq!(checked_total_to_i32(i32::MAX as i64), Some(i32::MAX));
    assert_eq!(checked_total_to_i32(i32::MIN as i64), Some(i32::MIN));
}

#[test]
fn checked_total_to_i32_out_of_range() {
    assert_eq!(checked_total_to_i32(i32::MAX as i64 + 1), None);
    assert_eq!(checked_total_to_i32(i64::MAX), None);
    assert_eq!(checked_total_to_i32(i32::MIN as i64 - 1), None);
    assert_eq!(checked_total_to_i32(i64::MIN), None);
}

#[test]
fn value_direct_lookup_skips_dice() {
    let reg = build_test_registry();
    for seed in 0..50 {
        let result = roll_valued(&reg, "test.simple", 5, seed).unwrap();
        assert_eq!(result.roll, Some(5));
        assert_eq!(result.text.as_deref(), Some("High"));
    }
    assert!(matches!(roll_with_value(&reg, "test.simple", 5, &vec![]), RollStep::Done(Ok(_))));
}

#[test]
fn value_out_of_range_errors() {
    let reg = build_test_registry();
    let err = roll_valued(&reg, "test.simple", 7, 1).unwrap_err();
    assert!(matches!(err, RollError::RollOutOfRange { value, .. } if value == 7));
}

#[test]
fn value_does_not_clamp() {
    let reg = carousing_registry();
    let err = roll_valued(&reg, "ns.carousing", 100, 1).unwrap_err();
    assert!(matches!(err, RollError::RollOutOfRange { value, .. } if value == 100));
}

#[test]
fn value_negative_lookup() {
    let mut reg = Registry::new();
    let results = (-7..=7).map(|v| entry(v, v, &format!("Outcome {v}"), None)).collect();
    reg.register("ns.boarding".into(), simple("boarding", "Boarding Action", "1d8", results)).unwrap();
    let result = roll_valued(&reg, "ns.boarding", -7, 1).unwrap();
    assert_eq!(result.roll, Some(-7));
    assert_eq!(result.text.as_deref(), Some("Outcome -7"));
}

#[test]
fn value_resolves_chains() {
    let reg = build_test_registry();
    let result = roll_valued(&reg, "test.chained", 1, 1).unwrap();
    assert_eq!(result.roll, Some(1));
    assert_eq!(result.children.len(), 1);
    assert_eq!(result.children[0].table_name, "Simple Test");
}

#[test]
fn value_interpolates_text() {
    let reg = build_test_registry();
    let result = roll_valued(&reg, "test.interpolated", 2, 1).unwrap();
    let text = result.text.as_ref().unwrap();
    assert!(!text.contains('{'));
    assert!(text.starts_with("Found "));
    assert!(text.ends_with(" gold coins"));
}

#[test]
fn value_on_compound_errors() {
    let reg = build_test_registry();
    let err = roll_valued(&reg, "test.compound", 1, 1).unwrap_err();
    assert!(matches!(err, RollError::DirectValueNotSupported { .. }));
}

#[test]
fn value_does_not_leak_to_children() {
    let mut reg = Registry::new();
    let parent_results = (1..=14).map(|v| entry(v, v, "P", Some(vec![ChainRef::Simple("child".into())]))).collect();
    reg.register("ns.parent".into(), simple("parent", "Parent", "1d14", parent_results)).unwrap();
    reg.register("ns.child".into(), simple("child", "Child", "1d6", vec![entry(1, 6, "C", None)])).unwrap();
    for seed in 0..100 {
        let r = roll_valued(&reg, "ns.parent", 10, seed).unwrap();
        assert_eq!(r.roll, Some(10));
        assert_eq!(r.children.len(), 1);
        let child_roll = r.children[0].roll.unwrap();
        assert!((1..=6).contains(&child_roll), "seed {seed}: child rolled {child_roll}, value must not leak");
    }
}

#[test]
fn roller_ignores_notes() {
    let mut reg = Registry::new();
    reg.register(
        "ns.noted".into(),
        Table::Simple {
            id: "noted".into(),
            name: "Noted".into(),
            tags: vec![],
            notes: vec!["This note must not affect rolling".into()],
            roll: "1d6".into(),
            modifier_range: None,
            results: vec![entry(1, 6, "Only outcome", None)],
        },
    )
    .unwrap();
    let result = roll_with_seed(&reg, "ns.noted", 42).unwrap();
    assert_eq!(result.table_name, "Noted");
    assert_eq!(result.text.as_deref(), Some("Only outcome"));
}

#[test]
fn self_referential_chain_with_reroll() {
    let mut reg = Registry::new();
    reg.register(
        "ns.mishap".into(),
        simple(
            "mishap",
            "Wizard Mishap",
            "1d4",
            vec![
                entry(
                    1,
                    1,
                    "Roll twice and combine",
                    Some(vec![
                        ChainRef::Modified { table: "mishap".into(), reroll: vec![1] },
                        ChainRef::Modified { table: "mishap".into(), reroll: vec![1] },
                    ]),
                ),
                entry(2, 2, "Hands glow blue", None),
                entry(3, 3, "Lose sense of smell", None),
                entry(4, 4, "Hair turns white", None),
            ],
        ),
    )
    .unwrap();
    for seed in 0..200 {
        let result = roll_with_seed(&reg, "ns.mishap", seed).unwrap();
        if result.roll == Some(1) {
            assert_eq!(result.children.len(), 2);
            for child in &result.children {
                assert_ne!(child.roll.unwrap(), 1, "seed {seed}: self-referential reroll should prevent value 1");
            }
        }
    }
}

#[test]
fn replay_asks_for_each_dice_expression_in_order() {
    let reg = build_test_registry();
    let none: Vec<DiceOutcome> = vec![];
    assert!(matches!(roll(&reg, "test.chained", &none), RollStep::Roll(e) if e == "1d4"));
    let one = vec![DiceOutcome::Value(2)];
    assert!(matches!(roll(&reg, "test.chained", &one), RollStep::Roll(e) if e == "1d6"));
    let two = vec![DiceOutcome::Value(2), DiceOutcome::Value(5)];
    match roll(&reg, "test.chained", &two) {
        RollStep::Done(Ok(r)) => {
            assert_eq!(r.roll, Some(2));
            assert_eq!(r.text.as_deref(), Some("Follow up"));
            assert_eq!(r.children[0].roll, Some(5));
            assert_eq!(r.children[0].text.as_deref(), Some("High"));
        }
        _ => panic!("expected a finished roll"),
    }
}

#[test]
fn interpolation_uses_outcomes_and_keeps_non_numbers() {
    let mut reg = Registry::new();
    reg.register(
        "t.x".into(),
        simple("x", "X", "1d4", vec![entry(1, 4, "{2d6} and {{odd}} and {} and {1d3}", None)]),
    )
    .unwrap();
    let outs = vec![DiceOutcome::Value(3), DiceOutcome::Value(11), DiceOutcome::Failed("no".into()), DiceOutcome::Value(-2)];
    match roll(&reg, "t.x", &outs) {
        RollStep::Done(Ok(r)) => assert_eq!(r.text.as_deref(), Some("11 and {{odd}} and {} and -2")),
        _ => panic!("expected a finished roll"),
    }
    let short = vec![DiceOutcome::Value(3), DiceOutcome::Value(11)];
    assert!(matches!(roll(&reg, "t.x", &short), RollStep::Roll(e) if e == "{odd"));
}

#[test]
fn non_numeric_outcome_is_a_dice_evaluation_error() {
    let reg = build_test_registry();
    match roll(&reg, "test.simple", &vec![DiceOutcome::NonNumeric]) {
        RollStep::Done(Err(RollError::DiceEvaluation { table, expr, reason })) => {
            assert_eq!(table, "Simple Test");
            assert_eq!(expr, "1d6");
            assert_eq!(reason, "dice notation produced a non-numeric outcome");
        }
        _ => panic!("expected a dice evaluation error"),
    }
}

#[test]
fn roll_total_beyond_i32_is_out_of_range() {
    let reg = build_test_registry();
    let big = i32::MAX as i64 + 1;
    match roll(&reg, "test.simple", &vec![DiceOutcome::Value(big)]) {
        RollStep::Done(Err(e)) => assert_eq!(e, RollError::RollOutOfRange { table: "Simple Test".into(), value: big }),
        _ => panic!("expected RollOutOfRange"),
    }
}

#[test]
fn chain_reference_is_first_tried_as_a_fully_qualified_id() {
    let mut reg = Registry::new();
    reg.register("a.b.parent".into(), simple("parent", "Parent", "1d4", vec![entry(1, 4, "P", Some(vec![ChainRef::Simple("child".into())]))]))
        .unwrap();
    reg.register("a.b.child".into(), simple("child", "Local", "1d4", vec![entry(1, 4, "L", None)])).unwrap();
    reg.register("child".into(), simple("child", "Global", "1d4", vec![entry(1, 4, "G", None)])).unwrap();
    let r = roll_with_seed(&reg, "a.b.parent", 5).unwrap();
    assert_eq!(r.children[0].table_name, "Global");
}

#[test]
fn relative_chain_resolves_in_parent_namespace() {
    let mut reg = Registry::new();
    reg.register("a.b.parent".into(), simple("parent", "Parent", "1d4", vec![entry(1, 4, "P", Some(vec![ChainRef::Simple("child".into())]))]))
        .unwrap();
    reg.register("a.b.child".into(), simple("child", "Local", "1d4", vec![entry(1, 4, "L", None)])).unwrap();
    reg.register("z.child".into(), simple("child", "Other", "1d4", vec![entry(1, 4, "O", None)])).unwrap();
    let r = roll_with_seed(&reg, "a.b.parent", 5).unwrap();
    assert_eq!(r.children[0].table_name, "Local");
}

#[test]
fn reversed_modifier_span_fails_only_where_it_is_rolled() {
    let mut reg = Registry::new();
    reg.register(
        "ns.bad".into(),
        Table::Simple {
            id: "bad".into(),
            name: "Bad".into(),
            tags: vec![],
            notes: vec![],
            roll: "1d4".into(),
            modifier_range: Some(ModifierRange { min: 0, max: 1 }),
            results: vec![entry(5, 3, "reversed", None)],
        },
    )
    .unwrap();
    reg.register(
        "ns.good".into(),
        Table::Simple {
            id: "good".into(),
            name: "Good".into(),
            tags: vec![],
            notes: vec![],
            roll: "1d4".into(),
            modifier_range: None,
            results: vec![entry(1, 4, "fine", None)],
        },
    )
    .unwrap();
    match roll(&reg, "ns.good", &vec![DiceOutcome::Value(2)]) {
        RollStep::Done(Ok(r)) => assert_eq!(r.text.as_deref(), Some("fine")),
        _ => panic!("the good table rolls"),
    }
    match roll(&reg, "ns.bad", &vec![DiceOutcome::Value(2)]) {
        RollStep::Done(Err(RollError::RollOutOfRange { table, .. })) => assert_eq!(table, "Bad"),
        _ => panic!("the reversed table fails"),
    }
}
