use fatescroll::dice::{DiceFacts, DiceOp, DiceShape, RollShape, ScoringMode};
use fatescroll::error::ValidationError;
use fatescroll::models::{ChainRef, ModifierRange, ResultEntry, Table};
use fatescroll::registry::Registry;
use fatescroll::validator::{
    bounded_envelope, outcome_envelope, validate_envelope_coverage, validate_namespace,
    validate_references, validate_result_entry, validate_table, EnvelopeError,
    MAX_ENVELOPE_WIDTH,
};
use fatescroll::validator::{envelope_checkable, table_checkable};

fn entry(min: i32, max: i32, text: &str) -> ResultEntry {
    ResultEntry { min, max, text: Some(text.into()), chain: None, bindings: vec![] }
}

fn roll(count: u32, sides: u32) -> RollShape {
    RollShape { count, sides, has_modifiers: false, scoring: ScoringMode::Sum }
}

/// What the dice engine reports for `NdS`: a plain roll whose seeded
/// simulation spans `lo..=hi`.
fn roll_facts(count: u32, sides: u32, lo: i64, hi: i64) -> DiceFacts {
    DiceFacts { parsed: Ok(DiceShape::Roll(roll(count, sides))), simulated: Ok((lo, hi)) }
}

/// What the dice engine reports for digit dice such as `D66`.
fn digit_facts(sides: u32, count: u32, lo: i64, hi: i64) -> DiceFacts {
    DiceFacts {
        parsed: Ok(DiceShape::Roll(RollShape {
            count,
            sides,
            has_modifiers: false,
            scoring: ScoringMode::DigitConcatenate,
        })),
        simulated: Ok((lo, hi)),
    }
}

fn simple(id: &str, name: &str, roll: &str, modifier_range: Option<ModifierRange>, results: Vec<ResultEntry>) -> Table {
    Table::Simple {
        id: id.into(),
        name: name.into(),
        tags: vec![],
        notes: vec![],
        roll: roll.into(),
        modifier_range,
        results,
    }
}

fn d66_entries() -> Vec<ResultEntry> {
    fatescroll::dice::digit_dice_values(6, 2)
        .iter()
        .map(|&v| entry(v as i32, v as i32, &format!("Result {v}")))
        .collect()
}

#[test]
fn outcome_envelope_modifier_shifts_analytic_range() {
    let mr = ModifierRange { min: 0, max: 6 };
    assert_eq!(outcome_envelope("1d8", Some(mr), &roll_facts(1, 8, 1, 8)).unwrap(), (1, 14));
}

#[test]
fn outcome_envelope_rejects_reversed_modifier() {
    let mr = ModifierRange { min: 5, max: 0 };
    assert!(matches!(
        outcome_envelope("1d8", Some(mr), &roll_facts(1, 8, 1, 8)),
        Err(EnvelopeError::ModifierReversed { min: 5, max: 0 })
    ));
}

#[test]
fn outcome_envelope_simulates_without_modifier() {
    assert_eq!(outcome_envelope("2d6", None, &roll_facts(2, 6, 2, 12)).unwrap(), (2, 12));
}

#[test]
fn outcome_envelope_rejects_negative_simulated_range() {
    let facts = DiceFacts {
        parsed: Ok(DiceShape::BinOp { op: DiceOp::Sub, left: Some(roll(1, 6)), right: Some(3) }),
        simulated: Ok((-2, 3)),
    };
    assert!(matches!(outcome_envelope("1d6 - 3", None, &facts), Err(EnvelopeError::NegativeValues { .. })));
}

#[test]
fn outcome_envelope_accepts_equal_modifier_bounds() {
    let mr = ModifierRange { min: 3, max: 3 };
    assert_eq!(outcome_envelope("1d8", Some(mr), &roll_facts(1, 8, 1, 8)).unwrap(), (4, 11));
}

#[test]
fn outcome_envelope_accepts_simulated_range_touching_zero() {
    let facts = DiceFacts {
        parsed: Ok(DiceShape::BinOp { op: DiceOp::Sub, left: Some(roll(1, 1)), right: Some(1) }),
        simulated: Ok((0, 0)),
    };
    assert_eq!(outcome_envelope("1d1 - 1", None, &facts).unwrap(), (0, 0));
}

#[test]
fn validator_valid_namespace_single_segment() {
    assert!(validate_namespace("test").is_ok());
}

#[test]
fn validator_valid_namespace_multi_segment() {
    assert!(validate_namespace("dmg.treasure.gems").is_ok());
}

#[test]
fn validator_invalid_namespace_starts_with_digit() {
    let err = validate_namespace("2e-dmg").unwrap_err();
    match err {
        ValidationError::InvalidNamespace { reason, .. } => {
            assert_eq!(reason, "segment '2e-dmg' must match [a-z][a-z0-9_-]*")
        }
        other => panic!("expected InvalidNamespace, got {other:?}"),
    }
}

#[test]
fn validator_invalid_namespace_uppercase() {
    let err = validate_namespace("DMG").unwrap_err();
    match err {
        ValidationError::InvalidNamespace { reason, .. } => {
            assert_eq!(reason, "segment 'DMG' must match [a-z][a-z0-9_-]*")
        }
        other => panic!("expected InvalidNamespace, got {other:?}"),
    }
}

#[test]
fn validator_invalid_namespace_empty_segment() {
    let err = validate_namespace("dmg..treasure").unwrap_err();
    match err {
        ValidationError::InvalidNamespace { reason, .. } => {
            assert_eq!(reason, "empty segment (double dot)")
        }
        other => panic!("expected InvalidNamespace, got {other:?}"),
    }
}

#[test]
fn invalid_namespace_empty_string() {
    let err = validate_namespace("").unwrap_err();
    assert_eq!(
        err,
        ValidationError::InvalidNamespace {
            namespace: "".into(),
            reason: "namespace cannot be empty".into()
        }
    );
}

#[test]
fn namespace_segments_may_hold_digits_dashes_and_underscores() {
    assert!(validate_namespace("a1.b_2-c").is_ok());
    assert!(validate_namespace("a.").is_err());
    assert!(validate_namespace("-a").is_err());
}

#[test]
fn validator_valid_result_entry() {
    let entry = entry(1, 3, "test");
    assert!(validate_result_entry(&entry, "test-table").is_ok());
}

#[test]
fn validator_reversed_range_entry() {
    let entry = entry(5, 2, "test");
    let err = validate_result_entry(&entry, "test-table").unwrap_err();
    assert!(matches!(err, ValidationError::RangeReversed { .. }));
    assert_eq!(
        err,
        ValidationError::RangeReversed { table: "test-table".into(), min: 5, max: 2 }
    );
}

#[test]
fn valid_simple_table_full_coverage() {
    let table = simple("test", "Test", "1d6", None, vec![entry(1, 3, "Low"), entry(4, 6, "High")]);
    assert!(validate_table(&table, &roll_facts(1, 6, 1, 6)).is_ok());
}

#[test]
fn simple_table_with_gap() {
    let table = simple("gappy", "Gappy", "1d6", None, vec![entry(1, 2, "Low"), entry(5, 6, "High")]);
    let err = validate_table(&table, &roll_facts(1, 6, 1, 6)).unwrap_err();
    assert!(matches!(err, ValidationError::RangeGap { .. }));
}

#[test]
fn simple_table_with_overlap() {
    let table = simple("overlapping", "Overlapping", "1d6", None, vec![entry(1, 4, "Low"), entry(3, 6, "High")]);
    let err = validate_table(&table, &roll_facts(1, 6, 1, 6)).unwrap_err();
    assert!(matches!(err, ValidationError::RangeOverlap { .. }));
}

#[test]
fn simple_table_bad_dice_expression() {
    let table = simple("bad-dice", "BadDice", "1z6", None, vec![entry(1, 6, "X")]);
    let facts = DiceFacts {
        parsed: Err("unexpected character 'z'".into()),
        simulated: Err("unexpected character 'z'".into()),
    };
    let err = validate_table(&table, &facts).unwrap_err();
    assert!(matches!(err, ValidationError::InvalidDiceExpression { .. }));
}

#[test]
fn simple_table_rejects_zero_dice() {
    let table = simple("zero-dice", "ZeroDice", "0d6", None, vec![entry(0, 0, "X")]);
    let facts = DiceFacts {
        parsed: Ok(DiceShape::Roll(roll(0, 6))),
        simulated: Err("dice count must be at least 1".into()),
    };
    let err = validate_table(&table, &facts).unwrap_err();
    assert!(matches!(err, ValidationError::InvalidDiceExpression { .. }));
}

#[test]
fn entry_below_dice_min() {
    let table = simple("below", "Below", "1d6", None, vec![entry(0, 3, "Bad"), entry(4, 6, "OK")]);
    let err = validate_table(&table, &roll_facts(1, 6, 1, 6)).unwrap_err();
    assert!(matches!(err, ValidationError::EntryOutOfRange { .. }));
}

#[test]
fn entry_above_dice_max() {
    let table = simple("above", "Above", "1d6", None, vec![entry(1, 3, "OK"), entry(4, 8, "Bad")]);
    let err = validate_table(&table, &roll_facts(1, 6, 1, 6)).unwrap_err();
    assert!(matches!(err, ValidationError::EntryOutOfRange { .. }));
}

#[test]
fn negative_dice_range_returns_error() {
    let table = simple("negative", "Negative", "1d4-3", None, vec![entry(1, 4, "X")]);
    let facts = DiceFacts {
        parsed: Ok(DiceShape::BinOp { op: DiceOp::Sub, left: Some(roll(1, 4)), right: Some(3) }),
        simulated: Ok((-2, 1)),
    };
    let err = validate_table(&table, &facts).unwrap_err();
    assert!(matches!(err, ValidationError::InvalidDiceExpression { .. }));
    match err {
        ValidationError::InvalidDiceExpression { reason, .. } => {
            assert_eq!(reason, "dice range [-2, 1] includes negative values")
        }
        _ => unreachable!(),
    }
}

#[test]
fn valid_d66_table_full_coverage() {
    let table = simple("d66-full", "D66 Full", "(D66)", None, d66_entries());
    assert!(validate_table(&table, &digit_facts(6, 2, 11, 66)).is_ok());
}

#[test]
fn d66_table_with_gap() {
    let results: Vec<ResultEntry> = d66_entries().into_iter().filter(|e| e.min != 35).collect();
    let table = simple("d66-gap", "D66 Gap", "D66", None, results);
    let err = validate_table(&table, &digit_facts(6, 2, 11, 66)).unwrap_err();
    assert!(matches!(err, ValidationError::RangeGap { .. }), "Expected RangeGap, got: {err:?}");
    assert_eq!(err, ValidationError::RangeGap { table: "D66 Gap".into(), missing: vec![35] });
}

#[test]
fn d66_table_with_exact_duplicate_value_is_overlap() {
    let mut results = d66_entries();
    results.push(entry(11, 11, "Duplicate"));
    let table = simple("d66-overlap", "D66 Overlap", "D66", None, results);
    let err = validate_table(&table, &digit_facts(6, 2, 11, 66)).unwrap_err();
    assert!(matches!(err, ValidationError::RangeOverlap { .. }), "Expected RangeOverlap, got: {err:?}");
}

#[test]
fn d66_table_entry_outside_valid_range() {
    let mut results = d66_entries();
    results.push(entry(17, 17, "Invalid"));
    let table = simple("d66-invalid", "D66 Invalid", "D66", None, results);
    let err = validate_table(&table, &digit_facts(6, 2, 11, 66)).unwrap_err();
    assert!(matches!(err, ValidationError::EntryOutOfRange { .. }), "Expected EntryOutOfRange, got: {err:?}");
}

fn carousing_entries(skip: Option<i32>) -> Vec<ResultEntry> {
    (1..=14).filter(|v| Some(*v) != skip).map(|v| entry(v, v, &format!("E{v}"))).collect()
}

#[test]
fn modifier_table_strict_expand_valid_shadowdark() {
    let table = simple("carousing", "Carousing", "1d8", Some(ModifierRange { min: 0, max: 6 }), carousing_entries(None));
    assert!(validate_table(&table, &roll_facts(1, 8, 1, 8)).is_ok());
}

#[test]
fn modifier_table_strict_expand_valid_traveller_negative() {
    let results = (-5..=6).map(|v| entry(v, v, &format!("E{v}"))).collect();
    let table = simple("aging", "Aging", "1d6", Some(ModifierRange { min: -6, max: 0 }), results);
    assert!(validate_table(&table, &roll_facts(1, 6, 1, 6)).is_ok());
}

#[test]
fn modifier_table_gap_errors() {
    let table = simple("carousing", "Carousing", "1d8", Some(ModifierRange { min: 0, max: 6 }), carousing_entries(Some(7)));
    assert!(matches!(validate_table(&table, &roll_facts(1, 8, 1, 8)).unwrap_err(), ValidationError::RangeGap { .. }));
}

#[test]
fn modifier_table_entry_beyond_envelope_errors() {
    let mut results = carousing_entries(None);
    results.push(entry(15, 15, "Over"));
    let table = simple("carousing", "Carousing", "1d8", Some(ModifierRange { min: 0, max: 6 }), results);
    assert!(matches!(
        validate_table(&table, &roll_facts(1, 8, 1, 8)).unwrap_err(),
        ValidationError::EntryOutOfRange { .. }
    ));
}

#[test]
fn modifier_range_reversed_errors() {
    let table = simple("bad", "Bad", "1d8", Some(ModifierRange { min: 6, max: 0 }), vec![entry(1, 8, "X")]);
    assert!(matches!(
        validate_table(&table, &roll_facts(1, 8, 1, 8)).unwrap_err(),
        ValidationError::ModifierRangeReversed { .. }
    ));
}

#[test]
fn modifier_range_on_digit_dice_errors() {
    let table = simple("d66", "D66", "D66", Some(ModifierRange { min: 0, max: 1 }), vec![entry(11, 11, "X")]);
    assert!(matches!(
        validate_table(&table, &digit_facts(6, 2, 11, 66)).unwrap_err(),
        ValidationError::ModifierUnsupportedForDigitDice { .. }
    ));
}

#[test]
fn envelope_coverage_detects_gap_at_top_boundary() {
    let results = vec![entry(2, 4, "x")];
    let err = validate_envelope_coverage("t", 2, 5, &results).unwrap_err();
    match err {
        ValidationError::RangeGap { missing, .. } => assert_eq!(missing, vec![5]),
        other => panic!("expected RangeGap, got {other:?}"),
    }
}

#[test]
fn envelope_coverage_reports_correct_missing_value_with_nonzero_min() {
    let results = vec![entry(11, 13, "x")];
    let err = validate_envelope_coverage("t", 10, 13, &results).unwrap_err();
    match err {
        ValidationError::RangeGap { missing, .. } => assert_eq!(missing, vec![10]),
        other => panic!("expected RangeGap, got {other:?}"),
    }
}

#[test]
fn envelope_coverage_reports_correct_overlap_value_with_nonzero_min() {
    let results = vec![entry(10, 13, "a"), entry(10, 10, "b")];
    let err = validate_envelope_coverage("t", 10, 13, &results).unwrap_err();
    match err {
        ValidationError::RangeOverlap { overlapping, .. } => assert_eq!(overlapping, vec![10]),
        other => panic!("expected RangeOverlap, got {other:?}"),
    }
}

#[test]
fn modifier_range_on_complex_expr_errors() {
    let table = simple("kh", "KH", "4d6kh3", Some(ModifierRange { min: 0, max: 1 }), vec![entry(3, 19, "X")]);
    let facts = DiceFacts {
        parsed: Ok(DiceShape::Roll(RollShape { count: 4, sides: 6, has_modifiers: true, scoring: ScoringMode::Sum })),
        simulated: Ok((3, 18)),
    };
    let err = validate_table(&table, &facts).unwrap_err();
    assert!(
        matches!(
            &err,
            ValidationError::UnsupportedDiceExpression { reason, .. } if reason == "dice modifiers"
        ),
        "expected UnsupportedDiceExpression with reason 'dice modifiers', got: {err:?}"
    );
}

#[test]
fn absurd_modifier_range_errors_not_panics() {
    let table = simple("huge", "Huge", "1d8", Some(ModifierRange { min: 0, max: i32::MAX }), vec![entry(1, 8, "X")]);
    assert!(matches!(
        validate_table(&table, &roll_facts(1, 8, 1, 8)).unwrap_err(),
        ValidationError::ModifierRangeTooWide { .. }
    ));
}

#[test]
fn modifier_range_endpoint_overflow_errors_not_panics() {
    let table = simple(
        "edge",
        "Edge",
        "1d8",
        Some(ModifierRange { min: i32::MAX - 10, max: i32::MAX }),
        vec![entry(1, 8, "X")],
    );
    assert!(matches!(
        validate_table(&table, &roll_facts(1, 8, 1, 8)).unwrap_err(),
        ValidationError::ModifierRangeTooWide { .. }
    ));
}

#[test]
fn compound_table_validates_ok() {
    let table = Table::Compound {
        id: "compound".into(),
        name: "Compound".into(),
        tags: vec![],
        notes: vec![],
        tables: vec!["a".into(), "b".into()],
    };
    let facts = DiceFacts { parsed: Err("not rolled".into()), simulated: Err("not rolled".into()) };
    assert!(validate_table(&table, &facts).is_ok());
}

#[test]
fn non_modifier_dice_range_too_wide_is_rejected() {
    let sides = MAX_ENVELOPE_WIDTH * 4;
    let table = simple("wide", "Wide", &format!("1d{sides}"), None, vec![entry(1, sides as i32, "x")]);
    let facts = roll_facts(1, sides as u32, 3, 399_996);
    let err = validate_table(&table, &facts).unwrap_err();
    assert!(matches!(err, ValidationError::DiceRangeTooWide { .. }), "expected DiceRangeTooWide, got: {err:?}");
}

#[test]
fn bounded_envelope_accepts_normal_width() {
    assert_eq!(bounded_envelope(1, 6), Ok((1, 6)));
    assert_eq!(bounded_envelope(0, MAX_ENVELOPE_WIDTH), Ok((0, 100_000)));
}

#[test]
fn bounded_envelope_rejects_too_wide() {
    let err = bounded_envelope(0, MAX_ENVELOPE_WIDTH + 1).unwrap_err();
    assert_eq!(err, MAX_ENVELOPE_WIDTH + 1);
}

#[test]
fn bounded_envelope_rejects_endpoint_beyond_i32() {
    let big = i32::MAX as i64 + 1;
    assert!(bounded_envelope(big - 5, big).is_err());
}

#[test]
fn bounded_envelope_width_is_max_minus_min() {
    let min = 10i64;
    let max = min + MAX_ENVELOPE_WIDTH;
    assert_eq!(bounded_envelope(min, max), Ok((10, 100_010)));
}

#[test]
fn bounded_envelope_accepts_min_at_i32_min_boundary() {
    let min = i32::MIN as i64;
    assert_eq!(bounded_envelope(min, min + 5), Ok((i32::MIN, i32::MIN + 5)));
}

#[test]
fn bounded_envelope_accepts_max_at_i32_max_boundary() {
    let max = i32::MAX as i64;
    assert_eq!(bounded_envelope(max - 5, max), Ok((i32::MAX - 5, i32::MAX)));
}

fn chained(id: &str, name: &str, chain: Option<Vec<ChainRef>>, roll: &str) -> Table {
    Table::Simple {
        id: id.into(),
        name: name.into(),
        tags: vec![],
        notes: vec![],
        roll: roll.into(),
        modifier_range: None,
        results: vec![
            ResultEntry { min: 1, max: 2, text: Some("X".into()), chain, bindings: vec![] },
            entry(3, 4, "Y"),
        ],
    }
}

/// A collection of twelve tables in three namespaces whose chain and
/// compound references all resolve: relative, fully qualified and by a
/// bare id that only one table carries.
fn valid_collection() -> Registry {
    let mut reg = Registry::new();
    let plain = |id: &str, name: &str| chained(id, name, None, "1d4");
    reg.register("test.terrain.wilderness".into(), plain("wilderness", "Wilderness Terrain")).unwrap();
    reg.register("test.terrain.weather".into(), plain("weather", "Weather")).unwrap();
    reg.register("test.terrain.landmark".into(), plain("landmark", "Landmark")).unwrap();
    reg.register("test.npc.npc-occupation".into(), plain("npc-occupation", "NPC Occupation")).unwrap();
    reg.register("test.npc.npc-disposition".into(), plain("npc-disposition", "NPC Disposition")).unwrap();
    reg.register("test.npc.npc-quirk".into(), plain("npc-quirk", "NPC Quirk")).unwrap();
    reg.register("test.npc.npc-name".into(), plain("npc-name", "NPC Name")).unwrap();
    reg.register(
        "test.npc.quick-npc".into(),
        Table::Compound {
            id: "quick-npc".into(),
            name: "Quick NPC".into(),
            tags: vec![],
            notes: vec![],
            tables: vec!["npc-occupation".into(), "npc-disposition".into(), "test.npc.npc-quirk".into()],
        },
    )
    .unwrap();
    reg.register("test.encounters.animal-type".into(), plain("animal-type", "Animal Type")).unwrap();
    reg.register(
        "test.encounters.wilderness-encounter".into(),
        chained(
            "wilderness-encounter",
            "Wilderness Encounter",
            Some(vec![
                ChainRef::Simple("animal-type".into()),
                ChainRef::Modified { table: "weather".into(), reroll: vec![1] },
            ]),
            "1d4",
        ),
    )
    .unwrap();
    reg.register("test.encounters.pack-size".into(), plain("pack-size", "Pack Size")).unwrap();
    reg.register(
        "test.encounters.camp".into(),
        chained("camp", "Camp", Some(vec![ChainRef::Simple("test.npc.quick-npc".into())]), "1d4"),
    )
    .unwrap();
    reg
}

#[test]
fn validate_refs_valid_collection() {
    let registry = valid_collection();
    assert_eq!(registry.all_tables().len(), 12);
    assert!(validate_references(&registry).is_ok());
}

#[test]
fn validate_refs_catches_broken_chain() {
    let mut registry = Registry::new();
    registry
        .register(
            "test.broken".into(),
            chained("broken", "Broken", Some(vec![ChainRef::Simple("nonexistent".into())]), "1d4"),
        )
        .unwrap();
    let errors = validate_references(&registry).unwrap_err();
    assert!(!errors.is_empty());
    assert!(matches!(&errors[0], ValidationError::UnresolvedChain { .. }));
    assert_eq!(
        errors,
        vec![ValidationError::UnresolvedChain { table: "Broken".into(), reference: "nonexistent".into() }]
    );
}

#[test]
fn validate_refs_catches_broken_compound() {
    let mut registry = Registry::new();
    registry
        .register(
            "test.comp".into(),
            Table::Compound {
                id: "bad-compound".into(),
                name: "Bad Compound".into(),
                tags: vec![],
                notes: vec![],
                tables: vec!["nonexistent-a".into(), "nonexistent-b".into()],
            },
        )
        .unwrap();
    let errors = validate_references(&registry).unwrap_err();
    assert_eq!(errors.len(), 2);
    assert_eq!(
        errors[1],
        ValidationError::UnresolvedCompoundRef { table: "Bad Compound".into(), reference: "nonexistent-b".into() }
    );
}

#[test]
fn validator_checkable_tables_and_envelopes() {
    let t = simple("t", "T", "1d6", None, vec![entry(1, 6, "x")]);
    assert!(table_checkable(&t, &roll_facts(1, 6, 1, 6)));
    // A simulation whose bounds are reversed has no ordered envelope.
    assert!(!table_checkable(&t, &roll_facts(1, 6, 6, 1)));
    assert!(!envelope_checkable(None, &roll_facts(1, 6, 6, 1)));
    // Counts whose product leaves u32 cannot be analysed.
    assert!(!table_checkable(&t, &roll_facts(u32::MAX, 2, 1, 6)));
    // Digit dice of more than ten digits do not fit.
    assert!(!table_checkable(&t, &digit_facts(6, 11, 1, 6)));
    assert!(table_checkable(&t, &digit_facts(6, 2, 11, 66)));
    // A reversed modifier range gives a reversed shifted envelope.
    let mr = ModifierRange { min: 10, max: -10 };
    assert!(!envelope_checkable(Some(mr), &roll_facts(1, 6, 1, 6)));
    assert!(envelope_checkable(Some(ModifierRange { min: 0, max: 2 }), &roll_facts(1, 6, 1, 6)));
    let compound = Table::Compound { id: "c".into(), name: "C".into(), tags: vec![], notes: vec![], tables: vec![] };
    assert!(table_checkable(&compound, &roll_facts(u32::MAX, 2, 1, 6)));
}

#[test]
fn validator_huge_dice_without_modifier_are_checkable() {
    let huge = DiceFacts {
        parsed: Ok(DiceShape::Roll(roll(u32::MAX, u32::MAX))),
        simulated: Err("too many dice".to_string()),
    };
    let t = simple("t", "T", "4294967295d4294967295", None, vec![entry(1, 6, "x")]);
    assert!(table_checkable(&t, &huge));
    assert!(validate_table(&t, &huge).is_err());
    let with_modifier = simple("t", "T", "4294967295d4294967295", Some(ModifierRange { min: 0, max: 1 }), vec![entry(1, 6, "x")]);
    assert!(!table_checkable(&with_modifier, &huge));
}

#[test]
fn validator_modifier_reversed_past_the_dice_span_is_reported() {
    let t = simple("t", "T", "1d8", Some(ModifierRange { min: 10, max: 0 }), vec![entry(1, 8, "x")]);
    let facts = roll_facts(1, 8, 1, 8);
    assert!(table_checkable(&t, &facts));
    assert_eq!(
        validate_table(&t, &facts),
        Err(ValidationError::ModifierRangeReversed { table: "T".into(), min: 10, max: 0 })
    );
}
