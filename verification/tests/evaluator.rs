use fatescroll::evaluator::{evaluate, Evaluation, Value, ValueScope};
use fatescroll::expression::{parse, ExpressionError};
use fatescroll::roller::DiceOutcome;

/// A small seeded roller for `NdS` literals, standing in for a dice
/// engine's random number generator.
struct TestRng {
    state: u64,
    draws: usize,
}

impl TestRng {
    fn with_seed(seed: u64) -> TestRng {
        TestRng { state: seed.wrapping_mul(6364136223846793005).wrapping_add(1442695040888963407) | 1, draws: 0 }
    }

    fn next(&mut self) -> u64 {
        self.draws += 1;
        self.state = self.state.wrapping_mul(6364136223846793005).wrapping_add(1442695040888963407);
        self.state >> 33
    }

    fn roll(&mut self, literal: &str) -> DiceOutcome {
        let (count, sides) = match literal.split_once('d') {
            Some((c, s)) => (if c.is_empty() { 1 } else { c.parse::<i64>().unwrap() }, s.parse::<i64>().unwrap()),
            None => return DiceOutcome::Failed(format!("cannot roll `{literal}`")),
        };
        let mut total = 0;
        for _ in 0..count {
            total += (self.next() % sides as u64) as i64 + 1;
        }
        DiceOutcome::Value(total)
    }
}

/// Evaluate, rolling each dice literal with `rng` when evaluation asks for it.
fn run(source: &str, scope: &ValueScope, rng: &mut TestRng) -> Result<Value, ExpressionError> {
    let expr = parse(source).unwrap();
    let mut rolls: Vec<DiceOutcome> = Vec::new();
    loop {
        match evaluate(&expr, scope, &rolls) {
            Evaluation::Done(result) => return result,
            Evaluation::Roll(literal) => rolls.push(rng.roll(&literal)),
        }
    }
}

fn scope_of(entries: Vec<(&str, Value)>) -> ValueScope {
    let mut scope = ValueScope::new();
    for (name, value) in entries {
        scope.insert(name.to_string(), value);
    }
    scope
}

#[test]
fn expression_skips_unselected_arithmetic() {
    let mut rng = TestRng::with_seed(19);
    assert_eq!(run("if true then 7 else 1 / 0", &ValueScope::new(), &mut rng).unwrap(), Value::Integer(7));
    assert!(run("9223372036854775807 + 1", &ValueScope::new(), &mut rng).is_err());
}

#[test]
fn expression_evaluates_dice_with_shared_rng() {
    let scope = ValueScope::new();
    let mut eval_rng = TestRng::with_seed(7);
    let mut manual_rng = TestRng::with_seed(7);
    let evaluated = run(r#"roll("1d6")"#, &scope, &mut eval_rng).unwrap();
    let manual = match manual_rng.roll("1d6") {
        DiceOutcome::Value(v) => v,
        other => panic!("unexpected {other:?}"),
    };
    assert_eq!(evaluated, Value::Integer(manual));
    assert_eq!(eval_rng.draws, manual_rng.draws);
    assert_eq!(eval_rng.state, manual_rng.state);
}

#[test]
fn expression_rolls_dice_left_to_right() {
    let scope = ValueScope::new();
    let expr = parse(r#"roll("1d6") + roll("1d6") * 100"#).unwrap();
    let rolls = vec![DiceOutcome::Value(2), DiceOutcome::Value(5)];
    assert_eq!(evaluate(&expr, &scope, &rolls), Evaluation::Done(Ok(Value::Integer(502))));
    assert_eq!(evaluate(&expr, &scope, &rolls[..1].to_vec()), Evaluation::Roll("1d6".to_string()));
    assert_eq!(evaluate(&expr, &scope, &Vec::new()), Evaluation::Roll("1d6".to_string()));
}

#[test]
fn expression_skips_dice_in_unselected_branches() {
    let scope = ValueScope::new();
    for source in [
        r#"if false then roll("1d6") else 42"#,
        r#"if true then 42 else roll("1d6")"#,
        r#"false && (roll("1d6") == 0)"#,
        r#"true || (roll("1d6") == 0)"#,
    ] {
        let expr = parse(source).unwrap();
        match evaluate(&expr, &scope, &Vec::new()) {
            Evaluation::Done(Ok(_)) => {}
            other => panic!("for `{source}`, got {other:?}"),
        }
    }
    let mut rng = TestRng::with_seed(7);
    assert_eq!(run("1 + 2 * 3", &scope, &mut rng).unwrap(), Value::Integer(7));
    assert_eq!(rng.draws, 0);
}

#[test]
fn expression_resolves_scope_variables() {
    let mut rng = TestRng::with_seed(19);
    let scope = scope_of(vec![
        ("count", Value::Integer(3)),
        ("name", Value::Text("gem".into())),
        ("flag", Value::Boolean(true)),
    ]);
    assert_eq!(run("count * 25", &scope, &mut rng).unwrap(), Value::Integer(75));
    assert_eq!(run(r#"if flag then name else "none""#, &scope, &mut rng).unwrap(), Value::Text("gem".into()));
    let error = run("total + 1", &scope, &mut rng).unwrap_err();
    assert!(error.reason.contains("total"), "got: {}", error.reason);
    assert!(run("name + 1", &scope, &mut rng).is_err());
    assert!(run("if count then 1 else 2", &scope, &mut rng).is_err());
}

#[test]
fn expression_evaluates_text_and_equality_values() {
    let mut rng = TestRng::with_seed(19);
    let scope = ValueScope::new();
    for (source, expected) in [
        (r#""a\nb""#, "a\nb"),
        (r#""a\rb""#, "a\rb"),
        (r#""a\tb""#, "a\tb"),
        (r#""a\"b""#, "a\"b"),
        (r#""a\\b""#, "a\\b"),
    ] {
        assert_eq!(run(source, &scope, &mut rng).unwrap(), Value::Text(expected.to_string()), "for `{source}`");
    }
    for (source, expected) in [
        (r#""a" == "a""#, true),
        (r#""a" != "b""#, true),
        (r#""a" == "b""#, false),
        ("true == true", true),
        ("true != false", true),
        ("false == false", true),
        ("1 == 1", true),
        ("1 != 2", true),
    ] {
        assert_eq!(run(source, &scope, &mut rng).unwrap(), Value::Boolean(expected), "for `{source}`");
    }
    assert!(run(r#"1 == "a""#, &scope, &mut rng).is_err());
}

#[test]
fn expression_evaluates_boolean_operators_lazily() {
    let mut rng = TestRng::with_seed(19);
    let scope = ValueScope::new();
    for (source, expected) in [
        ("!true", false),
        ("!false", true),
        ("true && false", false),
        ("true || false", true),
        ("1 < 2", true),
        ("2 <= 2", true),
        ("3 > 2", true),
        ("2 >= 3", false),
    ] {
        assert_eq!(run(source, &scope, &mut rng).unwrap(), Value::Boolean(expected), "for `{source}`");
    }
    for source in ["false && (1 / 0 == 0)", "true || (1 / 0 == 0)"] {
        let expected = source.starts_with("false");
        assert_eq!(run(source, &scope, &mut rng).unwrap(), Value::Boolean(!expected), "for `{source}`");
    }
}

#[test]
fn expression_evaluates_checked_negation() {
    let mut rng = TestRng::with_seed(19);
    let scope = ValueScope::new();
    assert_eq!(run("-5", &scope, &mut rng).unwrap(), Value::Integer(-5));
    assert_eq!(run("- -5", &scope, &mut rng).unwrap(), Value::Integer(5));
    assert!(run("-(0 - 9223372036854775807 - 1)", &scope, &mut rng).is_err());
}

#[test]
fn expression_evaluates_checked_remainder() {
    let mut rng = TestRng::with_seed(19);
    let scope = ValueScope::new();
    for (source, expected) in [("7 % 3", 1), ("(0 - 7) % 3", -1), ("7 % (0 - 3)", 1)] {
        assert_eq!(run(source, &scope, &mut rng).unwrap(), Value::Integer(expected), "for `{source}`");
    }
    for source in ["1 % 0", "1 % (2 - 2)", "(0 - 9223372036854775807 - 1) % (0 - 1)"] {
        assert!(run(source, &scope, &mut rng).is_err(), "expected an error for `{source}`");
    }
}

#[test]
fn expression_evaluates_checked_division() {
    let mut rng = TestRng::with_seed(19);
    let scope = ValueScope::new();
    for (source, expected) in [("7 / 2", 3), ("(0 - 7) / 2", -3), ("7 / (0 - 2)", -3), ("(0 - 7) / (0 - 2)", 3)] {
        assert_eq!(run(source, &scope, &mut rng).unwrap(), Value::Integer(expected), "for `{source}`");
    }
    for source in ["1 / 0", "1 / (2 - 2)", "(0 - 9223372036854775807 - 1) / (0 - 1)"] {
        assert!(run(source, &scope, &mut rng).is_err(), "expected an error for `{source}`");
    }
}

#[test]
fn expression_evaluates_checked_subtraction() {
    let mut rng = TestRng::with_seed(19);
    let scope = ValueScope::new();
    assert_eq!(run("10 - 3 - 2", &scope, &mut rng).unwrap(), Value::Integer(5));
    assert!(run("0 - 9223372036854775807 - 2", &scope, &mut rng).is_err());
}

#[test]
fn expression_evaluates_arithmetic_precedence() {
    let mut rng = TestRng::with_seed(19);
    let scope = ValueScope::new();
    assert_eq!(run("1 + 2 * 3", &scope, &mut rng).unwrap(), Value::Integer(7));
    assert_eq!(run("(1 + 2) * 3", &scope, &mut rng).unwrap(), Value::Integer(9));
}

#[test]
fn evaluator_reports_dice_outcomes() {
    let scope = ValueScope::new();
    let expr = parse(r#"1 + roll("2d6")"#).unwrap();
    let failed = vec![DiceOutcome::Failed("engine says no".to_string())];
    match evaluate(&expr, &scope, &failed) {
        Evaluation::Done(Err(e)) => {
            assert_eq!(e.reason, "invalid dice roll: engine says no");
            assert_eq!(e.offset, 4);
        }
        other => panic!("got {other:?}"),
    }
    let odd = vec![DiceOutcome::NonNumeric];
    match evaluate(&expr, &scope, &odd) {
        Evaluation::Done(Err(e)) => assert_eq!(e.reason, "dice literal `2d6` produced a non-numeric outcome"),
        other => panic!("got {other:?}"),
    }
}

#[test]
fn evaluator_messages_and_offsets() {
    let scope = ValueScope::new();
    let mut rng = TestRng::with_seed(1);
    let e = run("1 + (2 - true)", &scope, &mut rng).unwrap_err();
    assert_eq!(e.reason, "arithmetic requires integers");
    assert_eq!(e.offset, 5);
    let e = run("if 1 then 2 else 3", &scope, &mut rng).unwrap_err();
    assert_eq!(e.reason, "`if` condition must be boolean");
    assert_eq!(e.offset, 3);
    let e = run("true && 1", &scope, &mut rng).unwrap_err();
    assert_eq!(e.reason, "boolean operators require booleans");
    assert_eq!(e.offset, 8);
    let e = run("9223372036854775807 * 2", &scope, &mut rng).unwrap_err();
    assert_eq!(e.reason, "integer multiplication overflows");
}
