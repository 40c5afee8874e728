use fatescroll::checker::{check, TypeScope, ValueType};
use fatescroll::expression::{parse, MAX_SOURCE_BYTES};

fn scope_with(name: &str, t: ValueType) -> TypeScope {
    let mut scope = TypeScope::new();
    scope.insert(name.to_string(), t);
    scope
}

#[test]
fn expression_checks_conditional_types() {
    let scope = scope_with("count", ValueType::Integer);
    let expr = parse(r#"if count == 1 then "gem" else "gems""#).unwrap();
    assert_eq!(check(&expr, &scope, false).unwrap(), ValueType::Text);
    let invalid = parse(r#"if true then 1 else "gems""#).unwrap();
    assert!(check(&invalid, &scope, false).is_err());
}

#[test]
fn expression_treats_keywords_as_whole_tokens() {
    let scope = TypeScope::new();
    let expr = parse("ifx == 1").unwrap();
    let error = check(&expr, &scope, false).unwrap_err();
    assert!(error.reason.contains("ifx"), "got: {}", error.reason);
    let expr = parse("truex").unwrap();
    let error = check(&expr, &scope, false).unwrap_err();
    assert!(error.reason.contains("truex"), "got: {}", error.reason);
}

#[test]
fn expression_requires_parentheses_around_conditional_operands() {
    assert!(parse("1 + if true then 2 else 3").is_err());
    let scope = TypeScope::new();
    let expr = parse("(if true then 2 else 3) + 1").unwrap();
    assert_eq!(check(&expr, &scope, false).unwrap(), ValueType::Integer);
}

#[test]
fn expression_pins_nesting_depth_against_ast_depth() {
    let allowed = format!("{}1", "-".repeat(63));
    assert!(parse(&allowed).is_ok());
    let nested = format!("{}1", "-".repeat(64));
    assert!(parse(&nested).is_err());
    let allowed_if = format!("{}1{}", "if true then ".repeat(63), " else 1".repeat(63));
    assert!(parse(&allowed_if).is_ok());
    let nested_if = format!("{}1{}", "if true then ".repeat(64), " else 1".repeat(64));
    assert!(parse(&nested_if).is_err());
    // Discarded group parentheses cost nesting budget but leave a
    // depth-1 AST that checks as a plain integer.
    let scope = TypeScope::new();
    let grouped = format!("{}1{}", "(".repeat(63), ")".repeat(63));
    let expr = parse(&grouped).unwrap();
    assert_eq!(check(&expr, &scope, false).unwrap(), ValueType::Integer);
}

#[test]
fn expression_bounds_constructed_ast_depth() {
    let chain = (0..65).map(|_| "1").collect::<Vec<_>>().join(" + ");
    assert!(parse(&chain).is_err());
    let allowed = (0..64).map(|_| "1").collect::<Vec<_>>().join(" + ");
    assert!(parse(&allowed).is_ok());
}

#[test]
fn expression_rejects_dice_when_rolls_are_disallowed() {
    let scope = TypeScope::new();
    let expr = parse("roll(\"1d6\") + 1").unwrap();
    assert!(check(&expr, &scope, false).is_err());
    assert_eq!(check(&expr, &scope, true).unwrap(), ValueType::Integer);
    let hidden = parse("if false then roll(\"1d6\") else 1").unwrap();
    assert!(check(&hidden, &scope, false).is_err());
}

#[test]
fn expression_rejects_prohibited_dice_syntax() {
    for source in [
        "roll(\"2d6x10\")",
        "roll(\"4d6kh3\")",
        "roll(\"1d6!\")",
        "roll(\"2D6\")",
        "roll(\"2d 6\")",
        "roll(\" 2d6\")",
        "roll(\"\")",
        "roll(\"abc\")",
        "roll(\"D66\")",
        "roll(\"1d6+2\")",
        "roll(6)",
        "roll(count)",
        "roll(\"1d6\", \"2d6\")",
        "roll()",
        "bounce(\"1d6\")",
    ] {
        assert!(
            parse(source).is_err(),
            "expected dice rejection for `{source}`"
        );
    }
}

#[test]
fn expression_rejects_out_of_bounds_dice_in_dead_branches() {
    assert!(parse("roll(\"0d6\")").is_err());
    assert!(parse("roll(\"1001d6\")").is_err());
    assert!(parse("roll(\"1d0\")").is_err());
    assert!(parse("roll(\"1d1000001\")").is_err());
    assert!(parse("if false then roll(\"0d6\") else 1").is_err());
    assert!(parse("if false then 1 / 0 else 1").is_ok());
}

#[test]
fn expression_accepts_bounded_dice_literals() {
    let scope = TypeScope::new();
    for source in ["roll(\"1d6\")", "roll(\"d20\")", "roll(\"1000d1000000\")"] {
        let expr = parse(source).unwrap();
        assert_eq!(check(&expr, &scope, true).unwrap(), ValueType::Integer);
    }
}

#[test]
fn expression_enforces_source_and_nesting_limits() {
    let oversized = format!("1{}", " ".repeat(MAX_SOURCE_BYTES));
    assert!(oversized.len() > MAX_SOURCE_BYTES);
    assert!(parse(&oversized).is_err());
    let nested = format!("{}1{}", "(".repeat(64), ")".repeat(64));
    assert!(parse(&nested).is_err());
    // The root counts as depth 1, so 63 enclosing groups fit the
    // depth-64 budget while the 64th exceeds it.
    let allowed = format!("{}1{}", "(".repeat(63), ")".repeat(63));
    assert!(parse(&allowed).is_ok());
}

#[test]
fn expression_rejects_malformed_or_out_of_range_integers() {
    let scope = TypeScope::new();
    let error = parse("9999999999999999999999").unwrap_err();
    assert_eq!(error.offset, 0);
    let error = parse("-9223372036854775808").unwrap_err();
    assert_eq!(error.offset, 1);
    let expr = parse("9223372036854775807").unwrap();
    assert_eq!(check(&expr, &scope, false).unwrap(), ValueType::Integer);
}

#[test]
fn expression_checks_both_conditional_branches() {
    let scope = TypeScope::new();
    let expr = parse("if false then \"a\" else 1").unwrap();
    assert!(check(&expr, &scope, false).is_err());
    let expr = parse("if false then 1 else 2").unwrap();
    assert_eq!(check(&expr, &scope, false).unwrap(), ValueType::Integer);
}

#[test]
fn expression_rejects_operator_type_mismatches() {
    let scope = TypeScope::new();
    for source in [
        "1 + true",
        "true && 1",
        "1 || false",
        "\"a\" < \"b\"",
        "1 == \"a\"",
        "-true",
        "!1",
    ] {
        let expr = parse(source).unwrap();
        assert!(
            check(&expr, &scope, false).is_err(),
            "expected a type error for `{source}`"
        );
    }
    for (source, expected) in [
        ("1 + 2", ValueType::Integer),
        ("true && false", ValueType::Boolean),
        ("true || false", ValueType::Boolean),
        ("!true", ValueType::Boolean),
        ("-5", ValueType::Integer),
        ("1 == 2", ValueType::Boolean),
        ("\"a\" == \"b\"", ValueType::Boolean),
    ] {
        let expr = parse(source).unwrap();
        assert_eq!(check(&expr, &scope, false).unwrap(), expected);
    }
}

#[test]
fn expression_rejects_unknown_names() {
    let scope = scope_with("count", ValueType::Integer);
    let expr = parse("total + 1").unwrap();
    let error = check(&expr, &scope, false).unwrap_err();
    assert!(error.reason.contains("total"), "got: {}", error.reason);
    assert_eq!(error.offset, 0);
}

#[test]
fn expression_handles_string_escapes() {
    let scope = TypeScope::new();
    for source in [
        r#""a\"b""#,
        r#""a\\b""#,
        r#""a\nb""#,
        r#""a\rb""#,
        r#""a\tb""#,
    ] {
        let combined = format!("{source} == {source}");
        let expr = parse(&combined).unwrap();
        assert_eq!(check(&expr, &scope, false).unwrap(), ValueType::Boolean);
    }
    assert!(parse(r#""\q""#).is_err());
    assert!(parse("\"\\u0041\"").is_err());
    assert!(parse("\"a\nb\"").is_err());
    assert!(parse("\"abc").is_err());
}

#[test]
fn expression_supports_unicode_strings_with_byte_offsets() {
    let scope = TypeScope::new();
    let expr = parse(r#"if "héllo" == "héllo" then 1 else 2"#).unwrap();
    assert_eq!(check(&expr, &scope, false).unwrap(), ValueType::Integer);
    let error = parse("\"héllo\" \"x\"").unwrap_err();
    assert_eq!(error.offset, 9);
}

#[test]
fn expression_rejects_trailing_input() {
    for source in ["1 2", "1 +", "(1", "1)", "if true then 1"] {
        assert!(
            parse(source).is_err(),
            "expected error for trailing input in `{source}`"
        );
    }
    assert!(parse("").is_err());
}

#[test]
fn expression_rejects_nonboolean_conditions_in_dead_branches() {
    let scope = TypeScope::new();
    let expr = parse("if true then 1 else if 1 then 2 else 3").unwrap();
    let error = check(&expr, &scope, false).unwrap_err();
    assert!(error.reason.contains("boolean"), "got: {}", error.reason);
}

#[test]
fn expression_accepts_mixed_precedence_comparisons() {
    let scope = scope_with("value", ValueType::Integer);
    let expr = parse("value < 3 == true").unwrap();
    assert_eq!(check(&expr, &scope, false).unwrap(), ValueType::Boolean);
}

#[test]
fn expression_rejects_repeated_same_level_comparisons() {
    let first = parse("value < 3 < 5").unwrap_err();
    assert!(first.reason.contains("repeated"), "got: {}", first.reason);
    let second = parse("value == 3 == true").unwrap_err();
    assert!(second.reason.contains("repeated"), "got: {}", second.reason);
}

#[test]
fn expression_checks_comparison_types() {
    let scope = scope_with("value", ValueType::Integer);
    for source in ["value < 3", "value <= 3", "value > 3", "value >= 3"] {
        let expr = parse(source).unwrap();
        assert_eq!(check(&expr, &scope, false).unwrap(), ValueType::Boolean);
    }
    let expr = parse("value != 3").unwrap();
    assert_eq!(check(&expr, &scope, false).unwrap(), ValueType::Boolean);
}

#[test]
fn expression_rejects_non_ascii_outside_strings_without_panicking() {
    let error = parse("€").unwrap_err();
    assert_eq!(error.offset, 0);
    assert!(error.reason.contains('€'), "got: {}", error.reason);
    let error = parse("a€b").unwrap_err();
    assert_eq!(error.offset, 1);
    assert!(error.reason.contains('€'), "got: {}", error.reason);
    let error = parse("héllo").unwrap_err();
    assert_eq!(error.offset, 1);
    assert!(error.reason.contains('é'), "got: {}", error.reason);
}

#[test]
fn expression_applies_arithmetic_precedence() {
    let scope = TypeScope::new();
    let expr = parse("1 + 2 * 3 == 7").unwrap();
    assert_eq!(check(&expr, &scope, false).unwrap(), ValueType::Boolean);
    let grouped = parse("(1 + 2) * 3 == 9").unwrap();
    assert_eq!(check(&grouped, &scope, false).unwrap(), ValueType::Boolean);
}
