use fatescroll::checker::ValueType;
use fatescroll::models::{ResultBinding, ResultEntry};
use fatescroll::result_text::{is_binding_name, prepare, scan_template, RawSegment, Segment};

fn entry(bindings: &[(&str, &str)], text: Option<&str>) -> ResultEntry {
    ResultEntry {
        min: 1,
        max: 6,
        text: text.map(|t| t.to_string()),
        chain: None,
        bindings: bindings
            .iter()
            .map(|(name, value)| ResultBinding { name: name.to_string(), value: value.to_string() })
            .collect(),
    }
}

fn expression_source(segment: &Segment) -> &str {
    match segment {
        Segment::Expression { source, .. } => source,
        other => panic!("expected expression segment, got: {other:?}"),
    }
}

#[test]
fn result_text_rejects_forward_references() {
    let e = entry(&[("price", "count * 25"), ("count", "roll(\"1d4\")")], Some("{= price}"));
    let error = prepare(&e).unwrap_err();
    assert!(error.reason.contains("count"));
    assert!(error.location.contains("price"));
}

#[test]
fn result_text_accepts_ordered_dependencies() {
    let e = entry(&[("count", "roll(\"1d4\")"), ("price", "count * 25")], Some("{= price}"));
    let prepared = prepare(&e).unwrap();
    assert_eq!(prepared.bindings.len(), 2);
    assert_eq!(prepared.bindings[0].name, "count");
    assert_eq!(prepared.bindings[0].source, "roll(\"1d4\")");
    assert_eq!(prepared.bindings[1].name, "price");
    assert_eq!(prepared.bindings[1].source, "count * 25");
}

#[test]
fn result_text_rejects_unknown_names() {
    let e = entry(&[("price", "total * 25")], Some("{= price}"));
    let error = prepare(&e).unwrap_err();
    assert!(error.reason.contains("total"));
    assert!(error.location.contains("price"));
}

#[test]
fn result_text_rejects_duplicate_binding_names() {
    let e = entry(&[("count", "roll(\"1d4\")"), ("count", "2")], Some("{= count}"));
    let error = prepare(&e).unwrap_err();
    assert!(error.reason.contains("count"), "got: {}", error.reason);
    assert!(error.location.contains("let[1]"), "got: {}", error.location);
}

#[test]
fn result_text_rejects_self_references() {
    let e = entry(&[("bonus", "bonus + 1")], Some("{= bonus}"));
    let error = prepare(&e).unwrap_err();
    assert!(error.reason.contains("bonus"), "got: {}", error.reason);
    assert!(error.location.contains("bonus"), "got: {}", error.location);
}

#[test]
fn result_text_rejects_reserved_binding_names() {
    for name in ["value", "roll", "if", "then", "else", "true", "false"] {
        let e = entry(&[(name, "1")], Some("x"));
        let error = prepare(&e).unwrap_err();
        assert!(error.reason.contains(name), "for `{name}`, got: {}", error.reason);
    }
}

#[test]
fn result_text_rejects_invalid_binding_names() {
    for name in ["", "9lives", "has space", "with-dash"] {
        let e = entry(&[(name, "1")], Some("x"));
        let error = prepare(&e).unwrap_err();
        assert!(error.reason.contains("name"), "for `{name}`, got: {}", error.reason);
    }
}

#[test]
fn result_text_accepts_identifier_binding_names() {
    let e = entry(&[("_hidden", "1"), ("Count2", "_hidden + 1")], Some("x"));
    let prepared = prepare(&e).unwrap();
    assert_eq!(prepared.bindings.len(), 2);
}

#[test]
fn result_text_scans_pure_marker_without_bindings() {
    let e = entry(&[], Some("{= value}"));
    let prepared = prepare(&e).unwrap();
    assert!(prepared.bindings.is_empty());
    assert_eq!(prepared.segments.len(), 1);
    assert_eq!(expression_source(&prepared.segments[0]), " value");
}

#[test]
fn result_text_rejects_dice_in_template() {
    let e = entry(&[("count", "roll(\"1d4\")")], Some("{= roll(\"1d6\") + count}"));
    let error = prepare(&e).unwrap_err();
    assert!(error.reason.contains("dice"), "got: {}", error.reason);
    assert_eq!(error.location, "text");
}

#[test]
fn result_text_rejects_dice_in_dead_template_branches() {
    let e = entry(&[], Some("{= if false then roll(\"1d6\") else 1}"));
    assert!(prepare(&e).is_err());
}

#[test]
fn result_text_template_sees_all_bindings() {
    let e = entry(&[("first", "1"), ("second", "first + 1")], Some("{= second}"));
    let prepared = prepare(&e).unwrap();
    assert_eq!(prepared.segments.len(), 1);
    assert_eq!(expression_source(&prepared.segments[0]), " second");
}

#[test]
fn result_text_rejects_unknown_names_in_template() {
    let e = entry(&[], Some("Found {= total} gold."));
    let error = prepare(&e).unwrap_err();
    assert!(error.reason.contains("total"), "got: {}", error.reason);
    assert_eq!(error.location, "text");
}

#[test]
fn result_text_keeps_literal_braces() {
    let e = entry(&[], Some("a { b } c {2d6}"));
    let prepared = prepare(&e).unwrap();
    assert_eq!(prepared.segments, vec![Segment::Literal("a { b } c {2d6}".to_string())]);
}

#[test]
fn result_text_scans_quoted_braces() {
    let e = entry(&[], Some("{= if value == 1 then \"}\" else \"{\"}"));
    let prepared = prepare(&e).unwrap();
    assert_eq!(prepared.segments.len(), 1);
    assert_eq!(expression_source(&prepared.segments[0]), " if value == 1 then \"}\" else \"{\"");
}

#[test]
fn result_text_marker_takes_precedence_in_braces() {
    let e = entry(&[], Some("{note {= value}}"));
    let prepared = prepare(&e).unwrap();
    assert_eq!(prepared.segments.len(), 3);
    assert_eq!(prepared.segments[0], Segment::Literal("{note ".to_string()));
    assert_eq!(expression_source(&prepared.segments[1]), " value");
    assert_eq!(prepared.segments[2], Segment::Literal("}".to_string()));
}

#[test]
fn result_text_keeps_double_brace_dice_literal() {
    let e = entry(&[], Some("{{1d6}}"));
    let prepared = prepare(&e).unwrap();
    assert_eq!(prepared.segments, vec![Segment::Literal("{{1d6}}".to_string())]);
}

#[test]
fn result_text_escapes_double_equals() {
    let e = entry(&[], Some("{{= value}"));
    let prepared = prepare(&e).unwrap();
    assert_eq!(prepared.segments, vec![Segment::Literal("{= value}".to_string())]);
}

#[test]
fn result_text_scans_escaped_then_real_marker() {
    let e = entry(&[], Some("{{= x} and {= value}"));
    let prepared = prepare(&e).unwrap();
    assert_eq!(prepared.segments.len(), 2);
    assert_eq!(prepared.segments[0], Segment::Literal("{= x} and ".to_string()));
    assert_eq!(expression_source(&prepared.segments[1]), " value");
}

#[test]
fn result_text_rejects_empty_markers() {
    for text in ["{=}", "{=   }"] {
        let e = entry(&[], Some(text));
        let error = prepare(&e).unwrap_err();
        assert!(error.reason.contains("empty"), "for `{text}`, got: {}", error.reason);
    }
}

#[test]
fn result_text_rejects_unterminated_markers() {
    for text in ["{= value", "{= \"abc"] {
        let e = entry(&[], Some(text));
        let error = prepare(&e).unwrap_err();
        assert!(error.reason.contains("unterminated"), "for `{text}`, got: {}", error.reason);
    }
}

#[test]
fn result_text_accepts_all_binding_types() {
    let e = entry(&[("count", "roll(\"1d4\")"), ("label", "\"gem\""), ("plenty", "count > 3")], Some("{= label}"));
    let prepared = prepare(&e).unwrap();
    let types: Vec<ValueType> = prepared.bindings.iter().map(|binding| binding.value_type).collect();
    assert_eq!(types, vec![ValueType::Integer, ValueType::Text, ValueType::Boolean]);
}

#[test]
fn result_text_handles_absent_and_empty_text() {
    let absent = ResultEntry { min: 1, max: 6, bindings: vec![], text: None, chain: None };
    let prepared = prepare(&absent).unwrap();
    assert!(prepared.segments.is_empty());
    let empty = ResultEntry { min: 1, max: 6, bindings: vec![], text: Some(String::new()), chain: None };
    let prepared = prepare(&empty).unwrap();
    assert!(prepared.segments.is_empty());
}

#[test]
fn result_text_rejects_too_many_bindings() {
    let bindings: Vec<ResultBinding> = (0..129)
        .map(|index| ResultBinding { name: format!("b{index}"), value: "1".to_string() })
        .collect();
    let entry = ResultEntry { min: 1, max: 6, bindings, text: None, chain: None };
    let error = prepare(&entry).unwrap_err();
    assert!(error.reason.contains("128"), "got: {}", error.reason);
    let bindings: Vec<ResultBinding> = (0..128)
        .map(|index| ResultBinding { name: format!("b{index}"), value: "1".to_string() })
        .collect();
    let entry = ResultEntry { min: 1, max: 6, bindings, text: None, chain: None };
    assert!(prepare(&entry).is_ok());
}

#[test]
fn result_text_rejects_oversized_binding_expression() {
    let big = format!("1{}", " + 1".repeat(2000));
    assert!(big.len() > 4096);
    let entry = ResultEntry {
        min: 1,
        max: 6,
        bindings: vec![ResultBinding { name: "big".to_string(), value: big }],
        text: None,
        chain: None,
    };
    assert!(prepare(&entry).is_err());
}

#[test]
fn result_text_rejects_oversized_template_expression() {
    let big = format!("1{}", " + 1".repeat(2000));
    let entry = ResultEntry { min: 1, max: 6, bindings: vec![], text: Some(format!("{{= {big}}}")), chain: None };
    assert!(prepare(&entry).is_err());
}

#[test]
fn result_text_rejects_deep_binding_expression() {
    let deep = format!("{}1", "-".repeat(64));
    let entry = ResultEntry {
        min: 1,
        max: 6,
        bindings: vec![ResultBinding { name: "deep".to_string(), value: deep }],
        text: None,
        chain: None,
    };
    assert!(prepare(&entry).is_err());
}

#[test]
fn result_text_rejects_oversized_template_source() {
    let padding = "x".repeat(70_000);
    let entry = ResultEntry {
        min: 1,
        max: 6,
        bindings: vec![],
        text: Some(format!("{{= value}}{padding}")),
        chain: None,
    };
    let error = prepare(&entry).unwrap_err();
    assert!(error.reason.contains("exceeds"), "got: {}", error.reason);
    let entry = ResultEntry {
        min: 1,
        max: 6,
        bindings: vec![ResultBinding { name: "count".to_string(), value: "1".to_string() }],
        text: Some(padding.clone()),
        chain: None,
    };
    assert!(prepare(&entry).is_err());
}

#[test]
fn result_text_ignores_template_limit_without_markers_or_bindings() {
    let padding = "x".repeat(70_000);
    let entry = ResultEntry {
        min: 1,
        max: 6,
        bindings: vec![],
        text: Some(format!("plain {padding} {{2d6}}")),
        chain: None,
    };
    let prepared = prepare(&entry).unwrap();
    assert_eq!(prepared.segments.len(), 1);
}

#[test]
fn result_text_reports_binding_location_and_offset() {
    let e = entry(&[("a", "1"), ("b", "1 +")], None);
    let error = prepare(&e).unwrap_err();
    assert_eq!(error.location, "let[1].b");
    assert_eq!(error.offset, 3);
    assert_eq!(error.reason, "expected an expression");
}

#[test]
fn result_text_reports_type_messages() {
    let e = entry(&[("flag", "true")], Some("{= flag + 1}"));
    let error = prepare(&e).unwrap_err();
    assert_eq!(error.location, "text");
    assert_eq!(error.reason, "arithmetic requires integers, found Boolean and Integer");
    assert_eq!(error.offset, 1);
}

#[test]
fn result_text_too_many_bindings_message() {
    let bindings: Vec<ResultBinding> =
        (0..130).map(|index| ResultBinding { name: format!("b{index}"), value: "1".to_string() }).collect();
    let entry = ResultEntry { min: 1, max: 6, bindings, text: None, chain: None };
    let error = prepare(&entry).unwrap_err();
    assert_eq!(error.location, "let");
    assert_eq!(error.offset, 130);
    assert_eq!(error.reason, "too many bindings: 130 exceeds limit of 128");
}

#[test]
fn result_text_marker_offsets_are_bytes() {
    let e = entry(&[], Some("é {= value"));
    let error = prepare(&e).unwrap_err();
    assert_eq!(error.offset, 3);
    assert_eq!(error.reason, "unterminated `{=` marker");
}

#[test]
fn result_text_scan_template_splits_pieces() {
    let raws = scan_template("a {= x} b {{= c").unwrap();
    assert_eq!(
        raws,
        vec![
            RawSegment::Literal("a ".to_string()),
            RawSegment::Strict(" x".to_string()),
            RawSegment::Literal(" b {= c".to_string()),
        ]
    );
    let raws = scan_template("{= \"\\\"}\" }").unwrap();
    assert_eq!(raws, vec![RawSegment::Strict(" \"\\\"}\" ".to_string())]);
}

#[test]
fn result_text_binding_name_rules() {
    assert!(is_binding_name("a"));
    assert!(is_binding_name("_x9"));
    assert!(!is_binding_name(""));
    assert!(!is_binding_name("1a"));
    assert!(!is_binding_name("a-b"));
    assert!(!is_binding_name("é"));
}

#[test]
fn result_text_unicode_blank_marker_is_empty() {
    let e = entry(&[], Some("{=\u{3000}}"));
    let error = prepare(&e).unwrap_err();
    assert!(error.reason.contains("empty"), "got: {}", error.reason);
}
