use fatescroll::checker::{check, TypeScope, ValueType};
use fatescroll::expression::parse;
use fatescroll::evaluator::{evaluate, Evaluation, Value, ValueScope};

#[test]
fn checker_allowing_rolls_only_accepts_more() {
    let scope = TypeScope::new();
    for source in ["1 + 2", "if true then 1 else 2", "\"a\" == \"b\""] {
        let expr = parse(source).unwrap();
        assert_eq!(check(&expr, &scope, false), check(&expr, &scope, true));
    }
    let dice = parse("roll(\"1d6\") * 2").unwrap();
    assert!(check(&dice, &scope, false).is_err());
    assert_eq!(check(&dice, &scope, true).unwrap(), ValueType::Integer);
}

#[test]
fn checker_messages_name_types() {
    let mut scope = TypeScope::new();
    scope.insert("flag".to_string(), ValueType::Boolean);
    let e = check(&parse("-flag").unwrap(), &scope, false).unwrap_err();
    assert_eq!(e.reason, "unary `-` requires an integer, found Boolean");
    let e = check(&parse("if flag then 1 else \"x\"").unwrap(), &scope, false).unwrap_err();
    assert_eq!(e.reason, "`if` branches must have the same type, found Integer and Text");
    let e = check(&parse("flag < 1").unwrap(), &scope, false).unwrap_err();
    assert_eq!(e.reason, "ordering requires integers, found Boolean and Integer");
    let e = check(&parse("nothing").unwrap(), &scope, false).unwrap_err();
    assert_eq!(e.reason, "unknown name `nothing`");
    let e = check(&parse("roll(\"d6\")").unwrap(), &scope, false).unwrap_err();
    assert_eq!(e.reason, "dice rolls are not allowed here");
    // A later binding of a name replaces an earlier one.
    scope.insert("flag".to_string(), ValueType::Text);
    assert_eq!(check(&parse("flag").unwrap(), &scope, false).unwrap(), ValueType::Text);
}

#[test]
fn checker_checked_values_have_their_types() {
    let mut types = TypeScope::new();
    types.insert("n".to_string(), ValueType::Integer);
    let mut values = ValueScope::new();
    values.insert("n".to_string(), Value::Integer(4));
    for (source, t) in [("n * 2 > 7", ValueType::Boolean), ("if n == 4 then \"four\" else \"other\"", ValueType::Text), ("-n", ValueType::Integer)] {
        let expr = parse(source).unwrap();
        assert_eq!(check(&expr, &types, false).unwrap(), t);
        match evaluate(&expr, &values, &Vec::new()) {
            Evaluation::Done(Ok(Value::Integer(_))) => assert_eq!(t, ValueType::Integer),
            Evaluation::Done(Ok(Value::Boolean(_))) => assert_eq!(t, ValueType::Boolean),
            Evaluation::Done(Ok(Value::Text(_))) => assert_eq!(t, ValueType::Text),
            other => panic!("for `{source}`, got {other:?}"),
        }
    }
}
