//! Parsing the generic value model: literals, numbers, strings, arrays,
//! objects and comments.

use vayload_kit::parse_value;
use vayload_kit::value::{Number, ObjectMap, Value};

fn float_of(v: &Value) -> f64 {
    match v {
        Value::Number(Number::Float(t)) => t.parse::<f64>().unwrap(),
        other => panic!("expected float, got {:?}", other),
    }
}

#[test]
fn test_null() {
    assert_eq!(parse_value("null").unwrap(), Value::Null);
    assert_eq!(parse_value("  null  ").unwrap(), Value::Null);
}

#[test]
fn test_bool() {
    assert_eq!(parse_value("true").unwrap(), Value::Bool(true));
    assert_eq!(parse_value("false").unwrap(), Value::Bool(false));
    assert_eq!(parse_value("  true  ").unwrap(), Value::Bool(true));
}

#[test]
fn test_integers() {
    assert_eq!(parse_value("0").unwrap(), Value::Number(Number::Int(0)));
    assert_eq!(parse_value("42").unwrap(), Value::Number(Number::Int(42)));
    assert_eq!(parse_value("-17").unwrap(), Value::Number(Number::Int(-17)));
    assert_eq!(
        parse_value("9999999999999999").unwrap(),
        Value::Number(Number::Int(9999999999999999i64))
    );
}

#[test]
fn test_floats() {
    assert_eq!(float_of(&parse_value("3.14").unwrap()), 3.14);
    assert_eq!(float_of(&parse_value("-0.5").unwrap()), -0.5);
    assert_eq!(float_of(&parse_value("1e10").unwrap()), 1e10);
    assert_eq!(float_of(&parse_value("1.5E-3").unwrap()), 1.5e-3);
}

#[test]
fn test_json5_special_numbers() {
    assert_eq!(parse_value("NaN").unwrap(), Value::Number(Number::NaN));
    assert_eq!(parse_value("Infinity").unwrap(), Value::Number(Number::Infinity));
    assert_eq!(parse_value("-Infinity").unwrap(), Value::Number(Number::NegInfinity));
    assert_eq!(parse_value("+Infinity").unwrap(), Value::Number(Number::Infinity));
}

#[test]
fn test_hex_numbers() {
    assert_eq!(parse_value("0xFF").unwrap(), Value::Number(Number::Uint(255)));
    assert_eq!(parse_value("0x0").unwrap(), Value::Number(Number::Uint(0)));
    assert_eq!(parse_value("0xDEADBEEF").unwrap(), Value::Number(Number::Uint(0xDEADBEEF)));
    assert_eq!(parse_value("-0x10").unwrap(), Value::Number(Number::Int(-16)));
}

#[test]
fn test_leading_trailing_dot() {
    assert_eq!(float_of(&parse_value(".5").unwrap()), 0.5);
    assert_eq!(float_of(&parse_value("5.").unwrap()), 5.0);
}

#[test]
fn test_double_quoted_string() {
    assert_eq!(parse_value(r#""hello""#).unwrap(), Value::String("hello".into()));
    assert_eq!(parse_value(r#""""#).unwrap(), Value::String("".into()));
}

#[test]
fn test_single_quoted_string() {
    assert_eq!(parse_value("'hello'").unwrap(), Value::String("hello".into()));
    assert_eq!(parse_value("'it\\'s'").unwrap(), Value::String("it's".into()));
}

#[test]
fn test_escape_sequences() {
    assert_eq!(parse_value(r#""\n\r\t""#).unwrap(), Value::String("\n\r\t".into()));
    assert_eq!(parse_value(r#""\b\f\v""#).unwrap(), Value::String("\x08\x0C\x0B".into()));
    assert_eq!(parse_value(r#""\\""#).unwrap(), Value::String("\\".into()));
    assert_eq!(parse_value(r#""\"""#).unwrap(), Value::String("\"".into()));
    assert_eq!(parse_value(r#""\u0041""#).unwrap(), Value::String("A".into()));
    assert_eq!(parse_value(r#""\u{1F600}""#).unwrap(), Value::String("\u{1F600}".into()));
    assert_eq!(parse_value(r#""\x41""#).unwrap(), Value::String("A".into()));
}

#[test]
fn test_unicode_surrogate_pair() {
    assert_eq!(
        parse_value(r#""\uD83D\uDE00""#).unwrap(),
        Value::String("\u{1F600}".into())
    );
}

#[test]
fn test_null_escape() {
    assert_eq!(parse_value(r#""\0""#).unwrap(), Value::String("\0".into()));
}

#[test]
fn test_empty_array() {
    assert_eq!(parse_value("[]").unwrap(), Value::Array(vec![]));
}

#[test]
fn test_simple_array() {
    let v = parse_value("[1, 2, 3]").unwrap();
    assert_eq!(
        v,
        Value::Array(vec![
            Value::Number(Number::Int(1)),
            Value::Number(Number::Int(2)),
            Value::Number(Number::Int(3)),
        ])
    );
}

#[test]
fn test_array_trailing_comma() {
    let v = parse_value("[1, 2, 3,]").unwrap();
    assert_eq!(
        v,
        Value::Array(vec![
            Value::Number(Number::Int(1)),
            Value::Number(Number::Int(2)),
            Value::Number(Number::Int(3)),
        ])
    );
}

#[test]
fn test_nested_array() {
    let v = parse_value("[[1], [2, 3], []]").unwrap();
    assert!(matches!(v, Value::Array(_)));
    if let Value::Array(arr) = v {
        assert_eq!(arr.len(), 3);
    }
}

#[test]
fn test_empty_object() {
    assert_eq!(parse_value("{}").unwrap(), Value::Object(ObjectMap::new()));
}

#[test]
fn test_simple_object() {
    let v = parse_value(r#"{"a": 1, "b": 2}"#).unwrap();
    if let Value::Object(m) = v {
        assert_eq!(m.get("a"), Some(&Value::Number(Number::Int(1))));
        assert_eq!(m.get("b"), Some(&Value::Number(Number::Int(2))));
    } else {
        panic!("expected object");
    }
}

#[test]
fn test_object_unquoted_keys() {
    let v = parse_value("{foo: 1, bar: 'baz'}").unwrap();
    if let Value::Object(m) = v {
        assert_eq!(m.get("foo"), Some(&Value::Number(Number::Int(1))));
        assert_eq!(m.get("bar"), Some(&Value::String("baz".into())));
    } else {
        panic!("expected object");
    }
}

#[test]
fn test_object_single_quoted_keys() {
    let v = parse_value("{'key': 42}").unwrap();
    if let Value::Object(m) = v {
        assert_eq!(m.get("key"), Some(&Value::Number(Number::Int(42))));
    } else {
        panic!("expected object");
    }
}

#[test]
fn test_object_trailing_comma() {
    let v = parse_value("{a: 1, b: 2,}").unwrap();
    assert!(matches!(v, Value::Object(_)));
}

#[test]
fn test_nested_object() {
    let v = parse_value(r#"{"a": {"b": {"c": 42}}}"#).unwrap();
    if let Value::Object(m) = &v {
        if let Some(Value::Object(inner)) = m.get("a") {
            if let Some(Value::Object(deep)) = inner.get("b") {
                assert_eq!(deep.get("c"), Some(&Value::Number(Number::Int(42))));
                return;
            }
        }
    }
    panic!("deep nesting failed");
}

#[test]
fn test_single_line_comment() {
    let v = parse_value("// comment\n42").unwrap();
    assert_eq!(v, Value::Number(Number::Int(42)));
}

#[test]
fn test_multi_line_comment() {
    let v = parse_value("/* comment\n spanning lines */42").unwrap();
    assert_eq!(v, Value::Number(Number::Int(42)));
}

#[test]
fn test_comments_in_object() {
    let v = parse_value("{\n  // comment\n  foo: 1, /* inline */ bar: 2\n}").unwrap();
    if let Value::Object(m) = v {
        assert_eq!(m.len(), 2);
    } else {
        panic!("expected object");
    }
}

#[test]
fn test_comment_before_value() {
    let v = parse_value(
        r#"
    /* JSON5 object */
    {
        // the answer
        answer: 42,
    }
    "#,
    )
    .unwrap();
    if let Value::Object(m) = v {
        assert_eq!(m.get("answer"), Some(&Value::Number(Number::Int(42))));
    }
}

#[test]
fn test_json5_spec_example() {
    let input = r#"{
        // comments
        unquoted: 'and you can quote me on that',
        singleQuotes: 'I can use "double quotes" here',
        lineBreaks: "Look, Mom! \
No \\n's!",
        hexadecimal: 0xdecaf,
        leadingDecimalPoint: .8675309,
        andTrailing: 8675309.,
        positiveSign: +1,
        trailingComma: 'in objects',
        andIn: ['arrays'],
        "backwardsCompatible": "with JSON",
    }"#;

    let v = parse_value(input).unwrap();
    if let Value::Object(m) = &v {
        assert_eq!(
            m.get("unquoted"),
            Some(&Value::String("and you can quote me on that".into()))
        );
        assert_eq!(m.get("hexadecimal"), Some(&Value::Number(Number::Uint(0xdecaf))));
        if let Some(v) = m.get("leadingDecimalPoint") {
            assert!((float_of(v) - 0.8675309).abs() < 1e-7);
        } else {
            panic!("leadingDecimalPoint wrong");
        }
        assert_eq!(m.get("backwardsCompatible"), Some(&Value::String("with JSON".into())));
    } else {
        panic!("expected object");
    }
}
