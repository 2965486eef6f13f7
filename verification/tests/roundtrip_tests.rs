//! Concrete round trips: compact emission parses back to the same tree, and
//! emission is idempotent; number classification survives re-encoding.

use vayload_kit::parse_value;
use vayload_kit::ser::CompactFormatter;
use vayload_kit::value::{Number, ObjectMap, Value};

fn compact(v: &Value) -> String {
    CompactFormatter::new(false, None).format(v).unwrap()
}

#[test]
fn round_trip_reproduces_a_tree() {
    let mut obj = ObjectMap::new();
    obj.insert("name".to_string(), Value::String("demo".to_string()));
    obj.insert(
        "sizes".to_string(),
        Value::Array(vec![
            Value::Number(Number::Int(-3)),
            Value::Number(Number::Uint(18446744073709551615)),
            Value::Number(Number::Float("2.5".to_string())),
        ]),
    );
    obj.insert("quote me".to_string(), Value::String("a\"b\\c\nd".to_string()));
    obj.insert("nothing".to_string(), Value::Null);
    let v = Value::Object(obj);

    let text = compact(&v);
    assert_eq!(parse_value(&text).unwrap(), v);
}

#[test]
fn round_trip_keeps_special_numbers() {
    let v = Value::Array(vec![
        Value::Number(Number::NaN),
        Value::Number(Number::Infinity),
        Value::Number(Number::NegInfinity),
    ]);
    let text = compact(&v);
    assert_eq!(text, "[NaN,Infinity,-Infinity]");
    assert_eq!(parse_value(&text).unwrap(), v);
}

#[test]
fn emission_is_idempotent() {
    // A small unsigned value re-parses as a signed one, but the text stays.
    let v = Value::Number(Number::Uint(255));
    let once = compact(&v);
    assert_eq!(once, "255");
    let reparsed = parse_value(&once).unwrap();
    assert_eq!(reparsed, Value::Number(Number::Int(255)));
    assert_eq!(compact(&reparsed), once);
}

#[test]
fn emission_idempotent_through_documents() {
    for text in [
        "{foo: 1, bar: 'baz',}",
        "[1, 2.5, 0xFF, NaN, [true, null], {a: {b: 's'}}]",
        "// note\n{ x: .5, y: 5., z: -0x10 }",
    ] {
        let v = parse_value(text).unwrap();
        let once = compact(&v);
        let again = compact(&parse_value(&once).unwrap());
        assert_eq!(once, again);
    }
}

#[test]
fn number_literals_reencode_to_their_text() {
    for (input, expected) in [
        ("NaN", "NaN"),
        ("Infinity", "Infinity"),
        ("+Infinity", "Infinity"),
        ("-Infinity", "-Infinity"),
        ("0xFF", "255"),
        ("-0x10", "-16"),
        (".5", "0.5"),
        ("5.", "5.0"),
        ("-.5", "-0.5"),
        ("5.e3", "5.0e3"),
    ] {
        let v = parse_value(input).unwrap();
        assert_eq!(compact(&v), expected);
    }
}

#[test]
fn structural_tolerance_example() {
    let v = parse_value("{foo: 1, bar: 'baz',}").unwrap();
    if let Value::Object(m) = &v {
        assert_eq!(m.get("foo"), Some(&Value::Number(Number::Int(1))));
        assert_eq!(m.get("bar"), Some(&Value::String("baz".to_string())));
        assert_eq!(m.len(), 2);
    } else {
        panic!("expected object");
    }
    assert_eq!(compact(&v), "{foo:1,bar:\"baz\"}");
}

#[test]
fn duplicate_keys_overwrite_in_place() {
    let v = parse_value("{a: 1, b: 2, a: 3}").unwrap();
    if let Value::Object(m) = &v {
        assert_eq!(m.len(), 2);
        assert_eq!(m.get("a"), Some(&Value::Number(Number::Int(3))));
    } else {
        panic!("expected object");
    }
    assert_eq!(compact(&v), "{a:3,b:2}");
}

#[test]
fn keys_needing_quotes_are_quoted() {
    let mut obj = ObjectMap::new();
    obj.insert("plain_key".to_string(), Value::Number(Number::Int(1)));
    obj.insert("needs quotes".to_string(), Value::Number(Number::Int(2)));
    obj.insert("".to_string(), Value::Number(Number::Int(3)));
    let v = Value::Object(obj);
    let text = compact(&v);
    assert_eq!(text, "{plain_key:1,\"needs quotes\":2,\"\":3}");
    assert_eq!(parse_value(&text).unwrap(), v);
}

#[test]
fn control_characters_are_escaped_and_recovered() {
    let v = Value::String("\u{1}\u{2}\u{1f}\t".to_string());
    let text = compact(&v);
    assert_eq!(text, "\"\\u0001\\u0002\\u001f\\t\"");
    assert_eq!(parse_value(&text).unwrap(), v);
}

#[test]
fn unicode_identifier_keys_parse_unquoted() {
    // A non-ASCII alphabetic key is legal unquoted on the way in, and is
    // quoted on the way out.
    let v = parse_value("{café: 1}").unwrap();
    if let Value::Object(m) = &v {
        assert_eq!(m.get("café"), Some(&Value::Number(Number::Int(1))));
    } else {
        panic!("expected object");
    }
    let text = compact(&v);
    assert_eq!(text, "{\"café\":1}");
    assert_eq!(parse_value(&text).unwrap(), v);
}

#[test]
fn depth_guard_stops_runaway_nesting() {
    let mut v = Value::Number(Number::Int(1));
    for _ in 0..600 {
        v = Value::Array(vec![v]);
    }
    assert!(CompactFormatter::new(false, None).format(&v).is_err());
    assert!(CompactFormatter::new(false, Some(1000)).format(&v).is_ok());
}

#[test]
fn underscores_in_literals_are_tolerated_and_stripped() {
    assert_eq!(parse_value("1_000").unwrap(), Value::Number(Number::Int(1000)));
    assert_eq!(parse_value("0xF_F").unwrap(), Value::Number(Number::Uint(255)));
    if let Value::Number(Number::Float(t)) = parse_value("1_0.5_0").unwrap() {
        assert_eq!(t, "10.50");
    } else {
        panic!("expected float");
    }
}

#[test]
fn huge_integer_falls_back_to_float_text() {
    if let Value::Number(Number::Float(t)) = parse_value("99999999999999999999").unwrap() {
        assert_eq!(t, "99999999999999999999");
    } else {
        panic!("expected float fallback");
    }
}
