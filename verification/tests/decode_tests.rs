//! The typed decode path: primitives, options, sequences, records and
//! variants, driven by target-side `FromValue` implementations.

use vayload_kit::de::FromValue;
use vayload_kit::error::Error;
use vayload_kit::from_str;
use vayload_kit::value::{Number, Value};

fn float_of(v: &Value) -> f64 {
    match v {
        Value::Number(Number::Float(t)) => t.parse::<f64>().unwrap(),
        Value::Number(Number::Int(i)) => *i as f64,
        Value::Number(Number::Uint(u)) => *u as f64,
        other => panic!("expected number, got {:?}", other),
    }
}

#[derive(Debug, PartialEq)]
struct Point {
    x: f64,
    y: f64,
}

impl FromValue for Point {
    fn from_value(v: &Value) -> Result<Point, Error> {
        let m = v.as_object()?;
        let x = float_of(m.get("x").ok_or(Error::UnexpectedEof)?);
        let y = float_of(m.get("y").ok_or(Error::UnexpectedEof)?);
        Ok(Point { x, y })
    }
}

#[test]
fn test_deserialize_struct() {
    let p: Point = from_str("{x: 1.0, y: 2.5}").unwrap();
    assert_eq!(p, Point { x: 1.0, y: 2.5 });
}

#[test]
fn test_deserialize_vec() {
    let v: Vec<i32> = from_str("[1, 2, 3, 4]").unwrap();
    assert_eq!(v, vec![1, 2, 3, 4]);
}

#[test]
fn test_deserialize_string() {
    let s: String = from_str("'hello world'").unwrap();
    assert_eq!(s, "hello world");
}

#[test]
fn test_deserialize_option_some() {
    let v: Option<i32> = from_str("42").unwrap();
    assert_eq!(v, Some(42));
}

#[test]
fn test_deserialize_option_none() {
    let v: Option<i32> = from_str("null").unwrap();
    assert_eq!(v, None);
}

#[derive(Debug, PartialEq)]
struct Config {
    name: String,
    version: u32,
    tags: Vec<String>,
    debug: bool,
}

impl FromValue for Config {
    fn from_value(v: &Value) -> Result<Config, Error> {
        let m = v.as_object()?;
        Ok(Config {
            name: String::from_value(m.get("name").ok_or(Error::UnexpectedEof)?)?,
            version: u32::from_value(m.get("version").ok_or(Error::UnexpectedEof)?)?,
            tags: Vec::<String>::from_value(m.get("tags").ok_or(Error::UnexpectedEof)?)?,
            debug: bool::from_value(m.get("debug").ok_or(Error::UnexpectedEof)?)?,
        })
    }
}

#[test]
fn test_deserialize_nested() {
    let s = r#"{
        name: 'my-app',
        version: 2,
        tags: ['rust', 'json5'],
        debug: true,
    }"#;

    let c: Config = from_str(s).unwrap();
    assert_eq!(c.name, "my-app");
    assert_eq!(c.version, 2);
    assert_eq!(c.tags, vec!["rust", "json5"]);
    assert!(c.debug);
}

#[derive(Debug, PartialEq)]
enum Color {
    Red,
    Green,
    Blue,
}

impl FromValue for Color {
    fn from_value(v: &Value) -> Result<Color, Error> {
        let (name, payload) = v.variant_parts()?;
        if payload.is_some() {
            return Err(Error::Custom("expected unit variant".to_string()));
        }
        match name.as_str() {
            "Red" => Ok(Color::Red),
            "Green" => Ok(Color::Green),
            "Blue" => Ok(Color::Blue),
            _ => Err(Error::Custom("unknown variant".to_string())),
        }
    }
}

#[test]
fn test_deserialize_enum_unit() {
    let c: Color = from_str(r#""Red""#).unwrap();
    assert_eq!(c, Color::Red);
    let c: Color = from_str("'Blue'").unwrap();
    assert_eq!(c, Color::Blue);
}

#[derive(Debug, PartialEq)]
enum Wrap {
    Value(i32),
}

impl FromValue for Wrap {
    fn from_value(v: &Value) -> Result<Wrap, Error> {
        let (name, payload) = v.variant_parts()?;
        match (name.as_str(), payload) {
            ("Value", Some(p)) => Ok(Wrap::Value(i32::from_value(p)?)),
            _ => Err(Error::Custom("unknown variant".to_string())),
        }
    }
}

#[test]
fn test_deserialize_enum_newtype() {
    let w: Wrap = from_str(r#"{"Value": 99}"#).unwrap();
    assert_eq!(w, Wrap::Value(99));
}

#[test]
fn decode_rejects_narrowing_overflow() {
    let r: Result<u8, Error> = from_str("300");
    assert_eq!(r, Err(Error::Custom("integer overflow".to_string())));
    let r: Result<u32, Error> = from_str("-1");
    assert_eq!(r, Err(Error::TypeMismatch { expected: "unsigned int", got: "number" }));
}

#[test]
fn decode_truncates_float_literals() {
    assert_eq!(from_str::<i64>("3.9"), Ok(3));
    assert_eq!(from_str::<i64>("-3.9"), Ok(-3));
    assert_eq!(from_str::<i64>("1.5e3"), Ok(1500));
    assert_eq!(from_str::<i64>("2.5e-1"), Ok(0));
    assert_eq!(from_str::<u64>("0.0e99999999999999999999"), Ok(0));
    assert_eq!(
        from_str::<i64>("2e20"),
        Err(Error::Custom("integer overflow".to_string()))
    );
    assert_eq!(
        from_str::<u64>("-0.5"),
        Err(Error::TypeMismatch { expected: "unsigned int", got: "number" })
    );
}

#[test]
fn decode_reads_string_bytes() {
    let v = vayload_kit::parse_value("'héllo'").unwrap();
    let b = vayload_kit::de::decode_bytes(&v).unwrap();
    assert_eq!(b, "héllo".as_bytes().to_vec());
    let arr = vayload_kit::parse_value("[1]").unwrap();
    assert!(vayload_kit::de::decode_bytes(&arr).is_err());
}

#[test]
fn decode_single_characters() {
    assert_eq!(from_str::<char>("'x'"), Ok('x'));
    assert_eq!(
        from_str::<char>("'xy'"),
        Err(Error::Custom("expected single char".to_string()))
    );
}

#[test]
fn decode_reads_tokens_directly() {
    let mut d = vayload_kit::de::Deserializer::from_str("  true  ");
    assert_eq!(d.read_bool(), Ok(true));
    let mut d = vayload_kit::de::Deserializer::from_str("'hi'");
    assert_eq!(d.read_string(), Ok("hi".to_string()));
    let mut d = vayload_kit::de::Deserializer::from_str("[1]");
    assert_eq!(
        d.read_value(),
        Ok(Value::Array(vec![Value::Number(Number::Int(1))]))
    );
}
