//! The encode path and the two emitters: compact text, pretty text, special
//! floats, and round trips through local record types.

use vayload_kit::de::FromValue;
use vayload_kit::error::Error;
use vayload_kit::ser::{CompactFormatter, PrettyFormatter, ToValue, ValueSerializer};
use vayload_kit::value::{Number, ObjectMap, Value};
use vayload_kit::{from_str, parse_value, to_string, to_string_pretty};

fn float_value(v: f64) -> Value {
    if v.is_nan() {
        Value::Number(Number::NaN)
    } else if v.is_infinite() {
        if v > 0.0 {
            Value::Number(Number::Infinity)
        } else {
            Value::Number(Number::NegInfinity)
        }
    } else if v.fract() == 0.0 {
        Value::Number(Number::Float(format!("{:.1}", v)))
    } else {
        Value::Number(Number::Float(format!("{}", v)))
    }
}

fn float_of(v: &Value) -> f64 {
    match v {
        Value::Number(Number::Float(t)) => t.parse::<f64>().unwrap(),
        Value::Number(Number::Int(i)) => *i as f64,
        Value::Number(Number::Uint(u)) => *u as f64,
        other => panic!("expected number, got {:?}", other),
    }
}

#[derive(Debug, PartialEq)]
struct SPoint {
    x: f64,
    y: f64,
}

impl ToValue for SPoint {
    fn to_value(&self) -> Result<Value, Error> {
        let mut m = ObjectMap::new();
        m.insert("x".to_string(), float_value(self.x));
        m.insert("y".to_string(), float_value(self.y));
        Ok(ValueSerializer::serialize_map(m))
    }
}

impl FromValue for SPoint {
    fn from_value(v: &Value) -> Result<SPoint, Error> {
        let m = v.as_object()?;
        Ok(SPoint {
            x: float_of(m.get("x").ok_or(Error::UnexpectedEof)?),
            y: float_of(m.get("y").ok_or(Error::UnexpectedEof)?),
        })
    }
}

#[test]
fn test_serialize_struct() {
    let s = to_string(&SPoint { x: 1.0, y: 2.5 }).unwrap();
    let p: SPoint = from_str(&s).unwrap();
    assert_eq!(p.x, 1.0);
    assert_eq!(p.y, 2.5);
}

#[test]
fn test_serialize_vec() {
    let s = to_string(&vec![1i32, 2, 3]).unwrap();
    let v: Vec<i32> = from_str(&s).unwrap();
    assert_eq!(v, vec![1, 2, 3]);
}

#[test]
fn test_serialize_special_floats() {
    let f = CompactFormatter::new(false, None);
    assert_eq!(f.format(&float_value(f64::NAN)).unwrap(), "NaN");
    assert_eq!(f.format(&float_value(f64::INFINITY)).unwrap(), "Infinity");
    assert_eq!(f.format(&float_value(f64::NEG_INFINITY)).unwrap(), "-Infinity");
}

#[test]
fn test_pretty_print() {
    let s = to_string_pretty(&SPoint { x: 1.0, y: 2.5 }).unwrap();
    assert!(s.contains('\n'));
    assert!(s.contains("    "), "Expected 4-space indent");
}

#[derive(Debug, PartialEq)]
struct Complex {
    name: String,
    values: Vec<f64>,
    nested: Option<Box<Complex>>,
    flag: bool,
}

impl ToValue for Complex {
    fn to_value(&self) -> Result<Value, Error> {
        let mut m = ObjectMap::new();
        m.insert("name".to_string(), ValueSerializer::serialize_str(&self.name));
        let vals: Vec<Value> = self.values.iter().map(|v| float_value(*v)).collect();
        m.insert("values".to_string(), ValueSerializer::serialize_seq(vals));
        let nested = match &self.nested {
            Some(inner) => inner.to_value()?,
            None => ValueSerializer::serialize_none(),
        };
        m.insert("nested".to_string(), nested);
        m.insert("flag".to_string(), ValueSerializer::serialize_bool(self.flag));
        Ok(ValueSerializer::serialize_map(m))
    }
}

impl FromValue for Complex {
    fn from_value(v: &Value) -> Result<Complex, Error> {
        let m = v.as_object()?;
        let name = String::from_value(m.get("name").ok_or(Error::UnexpectedEof)?)?;
        let values = match m.get("values").ok_or(Error::UnexpectedEof)? {
            Value::Array(items) => items.iter().map(float_of).collect(),
            other => return Err(Error::TypeMismatch { expected: "array", got: other.kind_name() }),
        };
        let nested = match m.get("nested").ok_or(Error::UnexpectedEof)? {
            Value::Null => None,
            other => Some(Box::new(Complex::from_value(other)?)),
        };
        let flag = bool::from_value(m.get("flag").ok_or(Error::UnexpectedEof)?)?;
        Ok(Complex { name, values, nested, flag })
    }
}

#[test]
fn test_roundtrip_complex() {
    let original = Complex {
        name: "test".into(),
        values: vec![1.1, 2.2, 3.3],
        nested: Some(Box::new(Complex {
            name: "inner".into(),
            values: vec![],
            nested: None,
            flag: false,
        })),
        flag: true,
    };

    let s = to_string(&original).unwrap();
    let decoded: Complex = from_str(&s).unwrap();
    assert_eq!(original, decoded);
}

#[test]
fn test_indent_default_4_spaces() {
    let obj = SPoint { x: 1.0, y: 2.5 };
    let json = to_string_pretty(&obj).unwrap();
    assert!(json.contains("\n    "), "Expected 4-space indent, got: {}", json);
}

#[derive(Debug)]
struct Inner {
    value: i32,
}

#[derive(Debug)]
struct Outer {
    inner: Inner,
}

impl ToValue for Outer {
    fn to_value(&self) -> Result<Value, Error> {
        let mut im = ObjectMap::new();
        im.insert("value".to_string(), ValueSerializer::serialize_i32(self.inner.value));
        let mut m = ObjectMap::new();
        m.insert("inner".to_string(), ValueSerializer::serialize_map(im));
        Ok(ValueSerializer::serialize_map(m))
    }
}

#[test]
fn test_indent_nested_objects() {
    let data = Outer { inner: Inner { value: 42 } };
    let json = to_string_pretty(&data).unwrap();

    println!("{}", json);
    assert!(json.contains("\n    inner"), "Level 1 indent should be 4 spaces");
    assert!(json.contains("\n        value"), "Level 2 indent should be 8 spaces");
}

#[test]
fn test_indent_arrays() {
    let arr = vec![vec![1i32, 2], vec![3, 4]];
    let json = to_string_pretty(&arr).unwrap();
    assert!(json.contains("\n    ["), "Nested array should have 4-space indent");
    assert!(json.contains("\n        1"), "Array elements should have 8-space indent");
}

#[derive(Debug)]
struct Item {
    name: String,
    values: Vec<i32>,
}

#[derive(Debug)]
struct Mixed {
    items: Vec<Item>,
}

impl ToValue for Mixed {
    fn to_value(&self) -> Result<Value, Error> {
        let mut arr: Vec<Value> = Vec::new();
        for item in &self.items {
            let mut im = ObjectMap::new();
            im.insert("name".to_string(), ValueSerializer::serialize_str(&item.name));
            let vals: Vec<Value> =
                item.values.iter().map(|v| ValueSerializer::serialize_i32(*v)).collect();
            im.insert("values".to_string(), ValueSerializer::serialize_seq(vals));
            arr.push(ValueSerializer::serialize_map(im));
        }
        let mut m = ObjectMap::new();
        m.insert("items".to_string(), ValueSerializer::serialize_seq(arr));
        Ok(ValueSerializer::serialize_map(m))
    }
}

#[test]
fn test_indent_mixed() {
    let data = Mixed {
        items: vec![
            Item { name: "a".into(), values: vec![1, 2] },
            Item { name: "b".into(), values: vec![3, 4] },
        ],
    };

    let json = to_string_pretty(&data).unwrap();
    assert!(json.contains("\n    items"), "First level should be 4 spaces, got: {}", json);
    assert!(
        json.contains("\n        {"),
        "Second level array items should be 8 spaces, got: {}",
        json
    );
    assert!(
        json.contains("\n            name"),
        "Third level object keys should be 12 spaces, got: {}",
        json
    );
    assert!(
        json.contains("\n                1"),
        "Fourth level array values should be 16 spaces, got: {}",
        json
    );
}

#[derive(Debug)]
struct QuotedKeys {
    pub name: String,
    pub age: i32,
    pub address: String,
}

impl FromValue for QuotedKeys {
    fn from_value(v: &Value) -> Result<QuotedKeys, Error> {
        let m = v.as_object()?;
        Ok(QuotedKeys {
            name: String::from_value(m.get("name").ok_or(Error::UnexpectedEof)?)?,
            age: i32::from_value(m.get("age").ok_or(Error::UnexpectedEof)?)?,
            address: String::from_value(m.get("address").ok_or(Error::UnexpectedEof)?)?,
        })
    }
}

impl ToValue for QuotedKeys {
    fn to_value(&self) -> Result<Value, Error> {
        let mut m = ObjectMap::new();
        m.insert("name".to_string(), ValueSerializer::serialize_str(&self.name));
        m.insert("age".to_string(), ValueSerializer::serialize_i32(self.age));
        m.insert("address".to_string(), ValueSerializer::serialize_str(&self.address));
        Ok(ValueSerializer::serialize_map(m))
    }
}

#[test]
fn parse_with_quoted_keys() {
    let json = r#"{
        "name": "John Doe",
        "age": 30,
        "address": "123 Main St"
    }"#;

    let data: QuotedKeys = from_str(json).unwrap();
    assert_eq!(data.name, "John Doe");
    assert_eq!(data.age, 30);
    assert_eq!(data.address, "123 Main St");

    let value = data.to_value().unwrap();
    let formatter = PrettyFormatter::new("    ", true);
    let serialized = formatter.format(&value).unwrap();
    assert!(serialized.contains("\n    \"name\""));
    assert!(serialized.contains("\n    \"age\""));
    assert!(serialized.contains("\n    \"address\""));
}

#[test]
fn pretty_indentation_places_nested_keys() {
    let v = parse_value("{a: {b: 1}}").unwrap();
    let formatter = PrettyFormatter::new("    ", false);
    let s = formatter.format(&v).unwrap();
    assert_eq!(s, "{\n    a: {\n        b: 1\n    }\n}");
    assert!(s.contains("\n        b"));
    assert!(s.contains("\n    a"));
}
