//! Round trips through application-defined records, variants, options and
//! collections, with both directions of the typed binding written out by
//! hand.

use vayload_kit::de::FromValue;
use vayload_kit::error::Error;
use vayload_kit::ser::{CompactFormatter, ToValue, ValueSerializer};
use vayload_kit::value::{ObjectMap, Value};
use vayload_kit::{from_str, parse_value, to_string};

#[derive(Debug, PartialEq)]
struct User {
    name: String,
    age: u32,
    active: bool,
}

impl ToValue for User {
    fn to_value(&self) -> Result<Value, Error> {
        let mut m = ObjectMap::new();
        m.insert("name".to_string(), ValueSerializer::serialize_str(&self.name));
        m.insert("age".to_string(), ValueSerializer::serialize_u32(self.age));
        m.insert("active".to_string(), ValueSerializer::serialize_bool(self.active));
        Ok(ValueSerializer::serialize_map(m))
    }
}

impl FromValue for User {
    fn from_value(v: &Value) -> Result<User, Error> {
        let m = v.as_object()?;
        Ok(User {
            name: String::from_value(m.get("name").ok_or(Error::UnexpectedEof)?)?,
            age: u32::from_value(m.get("age").ok_or(Error::UnexpectedEof)?)?,
            active: bool::from_value(m.get("active").ok_or(Error::UnexpectedEof)?)?,
        })
    }
}

#[test]
fn test_serde_simple_struct() {
    let user = User { name: "Alice".into(), age: 30, active: true };
    let json = to_string(&user).unwrap();
    let decoded: User = from_str(&json).unwrap();
    assert_eq!(user, decoded);
}

#[derive(Debug, PartialEq)]
struct Address {
    city: String,
    zip: String,
}

#[derive(Debug, PartialEq)]
struct Person {
    name: String,
    address: Address,
}

impl ToValue for Person {
    fn to_value(&self) -> Result<Value, Error> {
        let mut am = ObjectMap::new();
        am.insert("city".to_string(), ValueSerializer::serialize_str(&self.address.city));
        am.insert("zip".to_string(), ValueSerializer::serialize_str(&self.address.zip));
        let mut m = ObjectMap::new();
        m.insert("name".to_string(), ValueSerializer::serialize_str(&self.name));
        m.insert("address".to_string(), ValueSerializer::serialize_map(am));
        Ok(ValueSerializer::serialize_map(m))
    }
}

impl FromValue for Person {
    fn from_value(v: &Value) -> Result<Person, Error> {
        let m = v.as_object()?;
        let am = m.get("address").ok_or(Error::UnexpectedEof)?.as_object()?;
        Ok(Person {
            name: String::from_value(m.get("name").ok_or(Error::UnexpectedEof)?)?,
            address: Address {
                city: String::from_value(am.get("city").ok_or(Error::UnexpectedEof)?)?,
                zip: String::from_value(am.get("zip").ok_or(Error::UnexpectedEof)?)?,
            },
        })
    }
}

#[test]
fn test_serde_nested_structs() {
    let person = Person {
        name: "Bob".into(),
        address: Address { city: "NYC".into(), zip: "10001".into() },
    };
    let json = to_string(&person).unwrap();
    let decoded: Person = from_str(&json).unwrap();
    assert_eq!(person, decoded);
}

#[derive(Debug, PartialEq, Clone, Copy)]
enum Status {
    Active,
    Inactive,
    Pending,
}

impl ToValue for Status {
    fn to_value(&self) -> Result<Value, Error> {
        let name = match self {
            Status::Active => "Active",
            Status::Inactive => "Inactive",
            Status::Pending => "Pending",
        };
        Ok(ValueSerializer::serialize_unit_variant(name))
    }
}

impl FromValue for Status {
    fn from_value(v: &Value) -> Result<Status, Error> {
        let (name, _) = v.variant_parts()?;
        match name.as_str() {
            "Active" => Ok(Status::Active),
            "Inactive" => Ok(Status::Inactive),
            "Pending" => Ok(Status::Pending),
            _ => Err(Error::Custom("unknown variant".to_string())),
        }
    }
}

#[test]
fn test_serde_enum_variants() {
    for status in [Status::Active, Status::Inactive, Status::Pending] {
        let json = to_string(&status).unwrap();
        let decoded: Status = from_str(&json).unwrap();
        assert_eq!(status, decoded);
    }
}

#[derive(Debug, PartialEq)]
enum Message {
    Quit,
    Move { x: i32, y: i32 },
    Write(String),
    Color(u8, u8, u8),
}

impl ToValue for Message {
    fn to_value(&self) -> Result<Value, Error> {
        match self {
            Message::Quit => Ok(ValueSerializer::serialize_unit_variant("Quit")),
            Message::Move { x, y } => {
                let mut fields = ObjectMap::new();
                fields.insert("x".to_string(), ValueSerializer::serialize_i32(*x));
                fields.insert("y".to_string(), ValueSerializer::serialize_i32(*y));
                Ok(ValueSerializer::serialize_newtype_variant(
                    "Move",
                    ValueSerializer::serialize_map(fields),
                ))
            }
            Message::Write(s) => Ok(ValueSerializer::serialize_newtype_variant(
                "Write",
                ValueSerializer::serialize_str(s),
            )),
            Message::Color(r, g, b) => {
                let arr = vec![
                    ValueSerializer::serialize_u8(*r),
                    ValueSerializer::serialize_u8(*g),
                    ValueSerializer::serialize_u8(*b),
                ];
                Ok(ValueSerializer::serialize_newtype_variant(
                    "Color",
                    ValueSerializer::serialize_seq(arr),
                ))
            }
        }
    }
}

impl FromValue for Message {
    fn from_value(v: &Value) -> Result<Message, Error> {
        let (name, payload) = v.variant_parts()?;
        match (name.as_str(), payload) {
            ("Quit", None) => Ok(Message::Quit),
            ("Move", Some(p)) => {
                let m = p.as_object()?;
                Ok(Message::Move {
                    x: i32::from_value(m.get("x").ok_or(Error::UnexpectedEof)?)?,
                    y: i32::from_value(m.get("y").ok_or(Error::UnexpectedEof)?)?,
                })
            }
            ("Write", Some(p)) => Ok(Message::Write(String::from_value(p)?)),
            ("Color", Some(p)) => {
                let items = p.as_array()?;
                if items.len() != 3 {
                    return Err(Error::Custom("expected three fields".to_string()));
                }
                Ok(Message::Color(
                    u8::from_value(&items[0])?,
                    u8::from_value(&items[1])?,
                    u8::from_value(&items[2])?,
                ))
            }
            _ => Err(Error::Custom("unknown variant".to_string())),
        }
    }
}

#[test]
fn test_serde_enum_with_data() {
    let msgs = vec![
        Message::Quit,
        Message::Move { x: 10, y: 20 },
        Message::Write("hello".into()),
        Message::Color(255, 128, 0),
    ];

    for msg in msgs {
        let json = to_string(&msg).unwrap();
        let decoded: Message = from_str(&json).unwrap();
        assert_eq!(msg, decoded);
    }
}

#[derive(Debug, PartialEq)]
struct Optional {
    required: String,
    optional: Option<i32>,
}

impl ToValue for Optional {
    fn to_value(&self) -> Result<Value, Error> {
        let mut m = ObjectMap::new();
        m.insert("required".to_string(), ValueSerializer::serialize_str(&self.required));
        m.insert("optional".to_string(), self.optional.to_value()?);
        Ok(ValueSerializer::serialize_map(m))
    }
}

impl FromValue for Optional {
    fn from_value(v: &Value) -> Result<Optional, Error> {
        let m = v.as_object()?;
        Ok(Optional {
            required: String::from_value(m.get("required").ok_or(Error::UnexpectedEof)?)?,
            optional: Option::<i32>::from_value(m.get("optional").ok_or(Error::UnexpectedEof)?)?,
        })
    }
}

#[test]
fn test_serde_option_types() {
    let cases = vec![
        Optional { required: "test".into(), optional: Some(42) },
        Optional { required: "test".into(), optional: None },
        Optional { required: "test".into(), optional: Some(0) },
    ];

    for case in cases {
        let json = to_string(&case).unwrap();
        let decoded: Optional = from_str(&json).unwrap();
        assert_eq!(case, decoded);
    }
}

#[derive(Debug, PartialEq)]
struct Collections {
    vec: Vec<i32>,
    empty_vec: Vec<String>,
}

impl ToValue for Collections {
    fn to_value(&self) -> Result<Value, Error> {
        let mut m = ObjectMap::new();
        m.insert("vec".to_string(), self.vec.to_value()?);
        m.insert("empty_vec".to_string(), self.empty_vec.to_value()?);
        Ok(ValueSerializer::serialize_map(m))
    }
}

impl FromValue for Collections {
    fn from_value(v: &Value) -> Result<Collections, Error> {
        let m = v.as_object()?;
        Ok(Collections {
            vec: Vec::<i32>::from_value(m.get("vec").ok_or(Error::UnexpectedEof)?)?,
            empty_vec: Vec::<String>::from_value(m.get("empty_vec").ok_or(Error::UnexpectedEof)?)?,
        })
    }
}

#[test]
fn test_serde_collections() {
    let data = Collections { vec: vec![1, 2, 3], empty_vec: vec![] };
    let json = to_string(&data).unwrap();
    let decoded: Collections = from_str(&json).unwrap();
    assert_eq!(data, decoded);
}

#[test]
fn test_serde_tuple() {
    let tuple: (i32, String, bool) = (42, "hello".into(), true);
    let encoded = ValueSerializer::serialize_seq(vec![
        ValueSerializer::serialize_i32(tuple.0),
        ValueSerializer::serialize_str(&tuple.1),
        ValueSerializer::serialize_bool(tuple.2),
    ]);
    let json = CompactFormatter::new(false, None).format(&encoded).unwrap();
    let items = match parse_value(&json).unwrap() {
        Value::Array(items) => items,
        other => panic!("expected array, got {:?}", other),
    };
    let decoded: (i32, String, bool) = (
        i32::from_value(&items[0]).unwrap(),
        String::from_value(&items[1]).unwrap(),
        bool::from_value(&items[2]).unwrap(),
    );
    assert_eq!(tuple, decoded);
}

#[derive(Debug, PartialEq)]
struct Unit;

impl ToValue for Unit {
    fn to_value(&self) -> Result<Value, Error> {
        Ok(ValueSerializer::serialize_none())
    }
}

impl FromValue for Unit {
    fn from_value(v: &Value) -> Result<Unit, Error> {
        if v.is_null() {
            Ok(Unit)
        } else {
            Err(Error::TypeMismatch { expected: "null", got: v.kind_name() })
        }
    }
}

#[test]
fn test_serde_unit_struct() {
    let unit = Unit;
    let json = to_string(&unit).unwrap();
    let decoded: Unit = from_str(&json).unwrap();
    assert_eq!(unit, decoded);
}

#[derive(Debug, PartialEq)]
struct Wrapper(i32);

impl ToValue for Wrapper {
    fn to_value(&self) -> Result<Value, Error> {
        Ok(ValueSerializer::serialize_i32(self.0))
    }
}

impl FromValue for Wrapper {
    fn from_value(v: &Value) -> Result<Wrapper, Error> {
        Ok(Wrapper(i32::from_value(v)?))
    }
}

#[test]
fn test_serde_newtype_struct() {
    let wrapped = Wrapper(123);
    let json = to_string(&wrapped).unwrap();
    let decoded: Wrapper = from_str(&json).unwrap();
    assert_eq!(wrapped, decoded);
}

#[derive(Debug, PartialEq)]
struct Text {
    content: String,
}

impl ToValue for Text {
    fn to_value(&self) -> Result<Value, Error> {
        let mut m = ObjectMap::new();
        m.insert("content".to_string(), ValueSerializer::serialize_str(&self.content));
        Ok(ValueSerializer::serialize_map(m))
    }
}

impl FromValue for Text {
    fn from_value(v: &Value) -> Result<Text, Error> {
        let m = v.as_object()?;
        Ok(Text { content: String::from_value(m.get("content").ok_or(Error::UnexpectedEof)?)? })
    }
}

#[test]
fn test_serde_escaped_strings() {
    let cases = vec![
        "Hello\nWorld",
        "Tab\there",
        "Quote: \"test\"",
        "Backslash: \\",
        "Unicode: \u{1F600}",
    ];

    for content in cases {
        let text = Text { content: content.into() };
        let json = to_string(&text).unwrap();
        let decoded: Text = from_str(&json).unwrap();
        assert_eq!(text, decoded);
    }
}
