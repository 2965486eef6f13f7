//! A self-contained codec for a human-friendly, JSON-compatible configuration
//! format: a scanner and recursive-descent parser that tolerate comments,
//! unquoted and single-quoted keys, trailing commas, hexadecimal and special
//! numeric literals and rich string escapes; a generic tagged value model; a
//! typed binding layer between that model and application-defined types; and
//! compact and indented text emitters.

use vstd::prelude::*;

pub mod auth;
pub mod config;
pub mod credentials_manager;
pub mod de;
pub mod error;
pub mod manifest;
pub mod parser;
pub mod roundtrip;
pub mod ser;
pub mod text;
pub mod types;
pub mod utils;
pub mod value;

use crate::error::{ErrModel, Error};
use crate::parser::{spec_parse_doc, Parser};
use crate::value::{ValModel, Value};

verus! {

/// Parses a whole document into a [`Value`]; trailing data that is not
/// whitespace or comment is an error.
pub fn parse_value(input: &str) -> (r: Result<Value, Error>)
    ensures
        match r {
            Ok(v) => spec_parse_doc(input@) == Ok::<ValModel, ErrModel>(v@),
            Err(e) => spec_parse_doc(input@) matches Err(m) && e@ == m,
        },
{
    let mut parser = Parser::new(input);
    let val = match parser.parse_value() {
        Ok(v) => v,
        Err(e) => {
            return Err(e);
        },
    };
    parser.skip_whitespace_and_comments();
    if parser.remaining() > 0 {
        return Err(Error::TrailingData(parser.pos()));
    }
    Ok(val)
}

/// Parses a whole document and decodes it straight into a typed target. A
/// document the parser refuses yields the parser's own error; only a parsed
/// document reaches the target's decoder.
pub fn from_str<T: crate::de::FromValue>(input: &str) -> (r: Result<T, Error>)
    ensures
        spec_parse_doc(input@) matches Err(m) ==> (r matches Err(e) && e@ == m),
        r matches Ok(_) ==> spec_parse_doc(input@) is Ok,
{
    match parse_value(input) {
        Ok(v) => T::from_value(&v),
        Err(e) => Err(e),
    }
}

/// Encodes a source value and serializes it compactly. Whatever the
/// encoding of `value` yields, a successful result is the compact text of
/// some value within the depth ceiling.
pub fn to_string<T: crate::ser::ToValue>(value: &T) -> (r: Result<String, Error>)
    ensures
        r matches Ok(t) ==> exists|v: ValModel|
            t@ == #[trigger] crate::ser::emit_compact(v, false) && crate::ser::fits_depth(
                v,
                0,
                crate::ser::MAX_DEPTH as int,
            ),
{
    crate::ser::serialize(value)
}

/// Encodes a source value and serializes it with four-space indentation.
/// Whatever the encoding of `value` yields, a successful result is the
/// indented text of some value within the depth ceiling.
pub fn to_string_pretty<T: crate::ser::ToValue>(value: &T) -> (r: Result<String, Error>)
    ensures
        r matches Ok(t) ==> exists|v: ValModel|
            t@ == #[trigger] crate::ser::emit_pretty(v, "    "@, false, 0)
                && crate::ser::fits_depth(v, 0, crate::ser::MAX_DEPTH as int),
{
    let v = match value.to_value() {
        Ok(v) => v,
        Err(e) => {
            return Err(e);
        },
    };
    let formatter = crate::ser::PrettyFormatter::new("    ", false);
    let r = formatter.format(&v);
    proof {
        if r is Ok {
            let t = r->Ok_0;
            assert(t@ == crate::ser::emit_pretty(v@, "    "@, false, 0) && crate::ser::fits_depth(
                v@,
                0,
                crate::ser::MAX_DEPTH as int,
            ));
        }
    }
    r
}

} // verus!

