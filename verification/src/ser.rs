//! The encode adapter and the text emitters. The adapter builds [`Value`]
//! trees out of primitive and composite pieces; the compact and the pretty
//! formatter serialize a tree back to text, guarding recursion depth.
//!
//! The specification functions here are the mathematical emission: what text
//! a value turns into.

use vstd::prelude::*;

use crate::error::{ErrModel, Error};
use crate::text::{dec_int, digit_char};
use crate::value::{arr_view, NumModel, Number, ObjectMap, ValModel, Value};

verus! {

/// The deepest nesting either emitter serializes.
pub const MAX_DEPTH: usize = 512;

// ---------------------------------------------------------------------------
// Emission, mathematically
// ---------------------------------------------------------------------------

/// The lower-case hexadecimal digit character for `d`.
pub open spec fn hex_digit_char(d: int) -> char {
    if d < 10 {
        digit_char(d)
    } else if d == 10 {
        'a'
    } else if d == 11 {
        'b'
    } else if d == 12 {
        'c'
    } else if d == 13 {
        'd'
    } else if d == 14 {
        'e'
    } else {
        'f'
    }
}

/// How one character is written inside a quoted string: quotes, backslashes
/// and control characters are escaped, everything else stands as itself.
pub open spec fn esc_char(c: char) -> Seq<char> {
    if c == '"' {
        seq!['\\', '"']
    } else if c == '\\' {
        seq!['\\', '\\']
    } else if c == '\u{8}' {
        seq!['\\', 'b']
    } else if c == '\u{c}' {
        seq!['\\', 'f']
    } else if c == '\n' {
        seq!['\\', 'n']
    } else if c == '\r' {
        seq!['\\', 'r']
    } else if c == '\t' {
        seq!['\\', 't']
    } else if (c as u32) < 0x20 {
        seq![
            '\\',
            'u',
            '0',
            '0',
            hex_digit_char(c as u32 as int / 16),
            hex_digit_char(c as u32 as int % 16),
        ]
    } else {
        seq![c]
    }
}

/// The escaped body of a string, character by character.
pub open spec fn emit_escaped(t: Seq<char>) -> Seq<char>
    decreases t.len(),
{
    if t.len() == 0 {
        Seq::empty()
    } else {
        esc_char(t[0]) + emit_escaped(t.drop_first())
    }
}

/// A quoted, escaped string literal.
pub open spec fn emit_quoted(t: Seq<char>) -> Seq<char> {
    seq!['"'] + emit_escaped(t) + seq!['"']
}

/// Whether `t` is safe to write as an unquoted key: an ASCII letter, `_` or
/// `$`, then ASCII letters, digits, `_` or `$`.
pub open spec fn spec_is_ident(t: Seq<char>) -> bool {
    t.len() > 0 && (crate::parser::is_ascii_alpha(t[0]) || t[0] == '_' || t[0] == '$') && (forall|
        i: int,
    |
        1 <= i < t.len() ==> (crate::parser::is_ascii_alpha(#[trigger] t[i])
            || crate::parser::is_digit(t[i]) || t[i] == '_' || t[i] == '$'))
}

/// An object key: bare when identifier-safe and unquoted keys are wanted,
/// quoted otherwise.
pub open spec fn emit_key(k: Seq<char>, quote_keys: bool) -> Seq<char> {
    if !quote_keys && spec_is_ident(k) {
        k
    } else {
        emit_quoted(k)
    }
}

/// The text of a number: decimal digits for the integer variants, the kept
/// literal for a float, the bare keywords for the special values.
pub open spec fn emit_num(m: NumModel) -> Seq<char> {
    match m {
        NumModel::Int(i) => dec_int(i),
        NumModel::Uint(u) => dec_int(u),
        NumModel::Float(t) => t,
        NumModel::NaN => crate::parser::lit_nan(),
        NumModel::Infinity => crate::parser::lit_infinity(),
        NumModel::NegInfinity => seq!['-'] + crate::parser::lit_infinity(),
    }
}

/// Compact text of a value: no inserted whitespace.
pub open spec fn emit_compact(v: ValModel, qk: bool) -> Seq<char>
    decreases v, 1int,
{
    match v {
        ValModel::Null => crate::parser::lit_null(),
        ValModel::Bool(b) => if b {
            crate::parser::lit_true()
        } else {
            crate::parser::lit_false()
        },
        ValModel::Number(m) => emit_num(m),
        ValModel::Str(t) => emit_quoted(t),
        ValModel::Arr(items) => seq!['['] + emit_compact_items(items, qk) + seq![']'],
        ValModel::Obj(entries) => seq!['{'] + emit_compact_entries(entries, qk) + seq!['}'],
    }
}

/// Compact text of an array's elements, comma separated.
pub open spec fn emit_compact_items(items: Seq<ValModel>, qk: bool) -> Seq<char>
    decreases items, 2int,
{
    if items.len() == 0 {
        Seq::empty()
    } else {
        emit_compact(items[0], qk) + emit_compact_items_rest(items.drop_first(), qk)
    }
}

/// Compact text of the elements after the first, each preceded by a comma.
pub open spec fn emit_compact_items_rest(items: Seq<ValModel>, qk: bool) -> Seq<char>
    decreases items, 2int,
{
    if items.len() == 0 {
        Seq::empty()
    } else {
        seq![','] + emit_compact(items[0], qk) + emit_compact_items_rest(items.drop_first(), qk)
    }
}

/// Compact text of an object's entries, comma separated.
pub open spec fn emit_compact_entries(entries: Seq<(Seq<char>, ValModel)>, qk: bool) -> Seq<char>
    decreases entries, 2int,
{
    if entries.len() == 0 {
        Seq::empty()
    } else {
        emit_key(entries[0].0, qk) + seq![':'] + emit_compact(entries[0].1, qk)
            + emit_compact_entries_rest(entries.drop_first(), qk)
    }
}

/// Compact text of the entries after the first, each preceded by a comma.
pub open spec fn emit_compact_entries_rest(
    entries: Seq<(Seq<char>, ValModel)>,
    qk: bool,
) -> Seq<char>
    decreases entries, 2int,
{
    if entries.len() == 0 {
        Seq::empty()
    } else {
        seq![','] + emit_key(entries[0].0, qk) + seq![':'] + emit_compact(entries[0].1, qk)
            + emit_compact_entries_rest(entries.drop_first(), qk)
    }
}

/// Whether emitting `v` at depth `d` stays within the ceiling `max`.
pub open spec fn fits_depth(v: ValModel, d: int, max: int) -> bool
    decreases v, 1int,
{
    d <= max && match v {
        ValModel::Arr(items) => fits_items(items, d + 1, max),
        ValModel::Obj(entries) => fits_entries(entries, d + 1, max),
        _ => true,
    }
}

/// Whether every element fits at depth `d`.
pub open spec fn fits_items(items: Seq<ValModel>, d: int, max: int) -> bool
    decreases items, 2int,
{
    if items.len() == 0 {
        true
    } else {
        fits_depth(items[0], d, max) && fits_items(items.drop_first(), d, max)
    }
}

/// Whether every entry's value fits at depth `d`.
pub open spec fn fits_entries(entries: Seq<(Seq<char>, ValModel)>, d: int, max: int) -> bool
    decreases entries, 2int,
{
    if entries.len() == 0 {
        true
    } else {
        fits_depth(entries[0].1, d, max) && fits_entries(entries.drop_first(), d, max)
    }
}

/// `fits_items` holds exactly when each element fits.
pub proof fn lemma_fits_items(items: Seq<ValModel>, d: int, max: int)
    ensures
        fits_items(items, d, max) <==> (forall|i: int|
            0 <= i < items.len() ==> fits_depth(#[trigger] items[i], d, max)),
    decreases items.len(),
{
    if items.len() > 0 {
        lemma_fits_items(items.drop_first(), d, max);
        if forall|i: int| 0 <= i < items.len() ==> fits_depth(#[trigger] items[i], d, max) {
            assert forall|i: int| 0 <= i < items.drop_first().len() implies fits_depth(
                #[trigger] items.drop_first()[i],
                d,
                max,
            ) by {
                assert(items.drop_first()[i] == items[i + 1]);
            }
        }
        if fits_items(items, d, max) {
            assert forall|i: int| 0 <= i < items.len() implies fits_depth(
                #[trigger] items[i],
                d,
                max,
            ) by {
                if i > 0 {
                    assert(items.drop_first()[i - 1] == items[i]);
                }
            }
        }
    }
}

/// `fits_entries` holds exactly when each entry's value fits.
pub proof fn lemma_fits_entries(entries: Seq<(Seq<char>, ValModel)>, d: int, max: int)
    ensures
        fits_entries(entries, d, max) <==> (forall|i: int|
            0 <= i < entries.len() ==> fits_depth(#[trigger] entries[i].1, d, max)),
    decreases entries.len(),
{
    if entries.len() > 0 {
        lemma_fits_entries(entries.drop_first(), d, max);
        if forall|i: int| 0 <= i < entries.len() ==> fits_depth(#[trigger] entries[i].1, d, max) {
            assert forall|i: int| 0 <= i < entries.drop_first().len() implies fits_depth(
                #[trigger] entries.drop_first()[i].1,
                d,
                max,
            ) by {
                assert(entries.drop_first()[i] == entries[i + 1]);
            }
        }
        if fits_entries(entries, d, max) {
            assert forall|i: int| 0 <= i < entries.len() implies fits_depth(
                #[trigger] entries[i].1,
                d,
                max,
            ) by {
                if i > 0 {
                    assert(entries.drop_first()[i - 1] == entries[i]);
                }
            }
        }
    }
}

// ---------------------------------------------------------------------------
// Shared emitting helpers
// ---------------------------------------------------------------------------

/// The lower-case hexadecimal digit character for `n`.
pub fn hex_digit(n: u8) -> (c: char)
    requires
        n < 16,
    ensures
        c == hex_digit_char(n as int),
{
    match n {
        0 => '0',
        1 => '1',
        2 => '2',
        3 => '3',
        4 => '4',
        5 => '5',
        6 => '6',
        7 => '7',
        8 => '8',
        9 => '9',
        10 => 'a',
        11 => 'b',
        12 => 'c',
        13 => 'd',
        14 => 'e',
        _ => 'f',
    }
}

/// Writes `s` with escapes for quotes, backslashes and control characters,
/// quoted when `quote` is set.
pub fn write_escaped_str(out: &mut Vec<char>, s: &str, quote: bool)
    ensures
        final (out)@ == old(out)@ + if quote {
            emit_quoted(s@)
        } else {
            emit_escaped(s@)
        },
{
    let cs = crate::text::chars_of(s);
    if quote {
        out.push('"');
    }
    let ghost base = out@;
    let n = cs.len();
    let mut i: usize = 0;
    while i < n
        invariant
            n == cs@.len(),
            cs@ == s@,
            i <= n,
            out@ == base + emit_escaped(s@.subrange(0, i as int)),
        decreases n - i,
    {
        let c = cs[i];
        let cu = c as u32;
        proof {
            lemma_emit_escaped_snoc(s@.subrange(0, i as int), c);
            assert(s@.subrange(0, i + 1) =~= s@.subrange(0, i as int).push(c));
        }
        if c == '"' {
            out.push('\\');
            out.push('"');
        } else if c == '\\' {
            out.push('\\');
            out.push('\\');
        } else if c == '\u{8}' {
            out.push('\\');
            out.push('b');
        } else if c == '\u{c}' {
            out.push('\\');
            out.push('f');
        } else if c == '\n' {
            out.push('\\');
            out.push('n');
        } else if c == '\r' {
            out.push('\\');
            out.push('r');
        } else if c == '\t' {
            out.push('\\');
            out.push('t');
        } else if cu < 0x20 {
            out.push('\\');
            out.push('u');
            out.push('0');
            out.push('0');
            out.push(hex_digit((cu / 16) as u8));
            out.push(hex_digit((cu % 16) as u8));
        } else {
            out.push(c);
        }
        proof {
            assert(out@ =~= base + emit_escaped(s@.subrange(0, i + 1)));
        }
        i = i + 1;
    }
    proof {
        assert(s@.subrange(0, n as int) =~= s@);
    }
    if quote {
        out.push('"');
    }
    proof {
        if quote {
            assert(final (out)@ =~= old(out)@ + emit_quoted(s@));
        }
    }
}

/// Escaping one more character appends its escape.
pub proof fn lemma_emit_escaped_snoc(t: Seq<char>, c: char)
    ensures
        emit_escaped(t.push(c)) == emit_escaped(t) + esc_char(c),
    decreases t.len(),
{
    assert(emit_escaped(Seq::<char>::empty()) == Seq::<char>::empty());
    if t.len() == 0 {
        assert(t.push(c).drop_first() =~= Seq::<char>::empty());
        assert(emit_escaped(t.push(c)) == esc_char(c) + emit_escaped(Seq::<char>::empty()));
        assert(emit_escaped(t.push(c)) =~= emit_escaped(t) + esc_char(c));
    } else {
        assert(t.push(c).drop_first() =~= t.drop_first().push(c));
        lemma_emit_escaped_snoc(t.drop_first(), c);
        assert(emit_escaped(t.push(c)) == esc_char(t[0]) + emit_escaped(t.drop_first().push(c)));
        assert(emit_escaped(t.push(c)) =~= emit_escaped(t) + esc_char(c));
    }
}

/// Whether `key` may be written without quotes.
pub fn is_valid_identifier(key: &str) -> (r: bool)
    ensures
        r == spec_is_ident(key@),
{
    let cs = crate::text::chars_of(key);
    let n = cs.len();
    if n == 0 {
        return false;
    }
    let c0 = cs[0];
    let c0u = c0 as u32;
    if !((0x41 <= c0u && c0u <= 0x5a) || (0x61 <= c0u && c0u <= 0x7a) || c0 == '_' || c0 == '$') {
        return false;
    }
    let mut i: usize = 1;
    while i < n
        invariant
            n == cs@.len(),
            cs@ == key@,
            1 <= i <= n,
            forall|j: int|
                1 <= j < i ==> (crate::parser::is_ascii_alpha(#[trigger] key@[j])
                    || crate::parser::is_digit(key@[j]) || key@[j] == '_' || key@[j] == '$'),
        decreases n - i,
    {
        let c = cs[i];
        let cu = c as u32;
        if !((0x41 <= cu && cu <= 0x5a) || (0x61 <= cu && cu <= 0x7a) || (0x30 <= cu && cu <= 0x39)
            || c == '_' || c == '$') {
            return false;
        }
        i = i + 1;
    }
    true
}

/// Appending an element appends a separating comma and its text.
pub proof fn lemma_emit_items_snoc(ts: Seq<ValModel>, v: ValModel, qk: bool)
    ensures
        emit_compact_items(ts.push(v), qk) == emit_compact_items(ts, qk) + (if ts.len() == 0 {
            Seq::<char>::empty()
        } else {
            seq![',']
        }) + emit_compact(v, qk),
    decreases ts.len(),
{
    assert(emit_compact_items_rest(Seq::<ValModel>::empty(), qk) == Seq::<char>::empty());
    if ts.len() == 0 {
        assert(ts.push(v).drop_first() =~= Seq::<ValModel>::empty());
        assert(emit_compact_items(ts.push(v), qk) =~= emit_compact_items(ts, qk) + Seq::<
            char,
        >::empty() + emit_compact(v, qk));
    } else {
        assert(ts.push(v).drop_first() =~= ts.drop_first().push(v));
        lemma_emit_items_rest_snoc(ts.drop_first(), v, qk);
        assert(emit_compact_items(ts.push(v), qk) =~= emit_compact_items(ts, qk) + seq![',']
            + emit_compact(v, qk));
    }
}

/// Appending an element to a comma-prefixed tail appends a comma and its
/// text.
pub proof fn lemma_emit_items_rest_snoc(ts: Seq<ValModel>, v: ValModel, qk: bool)
    ensures
        emit_compact_items_rest(ts.push(v), qk) == emit_compact_items_rest(ts, qk) + seq![',']
            + emit_compact(v, qk),
    decreases ts.len(),
{
    assert(emit_compact_items_rest(Seq::<ValModel>::empty(), qk) == Seq::<char>::empty());
    if ts.len() == 0 {
        assert(ts.push(v).drop_first() =~= Seq::<ValModel>::empty());
        assert(emit_compact_items_rest(ts.push(v), qk) =~= emit_compact_items_rest(ts, qk)
            + seq![','] + emit_compact(v, qk));
    } else {
        assert(ts.push(v).drop_first() =~= ts.drop_first().push(v));
        lemma_emit_items_rest_snoc(ts.drop_first(), v, qk);
        assert(emit_compact_items_rest(ts.push(v), qk) =~= emit_compact_items_rest(ts, qk)
            + seq![','] + emit_compact(v, qk));
    }
}

/// Appending an entry appends a separating comma and its text.
pub proof fn lemma_emit_entries_snoc(
    ts: Seq<(Seq<char>, ValModel)>,
    e: (Seq<char>, ValModel),
    qk: bool,
)
    ensures
        emit_compact_entries(ts.push(e), qk) == emit_compact_entries(ts, qk) + (if ts.len() == 0 {
            Seq::<char>::empty()
        } else {
            seq![',']
        }) + emit_key(e.0, qk) + seq![':'] + emit_compact(e.1, qk),
    decreases ts.len(),
{
    assert(emit_compact_entries_rest(Seq::<(Seq<char>, ValModel)>::empty(), qk) == Seq::<
        char,
    >::empty());
    if ts.len() == 0 {
        assert(ts.push(e).drop_first() =~= Seq::<(Seq<char>, ValModel)>::empty());
        assert(emit_compact_entries(ts.push(e), qk) =~= emit_compact_entries(ts, qk) + Seq::<
            char,
        >::empty() + emit_key(e.0, qk) + seq![':'] + emit_compact(e.1, qk));
    } else {
        assert(ts.push(e).drop_first() =~= ts.drop_first().push(e));
        lemma_emit_entries_rest_snoc(ts.drop_first(), e, qk);
        assert(emit_compact_entries(ts.push(e), qk) =~= emit_compact_entries(ts, qk) + seq![',']
            + emit_key(e.0, qk) + seq![':'] + emit_compact(e.1, qk));
    }
}

/// Appending an entry to a comma-prefixed tail appends a comma and its text.
pub proof fn lemma_emit_entries_rest_snoc(
    ts: Seq<(Seq<char>, ValModel)>,
    e: (Seq<char>, ValModel),
    qk: bool,
)
    ensures
        emit_compact_entries_rest(ts.push(e), qk) == emit_compact_entries_rest(ts, qk) + seq![',']
            + emit_key(e.0, qk) + seq![':'] + emit_compact(e.1, qk),
    decreases ts.len(),
{
    assert(emit_compact_entries_rest(Seq::<(Seq<char>, ValModel)>::empty(), qk) == Seq::<
        char,
    >::empty());
    if ts.len() == 0 {
        assert(ts.push(e).drop_first() =~= Seq::<(Seq<char>, ValModel)>::empty());
        assert(emit_compact_entries_rest(ts.push(e), qk) =~= emit_compact_entries_rest(ts, qk)
            + seq![','] + emit_key(e.0, qk) + seq![':'] + emit_compact(e.1, qk));
    } else {
        assert(ts.push(e).drop_first() =~= ts.drop_first().push(e));
        lemma_emit_entries_rest_snoc(ts.drop_first(), e, qk);
        assert(emit_compact_entries_rest(ts.push(e), qk) =~= emit_compact_entries_rest(ts, qk)
            + seq![','] + emit_key(e.0, qk) + seq![':'] + emit_compact(e.1, qk));
    }
}

// ---------------------------------------------------------------------------
// The compact formatter
// ---------------------------------------------------------------------------

/// Serializes values to minimal text: no inserted whitespace, keys unquoted
/// when syntactically safe (unless `quote_keys` asks otherwise), recursion
/// guarded by a depth ceiling.
pub struct CompactFormatter {
    pub quote_keys: bool,
    max_depth: usize,
}

impl CompactFormatter {
    /// The depth ceiling this formatter enforces.
    pub closed spec fn spec_max_depth(&self) -> int {
        self.max_depth as int
    }

    /// Whether keys are always quoted.
    pub closed spec fn spec_quote_keys(&self) -> bool {
        self.quote_keys
    }

    /// A compact formatter; `max_depth` defaults to [`MAX_DEPTH`].
    pub fn new(quote_keys: bool, max_depth: Option<usize>) -> (r: CompactFormatter)
        requires
            max_depth matches Some(d) ==> d < usize::MAX,
        ensures
            r.spec_quote_keys() == quote_keys,
            r.spec_max_depth() == match max_depth {
                Some(d) => d as int,
                None => MAX_DEPTH as int,
            },
            r.spec_max_depth() < usize::MAX,
    {
        let md = match max_depth {
            Some(d) => d,
            None => MAX_DEPTH,
        };
        CompactFormatter { quote_keys, max_depth: md }
    }

    /// Writes `null`.
    pub fn write_null(&self, out: &mut Vec<char>)
        ensures
            final (out)@ == old(out)@ + crate::parser::lit_null(),
    {
        out.push('n');
        out.push('u');
        out.push('l');
        out.push('l');
        proof {
            assert(out@ =~= old(out)@ + crate::parser::lit_null());
        }
    }

    /// Writes `true` or `false`.
    pub fn write_bool(&self, out: &mut Vec<char>, v: bool)
        ensures
            final (out)@ == old(out)@ + if v {
                crate::parser::lit_true()
            } else {
                crate::parser::lit_false()
            },
    {
        if v {
            out.push('t');
            out.push('r');
            out.push('u');
            out.push('e');
            proof {
                assert(out@ =~= old(out)@ + crate::parser::lit_true());
            }
        } else {
            out.push('f');
            out.push('a');
            out.push('l');
            out.push('s');
            out.push('e');
            proof {
                assert(out@ =~= old(out)@ + crate::parser::lit_false());
            }
        }
    }

    /// Writes the text of a number.
    pub fn write_number(&self, out: &mut Vec<char>, m: &Number)
        ensures
            final (out)@ == old(out)@ + emit_num(m@),
    {
        write_number_text(out, m);
    }

    /// Writes a quoted, escaped string.
    pub fn write_string(&self, out: &mut Vec<char>, s: &str)
        ensures
            final (out)@ == old(out)@ + emit_quoted(s@),
    {
        write_escaped_str(out, s, true);
    }

    /// Writes an object key, bare when syntactically safe.
    pub fn write_object_key(&self, out: &mut Vec<char>, k: &str)
        ensures
            final (out)@ == old(out)@ + emit_key(k@, self.spec_quote_keys()),
    {
        if !self.quote_keys && is_valid_identifier(k) {
            crate::text::push_str_chars(out, k);
        } else {
            write_escaped_str(out, k, true);
        }
    }

    /// Writes one value, recursion depth guarded.
    pub fn write_value(&self, out: &mut Vec<char>, v: &Value, depth: usize) -> (r: Result<
        (),
        Error,
    >)
        requires
            self.spec_max_depth() < usize::MAX,
        ensures
            match r {
                Ok(()) => final (out)@ == old(out)@ + emit_compact(v@, self.spec_quote_keys())
                    && fits_depth(v@, depth as int, self.spec_max_depth()),
                Err(e) => !fits_depth(v@, depth as int, self.spec_max_depth()) && e@
                    == ErrModel::Custom("Recursion limit exceeded"@),
            },
        decreases v, 1int,
    {
        if depth > self.max_depth {
            return Err(Error::Custom("Recursion limit exceeded".to_owned()));
        }
        match v {
            Value::Null => {
                self.write_null(out);
                Ok(())
            },
            Value::Bool(b) => {
                self.write_bool(out, *b);
                Ok(())
            },
            Value::Number(m) => {
                self.write_number(out, m);
                Ok(())
            },
            Value::String(s) => {
                self.write_string(out, s.as_str());
                Ok(())
            },
            Value::Array(arr) => self.write_array(out, arr, depth),
            Value::Object(map) => self.write_object(out, map, depth),
        }
    }

    /// Writes an array's elements between brackets.
    #[verifier::loop_isolation(false)]
    #[verifier::rlimit(100)]
    pub fn write_array(&self, out: &mut Vec<char>, arr: &Vec<Value>, depth: usize) -> (r: Result<
        (),
        Error,
    >)
        requires
            self.spec_max_depth() < usize::MAX,
            depth <= self.spec_max_depth(),
        ensures
            match r {
                Ok(()) => final (out)@ == old(out)@ + seq!['['] + emit_compact_items(
                    arr_view(arr@),
                    self.spec_quote_keys(),
                ) + seq![']'] && fits_items(arr_view(arr@), depth + 1, self.spec_max_depth()),
                Err(e) => !fits_items(arr_view(arr@), depth + 1, self.spec_max_depth()) && e@
                    == ErrModel::Custom("Recursion limit exceeded"@),
            },
        decreases arr, 0int,
    {
        let ghost items = arr_view(arr@);
        proof {
            crate::value::lemma_arr_view(arr@);
        }
        out.push('[');
        let ghost base = out@;
        let n = arr.len();
        let mut i: usize = 0;
        while i < n
            invariant
                n == arr@.len(),
                items == arr_view(arr@),
                items.len() == n,
                i <= n,
                out@ == base + emit_compact_items(items.take(i as int), self.spec_quote_keys()),
                forall|j: int|
                    0 <= j < i ==> fits_depth(#[trigger] items[j], depth + 1, self.spec_max_depth()),
            decreases n - i,
        {
            if i > 0 {
                out.push(',');
            }
            match self.write_value(out, &arr[i], depth + 1) {
                Ok(()) => {},
                Err(e) => {
                    proof {
                        lemma_fits_items(items, depth + 1, self.spec_max_depth());
                    }
                    return Err(e);
                },
            }
            proof {
                lemma_emit_items_snoc(items.take(i as int), items[i as int], self.spec_quote_keys());
                assert(items.take(i as int).push(items[i as int]) =~= items.take(i + 1));
                assert(out@ =~= base + emit_compact_items(items.take(i + 1), self.spec_quote_keys()));
            }
            i = i + 1;
        }
        out.push(']');
        proof {
            assert(items.take(n as int) =~= items);
            lemma_fits_items(items, depth + 1, self.spec_max_depth());
            assert(final (out)@ =~= old(out)@ + seq!['['] + emit_compact_items(
                items,
                self.spec_quote_keys(),
            ) + seq![']']);
        }
        Ok(())
    }

    /// Writes an object's entries between braces.
    #[verifier::loop_isolation(false)]
    #[verifier::rlimit(100)]
    pub fn write_object(&self, out: &mut Vec<char>, map: &ObjectMap, depth: usize) -> (r: Result<
        (),
        Error,
    >)
        requires
            self.spec_max_depth() < usize::MAX,
            depth <= self.spec_max_depth(),
        ensures
            match r {
                Ok(()) => final (out)@ == old(out)@ + seq!['{'] + emit_compact_entries(
                    map.view(),
                    self.spec_quote_keys(),
                ) + seq!['}'] && fits_entries(map.view(), depth + 1, self.spec_max_depth()),
                Err(e) => !fits_entries(map.view(), depth + 1, self.spec_max_depth()) && e@
                    == ErrModel::Custom("Recursion limit exceeded"@),
            },
        decreases map, 0int,
    {
        let ghost entries = map.view();
        out.push('{');
        let ghost base = out@;
        let n = map.len();
        let mut i: usize = 0;
        while i < n
            invariant
                entries == map.view(),
                entries.len() == n,
                i <= n,
                out@ == base + emit_compact_entries(entries.take(i as int), self.spec_quote_keys()),
                forall|j: int|
                    0 <= j < i ==> fits_depth(
                        #[trigger] entries[j].1,
                        depth + 1,
                        self.spec_max_depth(),
                    ),
            decreases n - i,
        {
            if i > 0 {
                out.push(',');
            }
            let entry = map.entry_at(i);
            self.write_object_key(out, entry.0.as_str());
            out.push(':');
            match self.write_value(out, &entry.1, depth + 1) {
                Ok(()) => {},
                Err(e) => {
                    proof {
                        lemma_fits_entries(entries, depth + 1, self.spec_max_depth());
                    }
                    return Err(e);
                },
            }
            proof {
                lemma_emit_entries_snoc(
                    entries.take(i as int),
                    entries[i as int],
                    self.spec_quote_keys(),
                );
                assert(entries.take(i as int).push(entries[i as int]) =~= entries.take(i + 1));
                assert(out@ =~= base + emit_compact_entries(entries.take(i + 1), self.spec_quote_keys()));
            }
            i = i + 1;
        }
        out.push('}');
        proof {
            assert(entries.take(n as int) =~= entries);
            lemma_fits_entries(entries, depth + 1, self.spec_max_depth());
            assert(final (out)@ =~= old(out)@ + seq!['{'] + emit_compact_entries(
                entries,
                self.spec_quote_keys(),
            ) + seq!['}']);
        }
        Ok(())
    }

    /// Serializes one value to a compact string.
    pub fn format(&self, v: &Value) -> (r: Result<String, Error>)
        requires
            self.spec_max_depth() < usize::MAX,
        ensures
            match r {
                Ok(t) => t@ == emit_compact(v@, self.spec_quote_keys()) && fits_depth(
                    v@,
                    0,
                    self.spec_max_depth(),
                ),
                Err(e) => !fits_depth(v@, 0, self.spec_max_depth()) && e@ == ErrModel::Custom(
                    "Recursion limit exceeded"@,
                ),
            },
    {
        let mut out: Vec<char> = Vec::new();
        match self.write_value(&mut out, v, 0) {
            Ok(()) => {
                proof {
                    assert(out@ =~= emit_compact(v@, self.spec_quote_keys()));
                }
                Ok(crate::text::string_from_chars(&out))
            },
            Err(e) => Err(e),
        }
    }
}

// ---------------------------------------------------------------------------
// Pretty emission, mathematically
// ---------------------------------------------------------------------------

/// The indent text repeated `k` times.
pub open spec fn indent_text(ind: Seq<char>, k: int) -> Seq<char>
    decreases k,
{
    if k <= 0 {
        Seq::empty()
    } else {
        indent_text(ind, k - 1) + ind
    }
}

/// Indented text of a value at nesting depth `d`: scalars as in compact
/// form, arrays and objects over several lines.
pub open spec fn emit_pretty(v: ValModel, ind: Seq<char>, qk: bool, d: int) -> Seq<char>
    decreases v, 1int,
{
    match v {
        ValModel::Null => crate::parser::lit_null(),
        ValModel::Bool(b) => if b {
            crate::parser::lit_true()
        } else {
            crate::parser::lit_false()
        },
        ValModel::Number(m) => emit_num(m),
        ValModel::Str(t) => emit_quoted(t),
        ValModel::Arr(items) => if items.len() == 0 {
            seq!['[', ']']
        } else {
            seq!['[', '\n'] + pretty_items(items, ind, qk, d + 1) + seq!['\n'] + indent_text(ind, d)
                + seq![']']
        },
        ValModel::Obj(entries) => if entries.len() == 0 {
            seq!['{', '}']
        } else {
            seq!['{', '\n'] + pretty_entries(entries, ind, qk, d + 1) + seq!['\n'] + indent_text(
                ind,
                d,
            ) + seq!['}']
        },
    }
}

/// The lines of an array's elements at depth `d`, without the final line
/// break.
pub open spec fn pretty_items(items: Seq<ValModel>, ind: Seq<char>, qk: bool, d: int) -> Seq<char>
    decreases items, 2int,
{
    if items.len() == 0 {
        Seq::empty()
    } else {
        indent_text(ind, d) + emit_pretty(items[0], ind, qk, d) + pretty_items_rest(
            items.drop_first(),
            ind,
            qk,
            d,
        )
    }
}

/// The lines of the elements after the first, each preceded by a comma and a
/// line break.
pub open spec fn pretty_items_rest(
    items: Seq<ValModel>,
    ind: Seq<char>,
    qk: bool,
    d: int,
) -> Seq<char>
    decreases items, 2int,
{
    if items.len() == 0 {
        Seq::empty()
    } else {
        seq![',', '\n'] + indent_text(ind, d) + emit_pretty(items[0], ind, qk, d)
            + pretty_items_rest(items.drop_first(), ind, qk, d)
    }
}

/// The lines of an object's entries at depth `d`, without the final line
/// break.
pub open spec fn pretty_entries(
    entries: Seq<(Seq<char>, ValModel)>,
    ind: Seq<char>,
    qk: bool,
    d: int,
) -> Seq<char>
    decreases entries, 2int,
{
    if entries.len() == 0 {
        Seq::empty()
    } else {
        indent_text(ind, d) + emit_key(entries[0].0, qk) + seq![':', ' '] + emit_pretty(
            entries[0].1,
            ind,
            qk,
            d,
        ) + pretty_entries_rest(entries.drop_first(), ind, qk, d)
    }
}

/// The lines of the entries after the first, each preceded by a comma and a
/// line break.
pub open spec fn pretty_entries_rest(
    entries: Seq<(Seq<char>, ValModel)>,
    ind: Seq<char>,
    qk: bool,
    d: int,
) -> Seq<char>
    decreases entries, 2int,
{
    if entries.len() == 0 {
        Seq::empty()
    } else {
        seq![',', '\n'] + indent_text(ind, d) + emit_key(entries[0].0, qk) + seq![':', ' ']
            + emit_pretty(entries[0].1, ind, qk, d) + pretty_entries_rest(
            entries.drop_first(),
            ind,
            qk,
            d,
        )
    }
}

/// Appending an element appends a comma, a line break, its indent and its
/// text.
pub proof fn lemma_pretty_items_snoc(
    ts: Seq<ValModel>,
    v: ValModel,
    ind: Seq<char>,
    qk: bool,
    d: int,
)
    ensures
        pretty_items(ts.push(v), ind, qk, d) == pretty_items(ts, ind, qk, d) + (if ts.len() == 0 {
            Seq::<char>::empty()
        } else {
            seq![',', '\n']
        }) + indent_text(ind, d) + emit_pretty(v, ind, qk, d),
    decreases ts.len(),
{
    assert(pretty_items_rest(Seq::<ValModel>::empty(), ind, qk, d) == Seq::<char>::empty());
    if ts.len() == 0 {
        assert(ts.push(v).drop_first() =~= Seq::<ValModel>::empty());
        assert(pretty_items(ts.push(v), ind, qk, d) =~= pretty_items(ts, ind, qk, d) + Seq::<
            char,
        >::empty() + indent_text(ind, d) + emit_pretty(v, ind, qk, d));
    } else {
        assert(ts.push(v).drop_first() =~= ts.drop_first().push(v));
        lemma_pretty_items_rest_snoc(ts.drop_first(), v, ind, qk, d);
        assert(pretty_items(ts.push(v), ind, qk, d) =~= pretty_items(ts, ind, qk, d) + seq![
            ',',
            '\n',
        ] + indent_text(ind, d) + emit_pretty(v, ind, qk, d));
    }
}

/// The same, for a comma-prefixed tail.
pub proof fn lemma_pretty_items_rest_snoc(
    ts: Seq<ValModel>,
    v: ValModel,
    ind: Seq<char>,
    qk: bool,
    d: int,
)
    ensures
        pretty_items_rest(ts.push(v), ind, qk, d) == pretty_items_rest(ts, ind, qk, d) + seq![
            ',',
            '\n',
        ] + indent_text(ind, d) + emit_pretty(v, ind, qk, d),
    decreases ts.len(),
{
    assert(pretty_items_rest(Seq::<ValModel>::empty(), ind, qk, d) == Seq::<char>::empty());
    if ts.len() == 0 {
        assert(ts.push(v).drop_first() =~= Seq::<ValModel>::empty());
        assert(pretty_items_rest(ts.push(v), ind, qk, d) =~= pretty_items_rest(ts, ind, qk, d)
            + seq![',', '\n'] + indent_text(ind, d) + emit_pretty(v, ind, qk, d));
    } else {
        assert(ts.push(v).drop_first() =~= ts.drop_first().push(v));
        lemma_pretty_items_rest_snoc(ts.drop_first(), v, ind, qk, d);
        assert(pretty_items_rest(ts.push(v), ind, qk, d) =~= pretty_items_rest(ts, ind, qk, d)
            + seq![',', '\n'] + indent_text(ind, d) + emit_pretty(v, ind, qk, d));
    }
}

/// Appending an entry appends a comma, a line break, its indent and its
/// text.
pub proof fn lemma_pretty_entries_snoc(
    ts: Seq<(Seq<char>, ValModel)>,
    e: (Seq<char>, ValModel),
    ind: Seq<char>,
    qk: bool,
    d: int,
)
    ensures
        pretty_entries(ts.push(e), ind, qk, d) == pretty_entries(ts, ind, qk, d) + (if ts.len()
            == 0 {
            Seq::<char>::empty()
        } else {
            seq![',', '\n']
        }) + indent_text(ind, d) + emit_key(e.0, qk) + seq![':', ' '] + emit_pretty(
            e.1,
            ind,
            qk,
            d,
        ),
    decreases ts.len(),
{
    assert(pretty_entries_rest(Seq::<(Seq<char>, ValModel)>::empty(), ind, qk, d) == Seq::<
        char,
    >::empty());
    if ts.len() == 0 {
        assert(ts.push(e).drop_first() =~= Seq::<(Seq<char>, ValModel)>::empty());
        assert(pretty_entries(ts.push(e), ind, qk, d) =~= pretty_entries(ts, ind, qk, d) + Seq::<
            char,
        >::empty() + indent_text(ind, d) + emit_key(e.0, qk) + seq![':', ' '] + emit_pretty(
            e.1,
            ind,
            qk,
            d,
        ));
    } else {
        assert(ts.push(e).drop_first() =~= ts.drop_first().push(e));
        lemma_pretty_entries_rest_snoc(ts.drop_first(), e, ind, qk, d);
        assert(pretty_entries(ts.push(e), ind, qk, d) =~= pretty_entries(ts, ind, qk, d) + seq![
            ',',
            '\n',
        ] + indent_text(ind, d) + emit_key(e.0, qk) + seq![':', ' '] + emit_pretty(e.1, ind, qk, d));
    }
}

/// The same, for a comma-prefixed tail.
pub proof fn lemma_pretty_entries_rest_snoc(
    ts: Seq<(Seq<char>, ValModel)>,
    e: (Seq<char>, ValModel),
    ind: Seq<char>,
    qk: bool,
    d: int,
)
    ensures
        pretty_entries_rest(ts.push(e), ind, qk, d) == pretty_entries_rest(ts, ind, qk, d) + seq![
            ',',
            '\n',
        ] + indent_text(ind, d) + emit_key(e.0, qk) + seq![':', ' '] + emit_pretty(e.1, ind, qk, d),
    decreases ts.len(),
{
    assert(pretty_entries_rest(Seq::<(Seq<char>, ValModel)>::empty(), ind, qk, d) == Seq::<
        char,
    >::empty());
    if ts.len() == 0 {
        assert(ts.push(e).drop_first() =~= Seq::<(Seq<char>, ValModel)>::empty());
        assert(pretty_entries_rest(ts.push(e), ind, qk, d) =~= pretty_entries_rest(ts, ind, qk, d)
            + seq![',', '\n'] + indent_text(ind, d) + emit_key(e.0, qk) + seq![':', ' ']
            + emit_pretty(e.1, ind, qk, d));
    } else {
        assert(ts.push(e).drop_first() =~= ts.drop_first().push(e));
        lemma_pretty_entries_rest_snoc(ts.drop_first(), e, ind, qk, d);
        assert(pretty_entries_rest(ts.push(e), ind, qk, d) =~= pretty_entries_rest(ts, ind, qk, d)
            + seq![',', '\n'] + indent_text(ind, d) + emit_key(e.0, qk) + seq![':', ' ']
            + emit_pretty(e.1, ind, qk, d));
    }
}

// ---------------------------------------------------------------------------
// The pretty formatter
// ---------------------------------------------------------------------------

/// Serializes values with one indent repetition per nesting depth, a space
/// after each colon, and elements on lines of their own; recursion guarded
/// by the fixed ceiling [`MAX_DEPTH`].
pub struct PrettyFormatter {
    indent: Vec<char>,
    pub quote_keys: bool,
}

impl PrettyFormatter {
    /// The indent written once per nesting depth.
    pub closed spec fn spec_indent(&self) -> Seq<char> {
        self.indent@
    }

    /// Whether keys are always quoted.
    pub closed spec fn spec_quote_keys(&self) -> bool {
        self.quote_keys
    }

    /// A pretty formatter indenting by `indent_str`.
    pub fn new(indent_str: &str, quote_keys: bool) -> (r: PrettyFormatter)
        ensures
            r.spec_indent() == indent_str@,
            r.spec_quote_keys() == quote_keys,
    {
        PrettyFormatter { indent: crate::text::chars_of(indent_str), quote_keys }
    }

    /// Writes the indent `depth` times.
    pub fn write_indent(&self, out: &mut Vec<char>, depth: usize)
        ensures
            final (out)@ == old(out)@ + indent_text(self.spec_indent(), depth as int),
    {
        let mut k: usize = 0;
        while k < depth
            invariant
                k <= depth,
                out@ == old(out)@ + indent_text(self.spec_indent(), k as int),
            decreases depth - k,
        {
            crate::text::push_str_chars(out, crate::text::string_from_chars(&self.indent).as_str());
            k = k + 1;
        }
    }

    /// Writes one value at nesting depth `depth`, recursion guarded.
    pub fn write_value(&self, out: &mut Vec<char>, v: &Value, depth: usize) -> (r: Result<
        (),
        Error,
    >)
        ensures
            match r {
                Ok(()) => final (out)@ == old(out)@ + emit_pretty(
                    v@,
                    self.spec_indent(),
                    self.spec_quote_keys(),
                    depth as int,
                ) && fits_depth(v@, depth as int, MAX_DEPTH as int),
                Err(e) => !fits_depth(v@, depth as int, MAX_DEPTH as int) && e@ == ErrModel::Custom(
                    "Recursion limit exceeded"@,
                ),
            },
        decreases v, 1int,
    {
        if depth > MAX_DEPTH {
            return Err(Error::Custom("Recursion limit exceeded".to_owned()));
        }
        match v {
            Value::Null => {
                out.push('n');
                out.push('u');
                out.push('l');
                out.push('l');
                proof {
                    assert(out@ =~= old(out)@ + crate::parser::lit_null());
                }
                Ok(())
            },
            Value::Bool(b) => {
                if *b {
                    out.push('t');
                    out.push('r');
                    out.push('u');
                    out.push('e');
                    proof {
                        assert(out@ =~= old(out)@ + crate::parser::lit_true());
                    }
                } else {
                    out.push('f');
                    out.push('a');
                    out.push('l');
                    out.push('s');
                    out.push('e');
                    proof {
                        assert(out@ =~= old(out)@ + crate::parser::lit_false());
                    }
                }
                Ok(())
            },
            Value::Number(m) => {
                write_number_text(out, m);
                Ok(())
            },
            Value::String(s) => {
                write_escaped_str(out, s.as_str(), true);
                Ok(())
            },
            Value::Array(arr) => self.write_array(out, arr, depth),
            Value::Object(map) => self.write_object(out, map, depth),
        }
    }

    /// Writes an array over several lines.
    #[verifier::loop_isolation(false)]
    #[verifier::rlimit(60)]
    pub fn write_array(&self, out: &mut Vec<char>, arr: &Vec<Value>, depth: usize) -> (r: Result<
        (),
        Error,
    >)
        requires
            depth <= MAX_DEPTH,
        ensures
            match r {
                Ok(()) => final (out)@ == old(out)@ + emit_pretty(
                    ValModel::Arr(arr_view(arr@)),
                    self.spec_indent(),
                    self.spec_quote_keys(),
                    depth as int,
                ) && fits_items(arr_view(arr@), depth + 1, MAX_DEPTH as int),
                Err(e) => !fits_items(arr_view(arr@), depth + 1, MAX_DEPTH as int) && e@
                    == ErrModel::Custom("Recursion limit exceeded"@),
            },
        decreases arr, 0int,
    {
        let ghost items = arr_view(arr@);
        proof {
            crate::value::lemma_arr_view(arr@);
        }
        let n = arr.len();
        if n == 0 {
            out.push('[');
            out.push(']');
            proof {
                assert(final (out)@ =~= old(out)@ + seq!['[', ']']);
            }
            return Ok(());
        }
        out.push('[');
        out.push('\n');
        let ghost base = out@;
        let mut i: usize = 0;
        while i < n
            invariant
                n == arr@.len(),
                items == arr_view(arr@),
                items.len() == n,
                i <= n,
                out@ == base + pretty_items(
                    items.take(i as int),
                    self.spec_indent(),
                    self.spec_quote_keys(),
                    depth + 1,
                ),
                forall|j: int|
                    0 <= j < i ==> fits_depth(#[trigger] items[j], depth + 1, MAX_DEPTH as int),
            decreases n - i,
        {
            if i > 0 {
                out.push(',');
                out.push('\n');
            }
            self.write_indent(out, depth + 1);
            match self.write_value(out, &arr[i], depth + 1) {
                Ok(()) => {},
                Err(e) => {
                    proof {
                        lemma_fits_items(items, depth + 1, MAX_DEPTH as int);
                    }
                    return Err(e);
                },
            }
            proof {
                lemma_pretty_items_snoc(
                    items.take(i as int),
                    items[i as int],
                    self.spec_indent(),
                    self.spec_quote_keys(),
                    depth + 1,
                );
                assert(items.take(i as int).push(items[i as int]) =~= items.take(i + 1));
                assert(out@ =~= base + pretty_items(
                    items.take(i + 1),
                    self.spec_indent(),
                    self.spec_quote_keys(),
                    depth + 1,
                ));
            }
            i = i + 1;
        }
        out.push('\n');
        self.write_indent(out, depth);
        out.push(']');
        proof {
            assert(items.take(n as int) =~= items);
            lemma_fits_items(items, depth + 1, MAX_DEPTH as int);
            assert(final (out)@ =~= old(out)@ + emit_pretty(
                ValModel::Arr(items),
                self.spec_indent(),
                self.spec_quote_keys(),
                depth as int,
            ));
        }
        Ok(())
    }

    /// Writes an object over several lines.
    #[verifier::loop_isolation(false)]
    #[verifier::rlimit(100)]
    pub fn write_object(&self, out: &mut Vec<char>, map: &ObjectMap, depth: usize) -> (r: Result<
        (),
        Error,
    >)
        requires
            depth <= MAX_DEPTH,
        ensures
            match r {
                Ok(()) => final (out)@ == old(out)@ + emit_pretty(
                    ValModel::Obj(map.view()),
                    self.spec_indent(),
                    self.spec_quote_keys(),
                    depth as int,
                ) && fits_entries(map.view(), depth + 1, MAX_DEPTH as int),
                Err(e) => !fits_entries(map.view(), depth + 1, MAX_DEPTH as int) && e@
                    == ErrModel::Custom("Recursion limit exceeded"@),
            },
        decreases map, 0int,
    {
        let ghost entries = map.view();
        let n = map.len();
        if n == 0 {
            out.push('{');
            out.push('}');
            proof {
                assert(final (out)@ =~= old(out)@ + seq!['{', '}']);
            }
            return Ok(());
        }
        out.push('{');
        out.push('\n');
        let ghost base = out@;
        let mut i: usize = 0;
        while i < n
            invariant
                entries == map.view(),
                entries.len() == n,
                i <= n,
                out@ == base + pretty_entries(
                    entries.take(i as int),
                    self.spec_indent(),
                    self.spec_quote_keys(),
                    depth + 1,
                ),
                forall|j: int|
                    0 <= j < i ==> fits_depth(#[trigger] entries[j].1, depth + 1, MAX_DEPTH as int),
            decreases n - i,
        {
            if i > 0 {
                out.push(',');
                out.push('\n');
            }
            self.write_indent(out, depth + 1);
            let entry = map.entry_at(i);
            self.write_object_key(out, entry.0.as_str());
            out.push(':');
            out.push(' ');
            match self.write_value(out, &entry.1, depth + 1) {
                Ok(()) => {},
                Err(e) => {
                    proof {
                        lemma_fits_entries(entries, depth + 1, MAX_DEPTH as int);
                    }
                    return Err(e);
                },
            }
            proof {
                lemma_pretty_entries_snoc(
                    entries.take(i as int),
                    entries[i as int],
                    self.spec_indent(),
                    self.spec_quote_keys(),
                    depth + 1,
                );
                assert(entries.take(i as int).push(entries[i as int]) =~= entries.take(i + 1));
                assert(out@ =~= base + pretty_entries(
                    entries.take(i + 1),
                    self.spec_indent(),
                    self.spec_quote_keys(),
                    depth + 1,
                ));
            }
            i = i + 1;
        }
        out.push('\n');
        self.write_indent(out, depth);
        out.push('}');
        proof {
            assert(entries.take(n as int) =~= entries);
            lemma_fits_entries(entries, depth + 1, MAX_DEPTH as int);
            assert(final (out)@ =~= old(out)@ + emit_pretty(
                ValModel::Obj(entries),
                self.spec_indent(),
                self.spec_quote_keys(),
                depth as int,
            ));
        }
        Ok(())
    }

    /// Writes an object key, bare when syntactically safe.
    pub fn write_object_key(&self, out: &mut Vec<char>, k: &str)
        ensures
            final (out)@ == old(out)@ + emit_key(k@, self.spec_quote_keys()),
    {
        if !self.quote_keys && is_valid_identifier(k) {
            crate::text::push_str_chars(out, k);
        } else {
            write_escaped_str(out, k, true);
        }
    }

    /// Serializes one value to indented text.
    pub fn format(&self, v: &Value) -> (r: Result<String, Error>)
        ensures
            match r {
                Ok(t) => t@ == emit_pretty(v@, self.spec_indent(), self.spec_quote_keys(), 0)
                    && fits_depth(v@, 0, MAX_DEPTH as int),
                Err(e) => !fits_depth(v@, 0, MAX_DEPTH as int) && e@ == ErrModel::Custom(
                    "Recursion limit exceeded"@,
                ),
            },
    {
        let mut out: Vec<char> = Vec::new();
        match self.write_value(&mut out, v, 0) {
            Ok(()) => {
                proof {
                    assert(out@ =~= emit_pretty(
                        v@,
                        self.spec_indent(),
                        self.spec_quote_keys(),
                        0,
                    ));
                }
                Ok(crate::text::string_from_chars(&out))
            },
            Err(e) => Err(e),
        }
    }
}

// ---------------------------------------------------------------------------
// The encode adapter
// ---------------------------------------------------------------------------

/// A source type that can be encoded into a [`Value`]. The library
/// implements the primitive, optional and sequence shapes; records and
/// variants are built with [`ValueSerializer`].
pub trait ToValue {
    fn to_value(&self) -> Result<Value, Error>;
}

/// The encoder interface: one constructor for each primitive and composite
/// shape a source value can take.
pub struct ValueSerializer;

impl ValueSerializer {
    /// A boolean value.
    pub fn serialize_bool(v: bool) -> (r: Value)
        ensures
            r@ == ValModel::Bool(v),
    {
        Value::Bool(v)
    }

    /// A signed integer value.
    pub fn serialize_i64(v: i64) -> (r: Value)
        ensures
            r@ == ValModel::Number(NumModel::Int(v as int)),
    {
        Value::Number(Number::Int(v))
    }

    /// A signed integer value.
    pub fn serialize_i32(v: i32) -> (r: Value)
        ensures
            r@ == ValModel::Number(NumModel::Int(v as int)),
    {
        Value::Number(Number::Int(v as i64))
    }

    /// A signed integer value.
    pub fn serialize_i16(v: i16) -> (r: Value)
        ensures
            r@ == ValModel::Number(NumModel::Int(v as int)),
    {
        Value::Number(Number::Int(v as i64))
    }

    /// A signed integer value.
    pub fn serialize_i8(v: i8) -> (r: Value)
        ensures
            r@ == ValModel::Number(NumModel::Int(v as int)),
    {
        Value::Number(Number::Int(v as i64))
    }

    /// An unsigned integer value.
    pub fn serialize_u64(v: u64) -> (r: Value)
        ensures
            r@ == ValModel::Number(NumModel::Uint(v as int)),
    {
        Value::Number(Number::Uint(v))
    }

    /// An unsigned integer value.
    pub fn serialize_u32(v: u32) -> (r: Value)
        ensures
            r@ == ValModel::Number(NumModel::Uint(v as int)),
    {
        Value::Number(Number::Uint(v as u64))
    }

    /// An unsigned integer value.
    pub fn serialize_u16(v: u16) -> (r: Value)
        ensures
            r@ == ValModel::Number(NumModel::Uint(v as int)),
    {
        Value::Number(Number::Uint(v as u64))
    }

    /// An unsigned integer value.
    pub fn serialize_u8(v: u8) -> (r: Value)
        ensures
            r@ == ValModel::Number(NumModel::Uint(v as int)),
    {
        Value::Number(Number::Uint(v as u64))
    }

    /// A one-character string.
    pub fn serialize_char(v: char) -> (r: Value)
        ensures
            r@ == ValModel::Str(seq![v]),
    {
        let mut cs: Vec<char> = Vec::new();
        cs.push(v);
        proof {
            assert(cs@ =~= seq![v]);
        }
        Value::String(crate::text::string_from_chars(&cs))
    }

    /// A string.
    pub fn serialize_str(v: &str) -> (r: Value)
        ensures
            r@ == ValModel::Str(v@),
    {
        Value::String(v.to_owned())
    }

    /// An absent optional, a unit, or a unit record: `null`.
    pub fn serialize_none() -> (r: Value)
        ensures
            r@ == ValModel::Null,
    {
        Value::Null
    }

    /// A variant without payload: its bare name.
    pub fn serialize_unit_variant(variant: &str) -> (r: Value)
        ensures
            r@ == ValModel::Str(variant@),
    {
        Value::String(variant.to_owned())
    }

    /// A variant with a payload: an object whose sole key is the variant's
    /// name.
    pub fn serialize_newtype_variant(variant: &str, value: Value) -> (r: Value)
        ensures
            r@ == ValModel::Obj(seq![(variant@, value@)]),
    {
        let ghost vv = value@;
        let mut m = ObjectMap::new();
        m.insert(variant.to_owned(), value);
        proof {
            crate::value::lemma_key_index(Seq::<(Seq<char>, ValModel)>::empty(), variant@);
            assert(m.view() =~= seq![(variant@, vv)]);
        }
        Value::Object(m)
    }

    /// A sequence of already-encoded elements.
    pub fn serialize_seq(arr: Vec<Value>) -> (r: Value)
        ensures
            r@ == ValModel::Arr(arr_view(arr@)),
    {
        Value::Array(arr)
    }

    /// A mapping of already-encoded entries.
    pub fn serialize_map(m: ObjectMap) -> (r: Value)
        ensures
            r@ == ValModel::Obj(m.view()),
    {
        Value::Object(m)
    }
}

impl ToValue for bool {
    fn to_value(&self) -> (r: Result<Value, Error>)
        ensures
            r matches Ok(val) && val@ == ValModel::Bool(*self),
    {
        Ok(ValueSerializer::serialize_bool(*self))
    }
}

impl ToValue for i64 {
    fn to_value(&self) -> (r: Result<Value, Error>)
        ensures
            r matches Ok(val) && val@ == ValModel::Number(NumModel::Int(*self as int)),
    {
        Ok(ValueSerializer::serialize_i64(*self))
    }
}

impl ToValue for i32 {
    fn to_value(&self) -> (r: Result<Value, Error>)
        ensures
            r matches Ok(val) && val@ == ValModel::Number(NumModel::Int(*self as int)),
    {
        Ok(ValueSerializer::serialize_i32(*self))
    }
}

impl ToValue for i16 {
    fn to_value(&self) -> (r: Result<Value, Error>)
        ensures
            r matches Ok(val) && val@ == ValModel::Number(NumModel::Int(*self as int)),
    {
        Ok(ValueSerializer::serialize_i16(*self))
    }
}

impl ToValue for i8 {
    fn to_value(&self) -> (r: Result<Value, Error>)
        ensures
            r matches Ok(val) && val@ == ValModel::Number(NumModel::Int(*self as int)),
    {
        Ok(ValueSerializer::serialize_i8(*self))
    }
}

impl ToValue for u64 {
    fn to_value(&self) -> (r: Result<Value, Error>)
        ensures
            r matches Ok(val) && val@ == ValModel::Number(NumModel::Uint(*self as int)),
    {
        Ok(ValueSerializer::serialize_u64(*self))
    }
}

impl ToValue for u32 {
    fn to_value(&self) -> (r: Result<Value, Error>)
        ensures
            r matches Ok(val) && val@ == ValModel::Number(NumModel::Uint(*self as int)),
    {
        Ok(ValueSerializer::serialize_u32(*self))
    }
}

impl ToValue for u16 {
    fn to_value(&self) -> (r: Result<Value, Error>)
        ensures
            r matches Ok(val) && val@ == ValModel::Number(NumModel::Uint(*self as int)),
    {
        Ok(ValueSerializer::serialize_u16(*self))
    }
}

impl ToValue for u8 {
    fn to_value(&self) -> (r: Result<Value, Error>)
        ensures
            r matches Ok(val) && val@ == ValModel::Number(NumModel::Uint(*self as int)),
    {
        Ok(ValueSerializer::serialize_u8(*self))
    }
}

impl ToValue for String {
    fn to_value(&self) -> (r: Result<Value, Error>)
        ensures
            r matches Ok(val) && val@ == ValModel::Str(self@),
    {
        Ok(ValueSerializer::serialize_str(self.as_str()))
    }
}

impl ToValue for char {
    fn to_value(&self) -> (r: Result<Value, Error>)
        ensures
            r matches Ok(val) && val@ == ValModel::Str(seq![*self]),
    {
        Ok(ValueSerializer::serialize_char(*self))
    }
}

impl<T: ToValue> ToValue for Option<T> {
    fn to_value(&self) -> (r: Result<Value, Error>)
        ensures
            self is None ==> (r matches Ok(val) && val@ == ValModel::Null),
    {
        match self {
            None => Ok(ValueSerializer::serialize_none()),
            Some(t) => t.to_value(),
        }
    }
}

impl<T: ToValue> ToValue for Vec<T> {
    fn to_value(&self) -> (r: Result<Value, Error>)
        ensures
            r matches Ok(val) ==> (val@ matches ValModel::Arr(items) && items.len()
                == self@.len()),
    {
        let mut arr: Vec<Value> = Vec::new();
        let n = self.len();
        let mut i: usize = 0;
        while i < n
            invariant
                n == self@.len(),
                i <= n,
                arr@.len() == i,
            decreases n - i,
        {
            match self[i].to_value() {
                Ok(v) => arr.push(v),
                Err(e) => {
                    return Err(e);
                },
            }
            i = i + 1;
        }
        proof {
            crate::value::lemma_arr_view(arr@);
        }
        Ok(ValueSerializer::serialize_seq(arr))
    }
}

/// Encodes a source value and serializes it compactly. Whatever the
/// encoding of `value` yields, a successful result is the compact text of
/// some value within the depth ceiling.
pub fn serialize<V: ToValue>(value: &V) -> (r: Result<String, Error>)
    ensures
        r matches Ok(t) ==> exists|v: ValModel|
            t@ == #[trigger] emit_compact(v, false) && fits_depth(v, 0, MAX_DEPTH as int),
{
    let v = match value.to_value() {
        Ok(v) => v,
        Err(e) => {
            return Err(e);
        },
    };
    let formatter = CompactFormatter::new(false, None);
    let r = formatter.format(&v);
    proof {
        if r is Ok {
            let t = r->Ok_0;
            assert(t@ == emit_compact(v@, false) && fits_depth(v@, 0, MAX_DEPTH as int));
        }
    }
    r
}

/// Writes the text of a number.
fn write_number_text(out: &mut Vec<char>, m: &Number)
    ensures
        final (out)@ == old(out)@ + emit_num(m@),
{
    match m {
        Number::Int(i) => crate::text::push_dec_i64(*i, out),
        Number::Uint(u) => crate::text::push_dec_u64(*u, out),
        Number::Float(t) => crate::text::push_str_chars(out, t.as_str()),
        Number::NaN => {
            out.push('N');
            out.push('a');
            out.push('N');
            proof {
                assert(out@ =~= old(out)@ + crate::parser::lit_nan());
            }
        },
        Number::Infinity => {
            out.push('I');
            out.push('n');
            out.push('f');
            out.push('i');
            out.push('n');
            out.push('i');
            out.push('t');
            out.push('y');
            proof {
                assert(out@ =~= old(out)@ + crate::parser::lit_infinity());
            }
        },
        Number::NegInfinity => {
            out.push('-');
            out.push('I');
            out.push('n');
            out.push('f');
            out.push('i');
            out.push('n');
            out.push('i');
            out.push('t');
            out.push('y');
            proof {
                assert(out@ =~= old(out)@ + (seq!['-'] + crate::parser::lit_infinity()));
            }
        },
    }
}

} // verus!
