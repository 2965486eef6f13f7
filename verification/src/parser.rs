//! The scanner and recursive-descent parser: character-cursor primitives,
//! whitespace and comment skipping, and the grammar-directed routines that
//! produce a [`Value`] tree.
//!
//! Every executable routine is specified against a mathematical parser over
//! the input's character sequence; the specification functions in this module
//! are that parser.

use vstd::prelude::*;

use crate::error::{ErrModel, Error};
use crate::value::{NumModel, Number, ObjectMap, ValModel, Value};

verus! {

// ---------------------------------------------------------------------------
// Character classes
// ---------------------------------------------------------------------------

/// Insignificant whitespace: ASCII blanks plus U+00A0, U+2028 and U+2029.
pub open spec fn is_ws_char(c: char) -> bool {
    c == ' ' || c == '\t' || c == '\n' || c == '\r' || c == '\u{a0}' || c == '\u{2028}' || c
        == '\u{2029}'
}

/// Line terminators, which end a single-line comment.
pub open spec fn is_line_term(c: char) -> bool {
    c == '\n' || c == '\r' || c == '\u{2028}' || c == '\u{2029}'
}

/// ASCII decimal digit.
pub open spec fn is_digit(c: char) -> bool {
    0x30 <= c as u32 && c as u32 <= 0x39
}

/// ASCII letter.
pub open spec fn is_ascii_alpha(c: char) -> bool {
    (0x41 <= c as u32 && c as u32 <= 0x5a) || (0x61 <= c as u32 && c as u32 <= 0x7a)
}

/// The value of a hexadecimal digit character, if it is one.
pub open spec fn spec_hex_val(c: char) -> Option<u8> {
    if 0x30 <= c as u32 && c as u32 <= 0x39 {
        Some((c as u32 - 0x30) as u8)
    } else if 0x61 <= c as u32 && c as u32 <= 0x66 {
        Some((c as u32 - 0x61 + 10) as u8)
    } else if 0x41 <= c as u32 && c as u32 <= 0x46 {
        Some((c as u32 - 0x41 + 10) as u8)
    } else {
        None
    }
}

/// Whether `c` is a Unicode letter; what `char::is_alphabetic` decides.
pub uninterp spec fn unicode_alphabetic(c: char) -> bool;

/// Whether `c` is a Unicode letter or digit; what `char::is_alphanumeric`
/// decides.
pub uninterp spec fn unicode_alphanumeric(c: char) -> bool;

/// Relies on `char::is_alphabetic`: whether the character is a Unicode
/// letter, a function of the character alone.
#[verifier::external_body]
fn char_is_alphabetic(c: char) -> (r: bool)
    ensures
        r == unicode_alphabetic(c),
{
    c.is_alphabetic()
}

/// Relies on `char::is_alphanumeric`: whether the character is a Unicode
/// letter or digit, a function of the character alone.
#[verifier::external_body]
fn char_is_alphanumeric(c: char) -> (r: bool)
    ensures
        r == unicode_alphanumeric(c),
{
    c.is_alphanumeric()
}

/// Relies on `char::from_u32`: `Some` exactly for valid Unicode scalar
/// values, and the character returned has that code point.
#[verifier::external_body]
fn char_from_u32(n: u32) -> (r: Option<char>)
    ensures
        r is Some <==> is_valid_scalar(n as int),
        r matches Some(c) ==> c as u32 == n,
{
    char::from_u32(n)
}

/// A character that may open an unquoted object key: a letter, `_`, `$`.
pub open spec fn spec_id_start(c: char) -> bool {
    if (c as u32) < 0x80 {
        is_ascii_alpha(c) || c == '_' || c == '$'
    } else {
        unicode_alphabetic(c)
    }
}

/// A character that may continue an unquoted object key: additionally digits
/// and the join controls U+200C and U+200D.
pub open spec fn spec_id_continue(c: char) -> bool {
    if (c as u32) < 0x80 {
        is_ascii_alpha(c) || is_digit(c) || c == '_' || c == '$'
    } else {
        unicode_alphanumeric(c) || c == '\u{200c}' || c == '\u{200d}'
    }
}

/// Whether `c` may open an unquoted identifier key.
pub fn is_id_start_char(c: char) -> (r: bool)
    ensures
        r == spec_id_start(c),
{
    let n = c as u32;
    if n < 0x80 {
        (0x41 <= n && n <= 0x5a) || (0x61 <= n && n <= 0x7a) || c == '_' || c == '$'
    } else {
        char_is_alphabetic(c)
    }
}

/// Whether `c` may continue an unquoted identifier key.
pub fn is_id_continue_char(c: char) -> (r: bool)
    ensures
        r == spec_id_continue(c),
{
    let n = c as u32;
    if n < 0x80 {
        (0x41 <= n && n <= 0x5a) || (0x61 <= n && n <= 0x7a) || (0x30 <= n && n <= 0x39) || c
            == '_' || c == '$'
    } else {
        char_is_alphanumeric(c) || c == '\u{200c}' || c == '\u{200d}'
    }
}

/// The value of a hexadecimal digit character, if it is one.
pub fn hex_val(c: char) -> (r: Option<u8>)
    ensures
        r == spec_hex_val(c),
{
    let n = c as u32;
    if 0x30 <= n && n <= 0x39 {
        Some((n - 0x30) as u8)
    } else if 0x61 <= n && n <= 0x66 {
        Some((n - 0x61 + 10) as u8)
    } else if 0x41 <= n && n <= 0x46 {
        Some((n - 0x41 + 10) as u8)
    } else {
        None
    }
}

// ---------------------------------------------------------------------------
// Whitespace and comments, mathematically
// ---------------------------------------------------------------------------

/// The position just before the line terminator (or end) that closes a
/// single-line comment starting at `p`.
pub open spec fn skip_line_comment(s: Seq<char>, p: int) -> int
    decreases s.len() - p,
{
    if p < 0 || p >= s.len() {
        p
    } else if is_line_term(s[p]) {
        p
    } else {
        skip_line_comment(s, p + 1)
    }
}

/// The position just past the `*/` (or the end, for an unterminated comment)
/// that closes a block comment whose body starts at `p`.
pub open spec fn skip_block_comment(s: Seq<char>, p: int) -> int
    decreases s.len() - p,
{
    if p < 0 || p >= s.len() {
        p
    } else if s[p] == '*' && p + 1 < s.len() && s[p + 1] == '/' {
        p + 2
    } else {
        skip_block_comment(s, p + 1)
    }
}

/// Scanning to a line terminator or end never moves backwards.
pub proof fn lemma_skip_line_comment_range(s: Seq<char>, p: int)
    requires
        0 <= p <= s.len(),
    ensures
        p <= skip_line_comment(s, p) <= s.len(),
    decreases s.len() - p,
{
    if p < s.len() && !is_line_term(s[p]) {
        lemma_skip_line_comment_range(s, p + 1);
    }
}

/// Scanning past a block comment never moves backwards.
pub proof fn lemma_skip_block_comment_range(s: Seq<char>, p: int)
    requires
        0 <= p <= s.len(),
    ensures
        p <= skip_block_comment(s, p) <= s.len(),
    decreases s.len() - p,
{
    if p < s.len() && !(s[p] == '*' && p + 1 < s.len() && s[p + 1] == '/') {
        lemma_skip_block_comment_range(s, p + 1);
    }
}

/// The position after all insignificant whitespace and comments from `p` on.
pub open spec fn skip_ws(s: Seq<char>, p: int) -> int
    decreases s.len() - p, 0int
        via skip_ws_dec
{
    if p < 0 || p >= s.len() {
        p
    } else if is_ws_char(s[p]) {
        skip_ws(s, p + 1)
    } else if s[p] == '/' && p + 1 < s.len() && s[p + 1] == '/' {
        skip_ws(s, skip_line_comment(s, p + 2))
    } else if s[p] == '/' && p + 1 < s.len() && s[p + 1] == '*' {
        skip_ws(s, skip_block_comment(s, p + 2))
    } else {
        p
    }
}

#[via_fn]
proof fn skip_ws_dec(s: Seq<char>, p: int) {
    if 0 <= p && p < s.len() {
        if p + 1 < s.len() && s[p] == '/' && s[p + 1] == '/' {
            lemma_skip_line_comment_range(s, p + 2);
        }
        if p + 1 < s.len() && s[p] == '/' && s[p + 1] == '*' {
            lemma_skip_block_comment_range(s, p + 2);
        }
    }
}

/// Skipping whitespace never moves backwards.
pub proof fn lemma_skip_ws_range(s: Seq<char>, p: int)
    requires
        0 <= p <= s.len(),
    ensures
        p <= skip_ws(s, p) <= s.len(),
    decreases s.len() - p, 0int
{
    if p < s.len() {
        if is_ws_char(s[p]) {
            lemma_skip_ws_range(s, p + 1);
        } else if s[p] == '/' && p + 1 < s.len() && s[p + 1] == '/' {
            lemma_skip_line_comment_range(s, p + 2);
            if skip_line_comment(s, p + 2) > p {
                lemma_skip_ws_range(s, skip_line_comment(s, p + 2));
            }
        } else if s[p] == '/' && p + 1 < s.len() && s[p + 1] == '*' {
            lemma_skip_block_comment_range(s, p + 2);
            if skip_block_comment(s, p + 2) > p {
                lemma_skip_ws_range(s, skip_block_comment(s, p + 2));
            }
        }
    }
}

/// A position that opens neither whitespace nor a comment is already past
/// all whitespace.
pub proof fn lemma_skip_ws_stop(s: Seq<char>, p: int)
    requires
        0 <= p <= s.len(),
        p < s.len() ==> !is_ws_char(s[p]) && s[p] != '/',
    ensures
        skip_ws(s, p) == p,
{
}

// ---------------------------------------------------------------------------
// The parser state
// ---------------------------------------------------------------------------

/// A byte-free character cursor over one input text. All state is local to
/// one instance; distinct parses share nothing.
pub struct Parser {
    input: Vec<char>,
    pos: usize,
}

impl Parser {
    /// The characters being parsed.
    pub closed spec fn spec_input(&self) -> Seq<char> {
        self.input@
    }

    /// The cursor, counted in characters.
    pub closed spec fn spec_pos(&self) -> int {
        self.pos as int
    }

    /// The cursor never passes the end of the input.
    pub open spec fn wf(&self) -> bool {
        self.spec_pos() <= self.spec_input().len()
    }

    /// A parser at the start of `input`.
    pub fn new(input: &str) -> (r: Parser)
        ensures
            r.spec_input() == input@,
            r.spec_pos() == 0,
            r.wf(),
    {
        Parser { input: crate::text::chars_of(input), pos: 0 }
    }

    /// The cursor position, counted in characters.
    pub fn pos(&self) -> (r: usize)
        ensures
            r == self.spec_pos(),
    {
        self.pos
    }

    /// How many characters are left.
    pub fn remaining(&self) -> (r: usize)
        requires
            self.wf(),
        ensures
            r == self.spec_input().len() - self.spec_pos(),
    {
        self.input.len() - self.pos
    }

    /// The character under the cursor, if any.
    fn peek(&self) -> (r: Option<char>)
        requires
            self.wf(),
        ensures
            r == if self.spec_pos() < self.spec_input().len() {
                Some(self.spec_input()[self.spec_pos()])
            } else {
                None::<char>
            },
    {
        if self.pos < self.input.len() {
            Some(self.input[self.pos])
        } else {
            None
        }
    }

    /// The character after the one under the cursor, if any.
    fn peek2(&self) -> (r: Option<char>)
        requires
            self.wf(),
        ensures
            r == if self.spec_pos() + 1 < self.spec_input().len() {
                Some(self.spec_input()[self.spec_pos() + 1])
            } else {
                None::<char>
            },
    {
        if self.pos < self.input.len() && self.pos + 1 < self.input.len() {
            Some(self.input[self.pos + 1])
        } else {
            None
        }
    }

    /// Moves the cursor one character forward.
    fn advance(&mut self)
        requires
            old(self).wf(),
            old(self).spec_pos() < old(self).spec_input().len(),
        ensures
            final (self).spec_input() == old(self).spec_input(),
            final (self).spec_pos() == old(self).spec_pos() + 1,
            final (self).wf(),
    {
        let n = self.input.len();
        self.pos = self.pos + 1;
    }

    /// Takes the character under the cursor, if any, and moves past it.
    fn eat(&mut self) -> (r: Option<char>)
        requires
            old(self).wf(),
        ensures
            final (self).spec_input() == old(self).spec_input(),
            final (self).wf(),
            r == if old(self).spec_pos() < old(self).spec_input().len() {
                Some(old(self).spec_input()[old(self).spec_pos()])
            } else {
                None::<char>
            },
            final (self).spec_pos() == if old(self).spec_pos() < old(self).spec_input().len() {
                old(self).spec_pos() + 1
            } else {
                old(self).spec_pos()
            },
    {
        if self.pos < self.input.len() {
            let c = self.input[self.pos];
            self.pos = self.pos + 1;
            Some(c)
        } else {
            None
        }
    }

    /// Requires the character under the cursor to be `c` and moves past it.
    fn expect(&mut self, c: char) -> (r: Result<(), Error>)
        requires
            old(self).wf(),
        ensures
            final (self).spec_input() == old(self).spec_input(),
            final (self).wf(),
            match r {
                Ok(()) => old(self).spec_pos() < old(self).spec_input().len() && old(
                    self,
                ).spec_input()[old(self).spec_pos()] == c && final (self).spec_pos() == old(
                    self,
                ).spec_pos() + 1,
                Err(e) => final (self).spec_pos() == old(self).spec_pos() && e@ == spec_expect_err(
                    old(self).spec_input(),
                    old(self).spec_pos(),
                    c,
                ),
            },
            r is Err ==> (old(self).spec_pos() >= old(self).spec_input().len() || old(
                self,
            ).spec_input()[old(self).spec_pos()] != c),
    {
        match self.peek() {
            Some(g) => {
                if g == c {
                    self.advance();
                    Ok(())
                } else {
                    Err(Error::Expected(c, Some(g)))
                }
            },
            None => Err(Error::UnexpectedEof),
        }
    }

    /// Consumes whitespace, `//` comments (to their line terminator) and
    /// `/* */` comments (an unterminated one leniently, to the end).
    pub fn skip_whitespace_and_comments(&mut self)
        requires
            old(self).wf(),
        ensures
            final (self).spec_input() == old(self).spec_input(),
            final (self).spec_pos() == skip_ws(old(self).spec_input(), old(self).spec_pos()),
            final (self).wf(),
    {
        let ghost s = self.spec_input();
        let ghost p0 = self.spec_pos();
        loop
            invariant
                self.spec_input() == s,
                self.wf(),
                skip_ws(s, p0) == skip_ws(s, self.spec_pos()),
            ensures
                self.spec_input() == s,
                self.wf(),
                self.spec_pos() == skip_ws(s, p0),
            decreases s.len() - self.spec_pos(), 1int,
        {
            let ghost p_iter = self.spec_pos();
            let n = self.input.len();
            // Whitespace run.
            while self.pos < n && is_ws_exec(self.input[self.pos])
                invariant
                    self.spec_input() == s,
                    n == s.len(),
                    self.wf(),
                    p_iter <= self.spec_pos(),
                    skip_ws(s, p0) == skip_ws(s, self.spec_pos()),
                decreases s.len() - self.spec_pos(),
            {
                proof {
                    lemma_skip_ws_range(s, self.spec_pos() + 1);
                }
                self.pos = self.pos + 1;
            }
            // Comments.
            let open_line = self.pos < n && self.pos + 1 < n && self.input[self.pos] == '/'
                && self.input[self.pos + 1] == '/';
            let open_block = self.pos < n && self.pos + 1 < n && self.input[self.pos] == '/'
                && self.input[self.pos + 1] == '*';
            if open_line {
                let ghost pc = self.spec_pos();
                self.pos = self.pos + 2;
                while self.pos < n && !is_line_term_exec(self.input[self.pos])
                    invariant
                        self.spec_input() == s,
                        n == s.len(),
                        self.wf(),
                        pc + 2 <= self.spec_pos(),
                        skip_line_comment(s, pc + 2) == skip_line_comment(s, self.spec_pos()),
                    decreases s.len() - self.spec_pos(),
                {
                    self.pos = self.pos + 1;
                }
                proof {
                    assert(skip_line_comment(s, self.spec_pos()) == self.spec_pos());
                    assert(skip_ws(s, pc) == skip_ws(s, self.spec_pos()));
                }
            } else if open_block {
                let ghost pc = self.spec_pos();
                self.pos = self.pos + 2;
                loop
                    invariant_except_break
                        skip_block_comment(s, pc + 2) == skip_block_comment(s, self.spec_pos()),
                    invariant
                        self.spec_input() == s,
                        n == s.len(),
                        self.wf(),
                        pc + 2 <= self.spec_pos(),
                    ensures
                        self.spec_input() == s,
                        self.wf(),
                        pc + 2 <= self.spec_pos(),
                        skip_block_comment(s, pc + 2) == self.spec_pos(),
                    decreases s.len() - self.spec_pos(),
                {
                    if self.pos >= n {
                        proof {
                            assert(skip_block_comment(s, self.spec_pos()) == self.spec_pos());
                        }
                        break ;
                    }
                    if self.input[self.pos] == '*' && self.pos + 1 < n && self.input[self.pos + 1]
                        == '/' {
                        proof {
                            assert(skip_block_comment(s, self.spec_pos()) == self.spec_pos() + 2);
                        }
                        self.pos = self.pos + 2;
                        break ;
                    }
                    self.pos = self.pos + 1;
                }
                proof {
                    assert(skip_ws(s, pc) == skip_ws(s, self.spec_pos()));
                }
            } else {
                proof {
                    assert(skip_ws(s, self.spec_pos()) == self.spec_pos());
                }
                break ;
            }
            proof {
                assert(p_iter + 2 <= self.spec_pos());
            }
        }
    }
}

/// Whether `c` is insignificant whitespace.
fn is_ws_exec(c: char) -> (r: bool)
    ensures
        r == is_ws_char(c),
{
    c == ' ' || c == '\t' || c == '\n' || c == '\r' || c == '\u{a0}' || c == '\u{2028}' || c
        == '\u{2029}'
}

/// Whether `c` ends a single-line comment.
fn is_line_term_exec(c: char) -> (r: bool)
    ensures
        r == is_line_term(c),
{
    c == '\n' || c == '\r' || c == '\u{2028}' || c == '\u{2029}'
}

/// The error that `expect` raises at `p` when the input does not continue
/// with `c`.
pub open spec fn spec_expect_err(s: Seq<char>, p: int, c: char) -> ErrModel {
    if p < s.len() {
        ErrModel::Expected(c, Some(s[p]))
    } else {
        ErrModel::UnexpectedEof
    }
}

// ---------------------------------------------------------------------------
// Number literals, mathematically
// ---------------------------------------------------------------------------

/// The end of the run of decimal digits and underscores starting at `p`.
pub open spec fn scan_digits(s: Seq<char>, p: int) -> int
    decreases s.len() - p,
{
    if p < 0 || p >= s.len() {
        p
    } else if is_digit(s[p]) || s[p] == '_' {
        scan_digits(s, p + 1)
    } else {
        p
    }
}

/// The end of the run of hexadecimal digits and underscores starting at `p`.
pub open spec fn scan_hex_digits(s: Seq<char>, p: int) -> int
    decreases s.len() - p,
{
    if p < 0 || p >= s.len() {
        p
    } else if spec_hex_val(s[p]) is Some || s[p] == '_' {
        scan_hex_digits(s, p + 1)
    } else {
        p
    }
}

/// `t` with its underscores dropped.
pub open spec fn strip_uscores(t: Seq<char>) -> Seq<char>
    decreases t.len(),
{
    if t.len() == 0 {
        Seq::empty()
    } else if t[0] == '_' {
        strip_uscores(t.drop_first())
    } else {
        seq![t[0]] + strip_uscores(t.drop_first())
    }
}

/// How many decimal digits occur in `t`.
pub open spec fn count_digits(t: Seq<char>) -> int
    decreases t.len(),
{
    if t.len() == 0 {
        0
    } else {
        (if is_digit(t[0]) {
            1int
        } else {
            0int
        }) + count_digits(t.drop_first())
    }
}

/// The value of a decimal digit text, most significant digit first.
pub open spec fn digits_val(t: Seq<char>) -> int
    decreases t.len(),
{
    if t.len() == 0 {
        0
    } else {
        digits_val(t.drop_last()) * 10 + (t.last() as u32 - 0x30)
    }
}

/// The value of a hexadecimal digit text, most significant digit first.
pub open spec fn hex_digits_val(t: Seq<char>) -> int
    decreases t.len(),
{
    if t.len() == 0 {
        0
    } else {
        hex_digits_val(t.drop_last()) * 16 + (match spec_hex_val(t.last()) {
            Some(d) => d as int,
            None => 0,
        })
    }
}

/// The text a float literal is kept as: the sign, the integer digits (a
/// zero supplied when a fraction starts at once), the fraction (a zero
/// supplied after a bare trailing dot), and the exponent — underscores
/// dropped throughout.
pub open spec fn float_text(
    s: Seq<char>,
    p: int,
    p1: int,
    p2: int,
    frac: bool,
    p3: int,
    p4: int,
) -> Seq<char> {
    strip_uscores(s.subrange(p, p1)) + (if frac && strip_uscores(s.subrange(p1, p2)).len() == 0 {
        seq!['0']
    } else {
        Seq::empty()
    }) + strip_uscores(s.subrange(p1, p2)) + (if frac {
        strip_uscores(s.subrange(p2, p3)) + (if count_digits(s.subrange(p2 + 1, p3)) == 0 {
            seq!['0']
        } else {
            Seq::empty()
        })
    } else {
        Seq::empty()
    }) + strip_uscores(s.subrange(p3, p4))
}

/// Where the number literal starting at `p` ends: after the optional sign,
/// the integer part (a lone `0`, or a run of digits), the optional fraction
/// and the optional exponent — or after the hexadecimal digits of a `0x`
/// literal.
pub open spec fn spec_parse_number(s: Seq<char>, p: int) -> Result<(NumModel, int), ErrModel> {
    let len = s.len() as int;
    let neg = p < len && s[p] == '-';
    let has_sign = p < len && (s[p] == '-' || s[p] == '+');
    let p1 = if has_sign {
        p + 1
    } else {
        p
    };
    if p1 < len && s[p1] == '0' && p1 + 1 < len && (s[p1 + 1] == 'x' || s[p1 + 1] == 'X') {
        // Hexadecimal literal.
        let h1 = scan_hex_digits(s, p1 + 2);
        let ht = strip_uscores(s.subrange(p1 + 2, h1));
        let v = hex_digits_val(ht);
        if ht.len() == 0 || v > u64::MAX {
            Err(ErrModel::InvalidNumber(ht))
        } else if neg {
            if v > 0x8000_0000_0000_0000 {
                Err(ErrModel::InvalidNumber(ht))
            } else {
                Ok((NumModel::Int(-v), h1))
            }
        } else {
            Ok((NumModel::Uint(v), h1))
        }
    } else {
        // Decimal literal: integer part, optional fraction, optional exponent.
        let p2 = if p1 < len && s[p1] == '0' {
            p1 + 1
        } else {
            scan_digits(s, p1)
        };
        let frac = p2 < len && s[p2] == '.';
        let p3 = if frac {
            scan_digits(s, p2 + 1)
        } else {
            p2
        };
        let exp = p3 < len && (s[p3] == 'e' || s[p3] == 'E');
        let pe = if exp {
            if p3 + 1 < len && (s[p3 + 1] == '+' || s[p3 + 1] == '-') {
                p3 + 2
            } else {
                p3 + 1
            }
        } else {
            p3
        };
        let p4 = if exp {
            scan_digits(s, pe)
        } else {
            p3
        };
        let t = strip_uscores(s.subrange(p, p4));
        if frac || exp {
            // A fractional part or exponent forces a float; the kept text
            // carries explicit zeros around a bare dot.
            if (strip_uscores(s.subrange(p1, p2)).len() > 0 || (frac && count_digits(
                s.subrange(p2 + 1, p3),
            ) >= 1)) && (exp ==> count_digits(s.subrange(pe, p4)) >= 1) {
                Ok((NumModel::Float(float_text(s, p, p1, p2, frac, p3, p4)), p4))
            } else {
                Err(ErrModel::InvalidNumber(t))
            }
        } else {
            let d = strip_uscores(s.subrange(p1, p2));
            let v = digits_val(d);
            if d.len() == 0 {
                Err(ErrModel::InvalidNumber(t))
            } else if neg {
                if v > 0x8000_0000_0000_0000 {
                    Err(ErrModel::InvalidNumber(t))
                } else {
                    Ok((NumModel::Int(-v), p4))
                }
            } else if v <= i64::MAX {
                Ok((NumModel::Int(v), p4))
            } else if v <= u64::MAX {
                Ok((NumModel::Uint(v), p4))
            } else {
                // Beyond the unsigned range the literal falls back to a float.
                Ok((NumModel::Float(t), p4))
            }
        }
    }
}

// ---------------------------------------------------------------------------
// String literals, mathematically
// ---------------------------------------------------------------------------

/// A valid Unicode scalar value: what a character can hold.
pub open spec fn is_valid_scalar(n: int) -> bool {
    (0 <= n < 0xD800) || (0xE000 <= n <= 0x10FFFF)
}

/// Scans the hexadecimal digits of a braced `\u{...}` escape. `p` stands on
/// the first digit (or the closing brace); at most six digits are allowed.
pub open spec fn spec_scan_braced_hex(s: Seq<char>, p: int, cp: int, digits: int) -> Result<
    (int, int),
    ErrModel,
>
    decreases s.len() - p,
{
    if p < 0 || p >= s.len() {
        Err(ErrModel::UnexpectedEof)
    } else if s[p] == '}' {
        Ok((cp, p + 1))
    } else {
        match spec_hex_val(s[p]) {
            None => Err(ErrModel::InvalidEscape('u')),
            Some(d) => {
                let cp2 = cp * 16 + d;
                if digits + 1 > 6 {
                    Err(ErrModel::InvalidUnicode(cp2 as u32))
                } else {
                    spec_scan_braced_hex(s, p + 1, cp2, digits + 1)
                }
            },
        }
    }
}

/// The code point of four hexadecimal digits at `p`, or the error of the
/// digit that is missing or malformed.
pub open spec fn spec_four_hex(s: Seq<char>, p: int) -> Result<int, ErrModel> {
    if p >= s.len() {
        Err(ErrModel::UnexpectedEof)
    } else if spec_hex_val(s[p]) is None {
        Err(ErrModel::InvalidEscape('u'))
    } else if p + 1 >= s.len() {
        Err(ErrModel::UnexpectedEof)
    } else if spec_hex_val(s[p + 1]) is None {
        Err(ErrModel::InvalidEscape('u'))
    } else if p + 2 >= s.len() {
        Err(ErrModel::UnexpectedEof)
    } else if spec_hex_val(s[p + 2]) is None {
        Err(ErrModel::InvalidEscape('u'))
    } else if p + 3 >= s.len() {
        Err(ErrModel::UnexpectedEof)
    } else if spec_hex_val(s[p + 3]) is None {
        Err(ErrModel::InvalidEscape('u'))
    } else {
        Ok(
            (spec_hex_val(s[p])->0 as int) * 4096 + (spec_hex_val(s[p + 1])->0 as int) * 256 + (
            spec_hex_val(s[p + 2])->0 as int) * 16 + (spec_hex_val(s[p + 3])->0 as int),
        )
    }
}

/// A `\u` escape, `p` standing just after the `u`: either a braced code
/// point or four hexadecimal digits, with surrogate pairing.
pub open spec fn spec_parse_unicode_escape(s: Seq<char>, p: int) -> Result<(char, int), ErrModel> {
    if p < s.len() && s[p] == '{' {
        match spec_scan_braced_hex(s, p + 1, 0, 0) {
            Err(e) => Err(e),
            Ok((cp, p2)) => if is_valid_scalar(cp) {
                Ok(((cp as u32) as char, p2))
            } else {
                Err(ErrModel::InvalidUnicode(cp as u32))
            },
        }
    } else {
        match spec_four_hex(s, p) {
            Err(e) => Err(e),
            Ok(cp) => if 0xD800 <= cp <= 0xDBFF {
                if p + 4 + 1 < s.len() && s[p + 4] == '\\' && s[p + 5] == 'u' {
                    match spec_four_hex(s, p + 6) {
                        Err(e) => Err(e),
                        Ok(lo) => if !(0xDC00 <= lo <= 0xDFFF) {
                            Err(ErrModel::InvalidUnicode(lo as u32))
                        } else {
                            Ok(
                                (((0x10000 + (cp - 0xD800) * 0x400 + (lo - 0xDC00)) as u32) as char, p
                                    + 10),
                            )
                        },
                    }
                } else {
                    Err(ErrModel::InvalidUnicode(cp as u32))
                }
            } else if 0xDC00 <= cp <= 0xDFFF {
                Err(ErrModel::InvalidUnicode(cp as u32))
            } else {
                Ok(((cp as u32) as char, p + 4))
            },
        }
    }
}

/// One escape sequence, `p` standing just after the backslash. Yields the
/// character it denotes, or nothing for a line continuation.
pub open spec fn spec_parse_escape(s: Seq<char>, p: int) -> Result<(Option<char>, int), ErrModel> {
    if p >= s.len() {
        Err(ErrModel::UnexpectedEof)
    } else {
        let c = s[p];
        if c == '"' || c == '\'' || c == '\\' || c == '/' {
            Ok((Some(c), p + 1))
        } else if c == 'b' {
            Ok((Some('\u{8}'), p + 1))
        } else if c == 'f' {
            Ok((Some('\u{c}'), p + 1))
        } else if c == 'n' {
            Ok((Some('\n'), p + 1))
        } else if c == 'r' {
            Ok((Some('\r'), p + 1))
        } else if c == 't' {
            Ok((Some('\t'), p + 1))
        } else if c == 'v' {
            Ok((Some('\u{b}'), p + 1))
        } else if c == '0' {
            // A null escape, unless a digit follows.
            if p + 1 < s.len() && 0x31 <= s[p + 1] as u32 && s[p + 1] as u32 <= 0x39 {
                Err(ErrModel::InvalidEscape('0'))
            } else {
                Ok((Some('\0'), p + 1))
            }
        } else if c == 'u' {
            match spec_parse_unicode_escape(s, p + 1) {
                Err(e) => Err(e),
                Ok((ch, p2)) => Ok((Some(ch), p2)),
            }
        } else if c == 'x' {
            if p + 1 >= s.len() {
                Err(ErrModel::UnexpectedEof)
            } else {
                match spec_hex_val(s[p + 1]) {
                    None => Err(ErrModel::InvalidEscape('x')),
                    Some(hi) => if p + 2 >= s.len() {
                        Err(ErrModel::UnexpectedEof)
                    } else {
                        match spec_hex_val(s[p + 2]) {
                            None => Err(ErrModel::InvalidEscape('x')),
                            Some(lo) => Ok(
                                (Some(((hi * 16 + lo) as u8) as char), p + 3),
                            ),
                        }
                    },
                }
            }
        } else if c == '\n' {
            Ok((None, p + 1))
        } else if c == '\r' {
            if p + 1 < s.len() && s[p + 1] == '\n' {
                Ok((None, p + 2))
            } else {
                Ok((None, p + 1))
            }
        } else {
            Err(ErrModel::InvalidEscape(c))
        }
    }
}

/// The body of a string literal quoted by `q`, `p` standing on the first
/// content character, `acc` holding what has been read so far. Bare line
/// terminators and other control characters are errors; escapes are
/// resolved; `U+2028` and `U+2029` may stand raw.
pub open spec fn spec_parse_string_body(s: Seq<char>, p: int, q: char, acc: Seq<char>) -> Result<
    (Seq<char>, int),
    ErrModel,
>
    decreases s.len() - p,
{
    if p < 0 || p >= s.len() {
        Err(ErrModel::UnexpectedEof)
    } else if s[p] == q {
        Ok((acc, p + 1))
    } else if s[p] == '\\' {
        match spec_parse_escape(s, p + 1) {
            Err(e) => Err(e),
            Ok((copt, p2)) => if p < p2 && p2 <= s.len() {
                spec_parse_string_body(
                    s,
                    p2,
                    q,
                    match copt {
                        Some(c) => acc.push(c),
                        None => acc,
                    },
                )
            } else {
                Err(ErrModel::UnexpectedEof)
            },
        }
    } else if s[p] == '\n' || s[p] == '\r' {
        Err(ErrModel::UnexpectedChar(s[p], p))
    } else if (s[p] as u32) < 0x20 {
        Err(ErrModel::UnexpectedChar(s[p], p))
    } else {
        spec_parse_string_body(s, p + 1, q, acc.push(s[p]))
    }
}

/// A run of plain characters up to the closing quote reads as itself.
pub proof fn lemma_string_body_plain(s: Seq<char>, p: int, e: int, q: char, acc: Seq<char>)
    requires
        0 <= p <= e < s.len(),
        s[e] == q,
        forall|j: int| p <= j < e ==> (#[trigger] s[j]) != q && s[j] != '\\' && (s[j] as u32)
            >= 0x20,
    ensures
        spec_parse_string_body(s, p, q, acc) == Ok::<(Seq<char>, int), ErrModel>(
            (acc + s.subrange(p, e), e + 1),
        ),
    decreases e - p,
{
    if p == e {
        assert(s.subrange(p, e) =~= Seq::<char>::empty());
        assert(acc + s.subrange(p, e) =~= acc);
    } else {
        lemma_string_body_plain(s, p + 1, e, q, acc.push(s[p]));
        assert(acc.push(s[p]) + s.subrange(p + 1, e) =~= acc + s.subrange(p, e));
    }
}

/// A whole string literal: the opening quote at `p`, the body, the closing
/// quote.
pub open spec fn spec_parse_string(s: Seq<char>, p: int) -> Result<(Seq<char>, int), ErrModel> {
    if p < 0 || p >= s.len() {
        Err(ErrModel::UnexpectedEof)
    } else {
        spec_parse_string_body(s, p + 1, s[p], Seq::empty())
    }
}

// ---------------------------------------------------------------------------
// Keys and identifiers, mathematically
// ---------------------------------------------------------------------------

/// The end of the identifier-continuation run starting at `p`.
pub open spec fn scan_id_continue(s: Seq<char>, p: int) -> int
    decreases s.len() - p,
{
    if p < 0 || p >= s.len() {
        p
    } else if spec_id_continue(s[p]) {
        scan_id_continue(s, p + 1)
    } else {
        p
    }
}

/// An unquoted identifier: an identifier-start character, then its
/// continuation run.
pub open spec fn spec_parse_identifier(s: Seq<char>, p: int) -> Result<(Seq<char>, int), ErrModel> {
    if p < 0 || p >= s.len() {
        Err(ErrModel::UnexpectedEof)
    } else if !spec_id_start(s[p]) {
        Err(ErrModel::UnexpectedChar(s[p], p + 1))
    } else {
        let e = scan_id_continue(s, p + 1);
        Ok((seq![s[p]] + s.subrange(p + 1, e), e))
    }
}

/// An object key: a quoted string, or an unquoted identifier opened by an
/// ASCII identifier-start or any non-ASCII character.
pub open spec fn spec_parse_key(s: Seq<char>, p: int) -> Result<(Seq<char>, int), ErrModel> {
    if p < 0 || p >= s.len() {
        Err(ErrModel::UnexpectedEof)
    } else if s[p] == '"' || s[p] == '\'' {
        spec_parse_string(s, p)
    } else if ((s[p] as u32) < 0x80 && (is_ascii_alpha(s[p]) || s[p] == '_' || s[p] == '$')) || (
    s[p] as u32) >= 0x80 {
        spec_parse_identifier(s, p)
    } else {
        Err(ErrModel::UnexpectedChar(s[p], p))
    }
}

// ---------------------------------------------------------------------------
// Values, mathematically
// ---------------------------------------------------------------------------

/// The text of the `null` literal.
pub open spec fn lit_null() -> Seq<char> {
    seq!['n', 'u', 'l', 'l']
}

/// The text of the `true` literal.
pub open spec fn lit_true() -> Seq<char> {
    seq!['t', 'r', 'u', 'e']
}

/// The text of the `false` literal.
pub open spec fn lit_false() -> Seq<char> {
    seq!['f', 'a', 'l', 's', 'e']
}

/// The text of the `Infinity` literal.
pub open spec fn lit_infinity() -> Seq<char> {
    seq!['I', 'n', 'f', 'i', 'n', 'i', 't', 'y']
}

/// The text of the `NaN` literal.
pub open spec fn lit_nan() -> Seq<char> {
    seq!['N', 'a', 'N']
}

/// Whether the literal `lit` stands at `p` in `s`.
pub open spec fn matches_at(s: Seq<char>, p: int, lit: Seq<char>) -> bool {
    p >= 0 && p + lit.len() <= s.len() && s.subrange(p, p + lit.len()) == lit
}

/// The `null` keyword at `p`.
pub open spec fn spec_parse_null(s: Seq<char>, p: int) -> Result<(ValModel, int), ErrModel> {
    if matches_at(s, p, lit_null()) {
        Ok((ValModel::Null, p + 4))
    } else {
        Err(ErrModel::UnexpectedChar('n', p))
    }
}

/// The `true` or `false` keyword at `p`.
pub open spec fn spec_parse_bool(s: Seq<char>, p: int) -> Result<(ValModel, int), ErrModel> {
    if matches_at(s, p, lit_true()) {
        Ok((ValModel::Bool(true), p + 4))
    } else if matches_at(s, p, lit_false()) {
        Ok((ValModel::Bool(false), p + 5))
    } else {
        Err(
            ErrModel::UnexpectedChar(
                if 0 <= p < s.len() {
                    s[p]
                } else {
                    '\0'
                },
                p,
            ),
        )
    }
}

/// The deepest nesting the parser follows, shared with the emitters.
pub open spec fn depth_err() -> ErrModel {
    ErrModel::Custom("Recursion limit exceeded"@)
}

/// One value at `p`, nested `d` levels deep: leading whitespace and
/// comments, then dispatch on the first character. Nesting past the shared
/// ceiling is refused.
pub open spec fn spec_parse_value(s: Seq<char>, p: int, d: int) -> Result<(ValModel, int), ErrModel>
    decreases s.len() - p, 1int
        via spec_parse_value_dec
{
    if p < 0 {
        Err(ErrModel::UnexpectedEof)
    } else if d > crate::ser::MAX_DEPTH {
        Err(depth_err())
    } else {
        let q = skip_ws(s, p);
        if q >= s.len() {
            Err(ErrModel::UnexpectedEof)
        } else {
            let c = s[q];
            if c == 'n' {
                spec_parse_null(s, q)
            } else if c == 't' || c == 'f' {
                spec_parse_bool(s, q)
            } else if c == '"' || c == '\'' {
                match spec_parse_string(s, q) {
                    Err(e) => Err(e),
                    Ok((t, p2)) => Ok((ValModel::Str(t), p2)),
                }
            } else if c == '[' {
                spec_parse_array(s, q, d)
            } else if c == '{' {
                spec_parse_object(s, q, d)
            } else if c == '-' {
                if matches_at(s, q + 1, lit_infinity()) {
                    Ok((ValModel::Number(NumModel::NegInfinity), q + 9))
                } else {
                    match spec_parse_number(s, q) {
                        Err(e) => Err(e),
                        Ok((n, p2)) => Ok((ValModel::Number(n), p2)),
                    }
                }
            } else if c == '+' {
                if matches_at(s, q + 1, lit_infinity()) {
                    Ok((ValModel::Number(NumModel::Infinity), q + 9))
                } else {
                    match spec_parse_number(s, q) {
                        Err(e) => Err(e),
                        Ok((n, p2)) => Ok((ValModel::Number(n), p2)),
                    }
                }
            } else if c == 'I' {
                if matches_at(s, q, lit_infinity()) {
                    Ok((ValModel::Number(NumModel::Infinity), q + 8))
                } else {
                    Err(ErrModel::UnexpectedChar('I', q))
                }
            } else if c == 'N' {
                if matches_at(s, q, lit_nan()) {
                    Ok((ValModel::Number(NumModel::NaN), q + 3))
                } else {
                    Err(ErrModel::UnexpectedChar('N', q))
                }
            } else if is_digit(c) || c == '.' {
                match spec_parse_number(s, q) {
                    Err(e) => Err(e),
                    Ok((n, p2)) => Ok((ValModel::Number(n), p2)),
                }
            } else {
                Err(ErrModel::UnexpectedChar(c, q))
            }
        }
    }
}

#[via_fn]
proof fn spec_parse_value_dec(s: Seq<char>, p: int, d: int) {
    if 0 <= p <= s.len() {
        lemma_skip_ws_range(s, p);
    }
}

/// An array at `p`: the opening bracket, then its elements.
pub open spec fn spec_parse_array(s: Seq<char>, p: int, d: int) -> Result<(ValModel, int), ErrModel>
    decreases s.len() - p, 0int
{
    if p < 0 || p >= s.len() || s[p] != '[' {
        Err(spec_expect_err(s, if p < 0 { s.len() as int } else { p }, '['))
    } else {
        spec_parse_array_rest(s, p + 1, Seq::empty(), d)
    }
}

/// The elements of an array from `p` on, `acc` holding those already read:
/// values separated by commas, a trailing comma tolerated, closed by `]`.
pub open spec fn spec_parse_array_rest(
    s: Seq<char>,
    p: int,
    acc: Seq<ValModel>,
    d: int,
) -> Result<(ValModel, int), ErrModel>
    decreases s.len() - p, 2int
        via spec_parse_array_rest_dec
{
    if p < 0 {
        Err(ErrModel::UnexpectedEof)
    } else {
        let q = skip_ws(s, p);
        if q >= s.len() {
            Err(ErrModel::UnexpectedEof)
        } else if s[q] == ']' {
            Ok((ValModel::Arr(acc), q + 1))
        } else {
            match spec_parse_value(s, q, d + 1) {
                Err(e) => Err(e),
                Ok((v, p2)) => if !(q < p2 <= s.len()) {
                    Err(ErrModel::UnexpectedEof)
                } else {
                    let q2 = skip_ws(s, p2);
                    if !(p2 <= q2 <= s.len()) {
                        Err(ErrModel::UnexpectedEof)
                    } else if q2 >= s.len() {
                        Err(ErrModel::UnexpectedEof)
                    } else if s[q2] == ',' {
                        spec_parse_array_rest(s, q2 + 1, acc.push(v), d)
                    } else if s[q2] == ']' {
                        Ok((ValModel::Arr(acc.push(v)), q2 + 1))
                    } else {
                        Err(ErrModel::UnexpectedChar(s[q2], q2))
                    }
                },
            }
        }
    }
}

#[via_fn]
proof fn spec_parse_array_rest_dec(s: Seq<char>, p: int, acc: Seq<ValModel>, d: int) {
    if 0 <= p <= s.len() {
        lemma_skip_ws_range(s, p);
    }
}

/// An object at `p`: the opening brace, then its entries.
pub open spec fn spec_parse_object(s: Seq<char>, p: int, d: int) -> Result<
    (ValModel, int),
    ErrModel,
>
    decreases s.len() - p, 0int
{
    if p < 0 || p >= s.len() || s[p] != '{' {
        Err(spec_expect_err(s, if p < 0 { s.len() as int } else { p }, '{'))
    } else {
        spec_parse_object_rest(s, p + 1, Seq::empty(), d)
    }
}

/// The entries of an object from `p` on, `acc` holding those already read:
/// key, colon and value, separated by commas, a trailing comma tolerated,
/// closed by `}`. A repeated key overwrites its value in place.
pub open spec fn spec_parse_object_rest(
    s: Seq<char>,
    p: int,
    acc: Seq<(Seq<char>, ValModel)>,
    d: int,
) -> Result<(ValModel, int), ErrModel>
    decreases s.len() - p, 2int
        via spec_parse_object_rest_dec
{
    if p < 0 {
        Err(ErrModel::UnexpectedEof)
    } else {
        let q = skip_ws(s, p);
        if q >= s.len() {
            Err(ErrModel::UnexpectedEof)
        } else if s[q] == '}' {
            Ok((ValModel::Obj(acc), q + 1))
        } else {
            match spec_parse_key(s, q) {
                Err(e) => Err(e),
                Ok((k, pk)) => if !(q < pk <= s.len()) {
                    Err(ErrModel::UnexpectedEof)
                } else {
                    let qc = skip_ws(s, pk);
                    if !(pk <= qc <= s.len()) {
                        Err(ErrModel::UnexpectedEof)
                    } else if qc >= s.len() {
                        Err(ErrModel::UnexpectedEof)
                    } else if s[qc] != ':' {
                        Err(ErrModel::Expected(':', Some(s[qc])))
                    } else {
                        match spec_parse_value(s, qc + 1, d + 1) {
                            Err(e) => Err(e),
                            Ok((v, p2)) => if !(qc < p2 <= s.len()) {
                                Err(ErrModel::UnexpectedEof)
                            } else {
                                let acc2 = crate::value::obj_insert_model(acc, k, v);
                                let q2 = skip_ws(s, p2);
                                if !(p2 <= q2 <= s.len()) {
                                    Err(ErrModel::UnexpectedEof)
                                } else if q2 >= s.len() {
                                    Err(ErrModel::UnexpectedEof)
                                } else if s[q2] == ',' {
                                    spec_parse_object_rest(s, q2 + 1, acc2, d)
                                } else if s[q2] == '}' {
                                    Ok((ValModel::Obj(acc2), q2 + 1))
                                } else {
                                    Err(ErrModel::UnexpectedChar(s[q2], q2))
                                }
                            },
                        }
                    }
                },
            }
        }
    }
}

#[via_fn]
proof fn spec_parse_object_rest_dec(s: Seq<char>, p: int, acc: Seq<(Seq<char>, ValModel)>, d: int) {
    if 0 <= p <= s.len() {
        lemma_skip_ws_range(s, p);
    }
}

// ---------------------------------------------------------------------------
// Facts about scans and digit values
// ---------------------------------------------------------------------------

/// Extending a text by one character extends its underscore-free form.
pub proof fn lemma_strip_push(t: Seq<char>, c: char)
    ensures
        strip_uscores(t.push(c)) == if c == '_' {
            strip_uscores(t)
        } else {
            strip_uscores(t).push(c)
        },
    decreases t.len(),
{
    assert(strip_uscores(Seq::<char>::empty()) == Seq::<char>::empty());
    if t.len() == 0 {
        assert(t.push(c).drop_first() =~= Seq::<char>::empty());
        if c != '_' {
            assert(strip_uscores(t.push(c)) =~= strip_uscores(t).push(c));
        } else {
            assert(strip_uscores(t.push(c)) =~= strip_uscores(t));
        }
    } else {
        assert(t.push(c).drop_first() =~= t.drop_first().push(c));
        lemma_strip_push(t.drop_first(), c);
        if c != '_' {
            assert(strip_uscores(t.push(c)) =~= strip_uscores(t).push(c));
        } else {
            assert(strip_uscores(t.push(c)) =~= strip_uscores(t));
        }
    }
}

/// Extending a text by one character adds at most one to its digit count.
pub proof fn lemma_count_digits_push(t: Seq<char>, c: char)
    ensures
        count_digits(t.push(c)) == count_digits(t) + if is_digit(c) {
            1int
        } else {
            0int
        },
    decreases t.len(),
{
    assert(count_digits(Seq::<char>::empty()) == 0);
    if t.len() == 0 {
        assert(t.push(c).drop_first() =~= Seq::<char>::empty());
    } else {
        assert(t.push(c).drop_first() =~= t.drop_first().push(c));
        lemma_count_digits_push(t.drop_first(), c);
    }
}

/// Appending a digit multiplies the value by ten and adds the digit.
pub proof fn lemma_digits_val_push(t: Seq<char>, c: char)
    ensures
        digits_val(t.push(c)) == digits_val(t) * 10 + (c as u32 - 0x30),
{
    assert(t.push(c).drop_last() =~= t);
}

/// Appending a hexadecimal digit multiplies the value by sixteen and adds it.
pub proof fn lemma_hex_digits_val_push(t: Seq<char>, c: char)
    ensures
        hex_digits_val(t.push(c)) == hex_digits_val(t) * 16 + (match spec_hex_val(c) {
            Some(d) => d as int,
            None => 0,
        }),
{
    assert(t.push(c).drop_last() =~= t);
}

/// One more character in the window is one more pushed at its end.
pub proof fn lemma_subrange_push(s: Seq<char>, a: int, b: int)
    requires
        0 <= a <= b < s.len(),
    ensures
        s.subrange(a, b + 1) == s.subrange(a, b).push(s[b]),
{
    assert(s.subrange(a, b + 1) =~= s.subrange(a, b).push(s[b]));
}

impl Parser {
    /// Parses a numeric literal: optional sign, then a hexadecimal literal or
    /// a decimal literal with optional fraction and exponent. The lexical
    /// form alone decides the variant.
    #[verifier::rlimit(100)]
    pub fn parse_number(&mut self) -> (r: Result<Value, Error>)
        requires
            old(self).wf(),
        ensures
            final (self).spec_input() == old(self).spec_input(),
            final (self).wf(),
            match r {
                Ok(v) => spec_parse_number(old(self).spec_input(), old(self).spec_pos()) matches Ok(
                    (n, p2),
                ) && v@ == ValModel::Number(n) && final (self).spec_pos() == p2 && old(
                    self,
                ).spec_pos() < p2 <= old(self).spec_input().len(),
                Err(e) => spec_parse_number(old(self).spec_input(), old(self).spec_pos()) matches
                    Err(m) && e@ == m,
            },
    {
        let ghost s = self.spec_input();
        let ghost p = self.spec_pos();
        let start = self.pos;
        let n = self.input.len();
        let neg = self.pos < n && self.input[self.pos] == '-';
        if self.pos < n && (self.input[self.pos] == '-' || self.input[self.pos] == '+') {
            self.pos = self.pos + 1;
        }
        let i1 = self.pos;
        let ghost p1 = self.spec_pos();
        // Hexadecimal literal.
        if self.pos < n && self.input[self.pos] == '0' && self.pos + 1 < n && (self.input[self.pos
            + 1] == 'x' || self.input[self.pos + 1] == 'X') {
            self.pos = self.pos + 2;
            let ghost h0 = self.spec_pos();
            let mut hval: u128 = 0;
            let mut digits: Vec<char> = Vec::new();
            loop
                invariant
                    self.spec_input() == s,
                    n == s.len(),
                    self.wf(),
                    0 <= h0 <= self.spec_pos() <= s.len(),
                    scan_hex_digits(s, h0) == scan_hex_digits(s, self.spec_pos()),
                    digits@ == strip_uscores(s.subrange(h0, self.spec_pos())),
                    hex_digits_val(digits@) >= 0,
                    hval <= u64::MAX ==> hval == hex_digits_val(digits@),
                    hval > u64::MAX ==> hex_digits_val(digits@) > u64::MAX,
                ensures
                    self.spec_input() == s,
                    self.wf(),
                    0 <= h0 <= self.spec_pos() <= s.len(),
                    self.spec_pos() == scan_hex_digits(s, h0),
                    digits@ == strip_uscores(s.subrange(h0, self.spec_pos())),
                    hex_digits_val(digits@) >= 0,
                    hval <= u64::MAX ==> hval == hex_digits_val(digits@),
                    hval > u64::MAX ==> hex_digits_val(digits@) > u64::MAX,
                decreases s.len() - self.spec_pos(),
            {
                if self.pos >= n {
                    break ;
                }
                let c = self.input[self.pos];
                let hv = hex_val(c);
                if hv.is_none() && c != '_' {
                    break ;
                }
                proof {
                    lemma_subrange_push(s, h0, self.spec_pos());
                    lemma_strip_push(s.subrange(h0, self.spec_pos()), c);
                }
                match hv {
                    Some(d) => {
                        proof {
                            lemma_hex_digits_val_push(digits@, c);
                        }
                        digits.push(c);
                        if hval <= u64::MAX as u128 {
                            hval = hval * 16 + d as u128;
                        }
                    },
                    None => {},
                }
                self.pos = self.pos + 1;
            }
            if digits.len() == 0 || hval > u64::MAX as u128 {
                return Err(Error::InvalidNumber(crate::text::string_from_chars(&digits)));
            }
            let v = hval as u64;
            if neg {
                if v > 0x8000_0000_0000_0000 {
                    return Err(Error::InvalidNumber(crate::text::string_from_chars(&digits)));
                }
                let i = if v == 0x8000_0000_0000_0000 {
                    i64::MIN
                } else {
                    -(v as i64)
                };
                return Ok(Value::Number(Number::Int(i)));
            }
            return Ok(Value::Number(Number::Uint(v)));
        }
        // Decimal literal. Integer part: a lone `0`, or a run of digits and
        // underscores.
        let mut val: u128 = 0;
        let mut int_digits: bool = false;
        if self.pos < n && self.input[self.pos] == '0' {
            proof {
                lemma_subrange_push(s, p1, p1);
                assert(s.subrange(p1, p1) =~= Seq::<char>::empty());
                assert(strip_uscores(Seq::<char>::empty()) == Seq::<char>::empty());
                assert(digits_val(Seq::<char>::empty()) == 0);
                lemma_strip_push(Seq::<char>::empty(), '0');
                lemma_digits_val_push(Seq::<char>::empty(), '0');
            }
            self.pos = self.pos + 1;
            int_digits = true;
            proof {
                assert(strip_uscores(s.subrange(p1, self.spec_pos())) =~= Seq::<
                    char,
                >::empty().push('0'));
                assert(digits_val(Seq::<char>::empty().push('0')) == 0);
            }
        } else {
            let ghost d0 = self.spec_pos();
            loop
                invariant
                    self.spec_input() == s,
                    n == s.len(),
                    self.wf(),
                    d0 == p1,
                    0 <= p1 <= self.spec_pos() <= s.len(),
                    scan_digits(s, p1) == scan_digits(s, self.spec_pos()),
                    digits_val(strip_uscores(s.subrange(p1, self.spec_pos()))) >= 0,
                    int_digits == (strip_uscores(s.subrange(p1, self.spec_pos())).len() > 0),
                    val <= u64::MAX ==> val == digits_val(
                        strip_uscores(s.subrange(p1, self.spec_pos())),
                    ),
                    val > u64::MAX ==> digits_val(strip_uscores(s.subrange(p1, self.spec_pos())))
                        > u64::MAX,
                ensures
                    self.spec_input() == s,
                    self.wf(),
                    p1 <= self.spec_pos() <= s.len(),
                    self.spec_pos() == scan_digits(s, p1),
                    digits_val(strip_uscores(s.subrange(p1, self.spec_pos()))) >= 0,
                    int_digits == (strip_uscores(s.subrange(p1, self.spec_pos())).len() > 0),
                    val <= u64::MAX ==> val == digits_val(
                        strip_uscores(s.subrange(p1, self.spec_pos())),
                    ),
                    val > u64::MAX ==> digits_val(strip_uscores(s.subrange(p1, self.spec_pos())))
                        > u64::MAX,
                decreases s.len() - self.spec_pos(),
            {
                if self.pos >= n {
                    break ;
                }
                let c = self.input[self.pos];
                let cu = c as u32;
                let dig = 0x30 <= cu && cu <= 0x39;
                if !dig && c != '_' {
                    break ;
                }
                proof {
                    lemma_subrange_push(s, p1, self.spec_pos());
                    lemma_strip_push(s.subrange(p1, self.spec_pos()), c);
                }
                if dig {
                    proof {
                        lemma_digits_val_push(strip_uscores(s.subrange(p1, self.spec_pos())), c);
                    }
                    if val <= u64::MAX as u128 {
                        val = val * 10 + (cu - 0x30) as u128;
                    }
                    int_digits = true;
                }
                self.pos = self.pos + 1;
            }
        }
        let i2 = self.pos;
        let ghost p2 = self.spec_pos();
        // Fractional part.
        let frac = self.pos < n && self.input[self.pos] == '.';
        let mut mant_digits: bool = int_digits;
        let mut fdig: bool = false;
        if frac {
            proof {
                lemma_count_digits_push(Seq::<char>::empty(), '.');
            }
            self.pos = self.pos + 1;
            let ghost f0 = self.spec_pos();
            loop
                invariant
                    self.spec_input() == s,
                    n == s.len(),
                    self.wf(),
                    f0 == p2 + 1,
                    0 <= f0 <= self.spec_pos() <= s.len(),
                    scan_digits(s, f0) == scan_digits(s, self.spec_pos()),
                    mant_digits == (int_digits || count_digits(s.subrange(f0, self.spec_pos()))
                        >= 1),
                    fdig == (count_digits(s.subrange(f0, self.spec_pos())) >= 1),
                    count_digits(s.subrange(f0, self.spec_pos())) >= 0,
                ensures
                    self.spec_input() == s,
                    self.wf(),
                    f0 <= self.spec_pos() <= s.len(),
                    self.spec_pos() == scan_digits(s, f0),
                    mant_digits == (int_digits || count_digits(s.subrange(f0, self.spec_pos()))
                        >= 1),
                    fdig == (count_digits(s.subrange(f0, self.spec_pos())) >= 1),
                decreases s.len() - self.spec_pos(),
            {
                if self.pos >= n {
                    break ;
                }
                let c = self.input[self.pos];
                let cu = c as u32;
                let dig = 0x30 <= cu && cu <= 0x39;
                if !dig && c != '_' {
                    break ;
                }
                proof {
                    lemma_subrange_push(s, f0, self.spec_pos());
                    lemma_count_digits_push(s.subrange(f0, self.spec_pos()), c);
                }
                if dig {
                    mant_digits = true;
                    fdig = true;
                }
                self.pos = self.pos + 1;
            }
        }
        let i3 = self.pos;
        let ghost p3 = self.spec_pos();
        // Exponent.
        let exp = self.pos < n && (self.input[self.pos] == 'e' || self.input[self.pos] == 'E');
        let mut exp_digits: bool = false;
        if exp {
            self.pos = self.pos + 1;
            if self.pos < n && (self.input[self.pos] == '+' || self.input[self.pos] == '-') {
                self.pos = self.pos + 1;
            }
            let ghost e0 = self.spec_pos();
            loop
                invariant
                    self.spec_input() == s,
                    n == s.len(),
                    self.wf(),
                    0 <= e0 <= self.spec_pos() <= s.len(),
                    scan_digits(s, e0) == scan_digits(s, self.spec_pos()),
                    exp_digits == (count_digits(s.subrange(e0, self.spec_pos())) >= 1),
                    count_digits(s.subrange(e0, self.spec_pos())) >= 0,
                ensures
                    self.spec_input() == s,
                    self.wf(),
                    e0 <= self.spec_pos() <= s.len(),
                    self.spec_pos() == scan_digits(s, e0),
                    exp_digits == (count_digits(s.subrange(e0, self.spec_pos())) >= 1),
                decreases s.len() - self.spec_pos(),
            {
                if self.pos >= n {
                    break ;
                }
                let c = self.input[self.pos];
                let cu = c as u32;
                let dig = 0x30 <= cu && cu <= 0x39;
                if !dig && c != '_' {
                    break ;
                }
                proof {
                    lemma_subrange_push(s, e0, self.spec_pos());
                    lemma_count_digits_push(s.subrange(e0, self.spec_pos()), c);
                }
                if dig {
                    exp_digits = true;
                }
                self.pos = self.pos + 1;
            }
        }
        let ghost p4 = self.spec_pos();
        // Assemble the stripped literal text.
        let text = self.collect_stripped(start, self.pos);
        if frac || exp {
            if mant_digits && (!exp || exp_digits) {
                // The kept text carries explicit zeros around a bare dot.
                let mut lit: Vec<char> = Vec::new();
                self.append_stripped(&mut lit, start, i1);
                if frac && !int_digits {
                    lit.push('0');
                }
                self.append_stripped(&mut lit, i1, i2);
                if frac {
                    self.append_stripped(&mut lit, i2, i3);
                    if !fdig {
                        lit.push('0');
                    }
                }
                self.append_stripped(&mut lit, i3, self.pos);
                proof {
                    assert(lit@ =~= float_text(s, p, p1, p2, frac, p3, p4));
                }
                return Ok(Value::Number(Number::Float(crate::text::string_from_chars(&lit))));
            }
            return Err(Error::InvalidNumber(text));
        }
        if !int_digits {
            return Err(Error::InvalidNumber(text));
        }
        if neg {
            if val > 0x8000_0000_0000_0000u128 {
                return Err(Error::InvalidNumber(text));
            }
            let v = val as u64;
            let i = if v == 0x8000_0000_0000_0000 {
                i64::MIN
            } else {
                -(v as i64)
            };
            return Ok(Value::Number(Number::Int(i)));
        }
        if val <= i64::MAX as u128 {
            return Ok(Value::Number(Number::Int(val as i64)));
        }
        if val <= u64::MAX as u128 {
            return Ok(Value::Number(Number::Uint(val as u64)));
        }
        Ok(Value::Number(Number::Float(text)))
    }

    /// One hexadecimal digit of a `\x` escape.
    fn eat_hex_digit(&mut self) -> (r: Result<u8, Error>)
        requires
            old(self).wf(),
        ensures
            final (self).spec_input() == old(self).spec_input(),
            final (self).wf(),
            match r {
                Ok(d) => old(self).spec_pos() < old(self).spec_input().len() && spec_hex_val(
                    old(self).spec_input()[old(self).spec_pos()],
                ) == Some(d) && final (self).spec_pos() == old(self).spec_pos() + 1,
                Err(e) => e@ == (if old(self).spec_pos() >= old(self).spec_input().len() {
                    ErrModel::UnexpectedEof
                } else {
                    ErrModel::InvalidEscape('x')
                }) && (old(self).spec_pos() < old(self).spec_input().len() ==> spec_hex_val(
                    old(self).spec_input()[old(self).spec_pos()],
                ) is None),
            },
    {
        match self.eat() {
            None => Err(Error::UnexpectedEof),
            Some(c) => match hex_val(c) {
                Some(d) => Ok(d),
                None => Err(Error::InvalidEscape('x')),
            },
        }
    }

    /// One hexadecimal digit of a `\u` escape.
    fn eat_hex_for_unicode(&mut self) -> (r: Result<u8, Error>)
        requires
            old(self).wf(),
        ensures
            final (self).spec_input() == old(self).spec_input(),
            final (self).wf(),
            match r {
                Ok(d) => old(self).spec_pos() < old(self).spec_input().len() && spec_hex_val(
                    old(self).spec_input()[old(self).spec_pos()],
                ) == Some(d) && final (self).spec_pos() == old(self).spec_pos() + 1,
                Err(e) => e@ == (if old(self).spec_pos() >= old(self).spec_input().len() {
                    ErrModel::UnexpectedEof
                } else {
                    ErrModel::InvalidEscape('u')
                }) && (old(self).spec_pos() < old(self).spec_input().len() ==> spec_hex_val(
                    old(self).spec_input()[old(self).spec_pos()],
                ) is None),
            },
    {
        match self.eat() {
            None => Err(Error::UnexpectedEof),
            Some(c) => match hex_val(c) {
                Some(d) => Ok(d),
                None => Err(Error::InvalidEscape('u')),
            },
        }
    }

    /// Four hexadecimal digits of a `\uXXXX` escape.
    fn read_four_hex(&mut self) -> (r: Result<u32, Error>)
        requires
            old(self).wf(),
        ensures
            final (self).spec_input() == old(self).spec_input(),
            final (self).wf(),
            match r {
                Ok(cp) => spec_four_hex(old(self).spec_input(), old(self).spec_pos())
                    == Ok::<int, ErrModel>(cp as int) && final (self).spec_pos() == old(
                    self,
                ).spec_pos() + 4 && cp <= 0xFFFF,
                Err(e) => spec_four_hex(old(self).spec_input(), old(self).spec_pos()) matches Err(
                    m,
                ) && e@ == m,
            },
    {
        let a = match self.eat_hex_for_unicode() {
            Ok(d) => d,
            Err(e) => {
                return Err(e);
            },
        };
        let b = match self.eat_hex_for_unicode() {
            Ok(d) => d,
            Err(e) => {
                return Err(e);
            },
        };
        let c = match self.eat_hex_for_unicode() {
            Ok(d) => d,
            Err(e) => {
                return Err(e);
            },
        };
        let d = match self.eat_hex_for_unicode() {
            Ok(d) => d,
            Err(e) => {
                return Err(e);
            },
        };
        Ok((a as u32) * 4096 + (b as u32) * 256 + (c as u32) * 16 + (d as u32))
    }

    /// A `\u` escape: a braced code point or four hexadecimal digits, with
    /// surrogate pairing.
    #[verifier::loop_isolation(false)]
    fn parse_unicode_escape(&mut self) -> (r: Result<char, Error>)
        requires
            old(self).wf(),
        ensures
            final (self).spec_input() == old(self).spec_input(),
            final (self).wf(),
            match r {
                Ok(c) => spec_parse_unicode_escape(old(self).spec_input(), old(self).spec_pos())
                    == Ok::<(char, int), ErrModel>((c, final (self).spec_pos())) && old(
                    self,
                ).spec_pos() < final (self).spec_pos() <= old(self).spec_input().len(),
                Err(e) => spec_parse_unicode_escape(old(self).spec_input(), old(self).spec_pos())
                    matches Err(m) && e@ == m,
            },
    {
        let ghost s = self.spec_input();
        let ghost p = self.spec_pos();
        let n = self.input.len();
        if self.pos < n && self.input[self.pos] == '{' {
            self.pos = self.pos + 1;
            let ghost b0 = self.spec_pos();
            let mut cp: u32 = 0;
            let mut digits: u8 = 0;
            loop
                invariant
                    self.spec_input() == s,
                    n == s.len(),
                    self.wf(),
                    0 <= b0 <= self.spec_pos() <= s.len(),
                    cp < 0x1000000,
                    digits <= 6,
                    digits <= 5 ==> cp < 0x100000,
                    digits <= 4 ==> cp < 0x10000,
                    digits <= 3 ==> cp < 0x1000,
                    digits <= 2 ==> cp < 0x100,
                    digits <= 1 ==> cp < 0x10,
                    digits == 0 ==> cp == 0,
                    spec_scan_braced_hex(s, b0, 0, 0) == spec_scan_braced_hex(
                        s,
                        self.spec_pos(),
                        cp as int,
                        digits as int,
                    ),
                decreases s.len() - self.spec_pos(),
            {
                if self.pos >= n {
                    return Err(Error::UnexpectedEof);
                }
                let c = self.input[self.pos];
                if c == '}' {
                    self.pos = self.pos + 1;
                    match char_from_u32(cp) {
                        Some(ch) => {
                            proof {
                                vstd::utf8::char_u32_cast(ch, cp);
                            }
                            return Ok(ch);
                        },
                        None => {
                            return Err(Error::InvalidUnicode(cp));
                        },
                    }
                }
                match hex_val(c) {
                    None => {
                        return Err(Error::InvalidEscape('u'));
                    },
                    Some(d) => {
                        let cp2 = cp * 16 + d as u32;
                        if digits + 1 > 6 {
                            return Err(Error::InvalidUnicode(cp2));
                        }
                        cp = cp2;
                        digits = digits + 1;
                        self.pos = self.pos + 1;
                    },
                }
            }
        } else {
            let cp = match self.read_four_hex() {
                Ok(v) => v,
                Err(e) => {
                    return Err(e);
                },
            };
            if 0xD800 <= cp && cp <= 0xDBFF {
                let bs = self.peek();
                let us = self.peek2();
                if bs == Some('\\') && us == Some('u') {
                    self.pos = self.pos + 2;
                    let lo = match self.read_four_hex() {
                        Ok(v) => v,
                        Err(e) => {
                            return Err(e);
                        },
                    };
                    if !(0xDC00 <= lo && lo <= 0xDFFF) {
                        return Err(Error::InvalidUnicode(lo));
                    }
                    let full = 0x10000 + (cp - 0xD800) * 0x400 + (lo - 0xDC00);
                    match char_from_u32(full) {
                        Some(ch) => {
                            proof {
                                vstd::utf8::char_u32_cast(ch, full);
                            }
                            return Ok(ch);
                        },
                        None => {
                            return Err(Error::InvalidUnicode(full));
                        },
                    }
                } else {
                    return Err(Error::InvalidUnicode(cp));
                }
            }
            match char_from_u32(cp) {
                Some(ch) => {
                    proof {
                        vstd::utf8::char_u32_cast(ch, cp);
                    }
                    Ok(ch)
                },
                None => Err(Error::InvalidUnicode(cp)),
            }
        }
    }

    /// One escape sequence, the backslash already consumed. A resolved
    /// character is appended to `out`; a line continuation appends nothing.
    fn parse_escape(&mut self, out: &mut Vec<char>) -> (r: Result<(), Error>)
        requires
            old(self).wf(),
        ensures
            final (self).spec_input() == old(self).spec_input(),
            final (self).wf(),
            match r {
                Ok(()) => spec_parse_escape(old(self).spec_input(), old(self).spec_pos()) matches
                    Ok((copt, p2)) && final (self).spec_pos() == p2 && old(self).spec_pos() < p2
                    <= old(self).spec_input().len() && final (out)@ == old(out)@ + (match copt {
                    Some(c) => seq![c],
                    None => Seq::<char>::empty(),
                }),
                Err(e) => spec_parse_escape(old(self).spec_input(), old(self).spec_pos()) matches
                    Err(m) && e@ == m,
            },
    {
        let ghost s = self.spec_input();
        let ghost p = self.spec_pos();
        let n = self.input.len();
        if self.pos >= n {
            return Err(Error::UnexpectedEof);
        }
        let c = self.input[self.pos];
        if c == '"' || c == '\'' || c == '\\' || c == '/' {
            self.pos = self.pos + 1;
            out.push(c);
            proof {
                assert(out@ =~= old(out)@ + seq![c]);
            }
            Ok(())
        } else if c == 'b' {
            self.pos = self.pos + 1;
            out.push('\u{8}');
            proof {
                assert(out@ =~= old(out)@ + seq!['\u{8}']);
            }
            Ok(())
        } else if c == 'f' {
            self.pos = self.pos + 1;
            out.push('\u{c}');
            proof {
                assert(out@ =~= old(out)@ + seq!['\u{c}']);
            }
            Ok(())
        } else if c == 'n' {
            self.pos = self.pos + 1;
            out.push('\n');
            proof {
                assert(out@ =~= old(out)@ + seq!['\n']);
            }
            Ok(())
        } else if c == 'r' {
            self.pos = self.pos + 1;
            out.push('\r');
            proof {
                assert(out@ =~= old(out)@ + seq!['\r']);
            }
            Ok(())
        } else if c == 't' {
            self.pos = self.pos + 1;
            out.push('\t');
            proof {
                assert(out@ =~= old(out)@ + seq!['\t']);
            }
            Ok(())
        } else if c == 'v' {
            self.pos = self.pos + 1;
            out.push('\u{b}');
            proof {
                assert(out@ =~= old(out)@ + seq!['\u{b}']);
            }
            Ok(())
        } else if c == '0' {
            if self.pos + 1 < n {
                let d = self.input[self.pos + 1];
                let du = d as u32;
                if 0x31 <= du && du <= 0x39 {
                    return Err(Error::InvalidEscape('0'));
                }
            }
            self.pos = self.pos + 1;
            out.push('\0');
            proof {
                assert(out@ =~= old(out)@ + seq!['\0']);
            }
            Ok(())
        } else if c == 'u' {
            self.pos = self.pos + 1;
            match self.parse_unicode_escape() {
                Ok(ch) => {
                    out.push(ch);
                    proof {
                        assert(out@ =~= old(out)@ + seq![ch]);
                    }
                    Ok(())
                },
                Err(e) => Err(e),
            }
        } else if c == 'x' {
            self.pos = self.pos + 1;
            let hi = match self.eat_hex_digit() {
                Ok(d) => d,
                Err(e) => {
                    return Err(e);
                },
            };
            let lo = match self.eat_hex_digit() {
                Ok(d) => d,
                Err(e) => {
                    return Err(e);
                },
            };
            let cp32 = (hi as u32) * 16 + (lo as u32);
            match char_from_u32(cp32) {
                Some(ch) => {
                    proof {
                        vstd::utf8::char_u32_cast(ch, cp32);
                    }
                    out.push(ch);
                    proof {
                        assert(out@ =~= old(out)@ + seq![ch]);
                    }
                    Ok(())
                },
                None => Err(Error::InvalidUnicode(cp32)),
            }
        } else if c == '\n' {
            self.pos = self.pos + 1;
            proof {
                assert(out@ =~= old(out)@ + Seq::<char>::empty());
            }
            Ok(())
        } else if c == '\r' {
            self.pos = self.pos + 1;
            if self.pos < n && self.input[self.pos] == '\n' {
                self.pos = self.pos + 1;
            }
            proof {
                assert(out@ =~= old(out)@ + Seq::<char>::empty());
            }
            Ok(())
        } else {
            Err(Error::InvalidEscape(c))
        }
    }

    /// The body of a string literal quoted by `quote`, the opening quote
    /// already consumed. A body without escapes is copied wholesale from the
    /// input; one with escapes is rebuilt character by character. Both paths
    /// meet the same contract.
    #[verifier::loop_isolation(false)]
    fn parse_string_contents(&mut self, quote: char) -> (r: Result<String, Error>)
        requires
            old(self).wf(),
        ensures
            final (self).spec_input() == old(self).spec_input(),
            final (self).wf(),
            match r {
                Ok(t) => spec_parse_string_body(
                    old(self).spec_input(),
                    old(self).spec_pos(),
                    quote,
                    Seq::<char>::empty(),
                ) == Ok::<(Seq<char>, int), ErrModel>((t@, final (self).spec_pos())) && old(
                    self,
                ).spec_pos() < final (self).spec_pos() <= old(self).spec_input().len(),
                Err(e) => spec_parse_string_body(
                    old(self).spec_input(),
                    old(self).spec_pos(),
                    quote,
                    Seq::<char>::empty(),
                ) matches Err(m) && e@ == m,
            },
    {
        let ghost s = self.spec_input();
        let ghost p0 = self.spec_pos();
        let n = self.input.len();
        // Fast path: scan ahead for the closing quote; any escape, bare line
        // terminator or control character sends the scan to the slow path.
        let mut scan = self.pos;
        let mut clean = true;
        let mut done = false;
        while !done
            invariant
                self.spec_input() == s,
                n == s.len(),
                self.wf(),
                0 <= p0 <= scan as int <= s.len(),
                self.spec_pos() == p0,
                forall|j: int|
                    p0 <= j < scan as int ==> (#[trigger] s[j]) != quote && s[j] != '\\' && (
                    s[j] as u32) >= 0x20,
                done ==> (clean ==> scan < n && s[scan as int] == quote),
            decreases s.len() - scan + (if done {
                0int
            } else {
                1int
            }),
        {
            if scan >= n {
                clean = false;
                done = true;
            } else {
                let c = self.input[scan];
                if c == quote {
                    done = true;
                } else {
                    let cu = c as u32;
                    if c == '\\' || cu < 0x20 {
                        clean = false;
                        done = true;
                    } else {
                        scan = scan + 1;
                    }
                }
            }
        }
        if clean {
            let mut out: Vec<char> = Vec::new();
            let mut i = self.pos;
            while i < scan
                invariant
                    self.spec_input() == s,
                    n == s.len(),
                    self.wf(),
                    p0 <= i as int <= scan as int <= s.len(),
                    self.spec_pos() == p0,
                    out@ == s.subrange(p0, i as int),
                decreases scan - i,
            {
                out.push(self.input[i]);
                proof {
                    assert(out@ =~= s.subrange(p0, i + 1));
                }
                i = i + 1;
            }
            self.pos = scan + 1;
            proof {
                lemma_string_body_plain(s, p0, scan as int, quote, Seq::empty());
                assert(Seq::<char>::empty() + s.subrange(p0, scan as int) =~= s.subrange(
                    p0,
                    scan as int,
                ));
            }
            return Ok(crate::text::string_from_chars(&out));
        }
        // Slow path: resolve escapes into a rebuilt string.
        let mut out: Vec<char> = Vec::new();
        loop
            invariant
                self.spec_input() == s,
                n == s.len(),
                self.wf(),
                0 <= p0 <= self.spec_pos() <= s.len(),
                spec_parse_string_body(s, p0, quote, Seq::<char>::empty())
                    == spec_parse_string_body(s, self.spec_pos(), quote, out@),
            decreases s.len() - self.spec_pos(),
        {
            if self.pos >= n {
                return Err(Error::UnexpectedEof);
            }
            let c = self.input[self.pos];
            if c == quote {
                self.pos = self.pos + 1;
                return Ok(crate::text::string_from_chars(&out));
            }
            if c == '\\' {
                let ghost pb = self.spec_pos();
                let ghost ob = out@;
                self.pos = self.pos + 1;
                match self.parse_escape(&mut out) {
                    Ok(()) => {
                        proof {
                            match spec_parse_escape(s, pb + 1) {
                                Ok((copt, p2)) => {
                                    match copt {
                                        Some(c2) => {
                                            assert(out@ =~= ob.push(c2));
                                        },
                                        None => {
                                            assert(out@ =~= ob);
                                        },
                                    }
                                },
                                Err(_) => {
                                    assert(false);
                                },
                            }
                        }
                    },
                    Err(e) => {
                        return Err(e);
                    },
                }
            } else if c == '\n' || c == '\r' {
                return Err(Error::UnexpectedChar(c, self.pos));
            } else {
                let cu = c as u32;
                if cu < 0x20 {
                    return Err(Error::UnexpectedChar(c, self.pos));
                }
                out.push(c);
                self.pos = self.pos + 1;
            }
        }
    }

    /// A whole string literal: a quote, its body, the closing quote.
    pub fn parse_string(&mut self) -> (r: Result<String, Error>)
        requires
            old(self).wf(),
        ensures
            final (self).spec_input() == old(self).spec_input(),
            final (self).wf(),
            match r {
                Ok(t) => spec_parse_string(old(self).spec_input(), old(self).spec_pos())
                    == Ok::<(Seq<char>, int), ErrModel>((t@, final (self).spec_pos())) && old(
                    self,
                ).spec_pos() < final (self).spec_pos() <= old(self).spec_input().len(),
                Err(e) => spec_parse_string(old(self).spec_input(), old(self).spec_pos()) matches
                    Err(m) && e@ == m,
            },
    {
        match self.eat() {
            None => Err(Error::UnexpectedEof),
            Some(q) => self.parse_string_contents(q),
        }
    }

    /// Whether the three characters stand at `at`.
    fn matches3(&self, at: usize, c0: char, c1: char, c2: char) -> (r: bool)
        requires
            self.wf(),
        ensures
            r == matches_at(self.spec_input(), at as int, seq![c0, c1, c2]),
    {
        let n = self.input.len();
        let r = at < n && n - at >= 3 && self.input[at] == c0 && self.input[at + 1] == c1
            && self.input[at + 2] == c2;
        proof {
            if r {
                assert(self.spec_input().subrange(at as int, at + 3) =~= seq![c0, c1, c2]);
            } else {
                if at + 3 <= n {
                    assert(self.spec_input().subrange(at as int, at + 3)[0] == self.spec_input()[at as int]);
                    assert(self.spec_input().subrange(at as int, at + 3)[1] == self.spec_input()[at + 1]);
                    assert(self.spec_input().subrange(at as int, at + 3)[2] == self.spec_input()[at + 2]);
                }
            }
        }
        r
    }

    /// Whether the four characters stand at `at`.
    fn matches4(&self, at: usize, c0: char, c1: char, c2: char, c3: char) -> (r: bool)
        requires
            self.wf(),
        ensures
            r == matches_at(self.spec_input(), at as int, seq![c0, c1, c2, c3]),
    {
        let n = self.input.len();
        let r = at < n && n - at >= 4 && self.input[at] == c0 && self.input[at + 1] == c1
            && self.input[at + 2] == c2 && self.input[at + 3] == c3;
        proof {
            if r {
                assert(self.spec_input().subrange(at as int, at + 4) =~= seq![c0, c1, c2, c3]);
            } else {
                if at + 4 <= n {
                    let w = self.spec_input().subrange(at as int, at + 4);
                    assert(w[0] == self.spec_input()[at as int]);
                    assert(w[1] == self.spec_input()[at + 1]);
                    assert(w[2] == self.spec_input()[at + 2]);
                    assert(w[3] == self.spec_input()[at + 3]);
                }
            }
        }
        r
    }

    /// Whether the five characters stand at `at`.
    fn matches5(&self, at: usize, c0: char, c1: char, c2: char, c3: char, c4: char) -> (r: bool)
        requires
            self.wf(),
        ensures
            r == matches_at(self.spec_input(), at as int, seq![c0, c1, c2, c3, c4]),
    {
        let n = self.input.len();
        let r = at < n && n - at >= 5 && self.input[at] == c0 && self.input[at + 1] == c1
            && self.input[at + 2] == c2 && self.input[at + 3] == c3 && self.input[at + 4] == c4;
        proof {
            if r {
                assert(self.spec_input().subrange(at as int, at + 5) =~= seq![c0, c1, c2, c3, c4]);
            } else {
                if at + 5 <= n {
                    let w = self.spec_input().subrange(at as int, at + 5);
                    assert(w[0] == self.spec_input()[at as int]);
                    assert(w[1] == self.spec_input()[at + 1]);
                    assert(w[2] == self.spec_input()[at + 2]);
                    assert(w[3] == self.spec_input()[at + 3]);
                    assert(w[4] == self.spec_input()[at + 4]);
                }
            }
        }
        r
    }

    /// Whether `Infinity` stands at `at`.
    fn matches_infinity(&self, at: usize) -> (r: bool)
        requires
            self.wf(),
        ensures
            r == matches_at(self.spec_input(), at as int, lit_infinity()),
    {
        let n = self.input.len();
        let r = at < n && n - at >= 8 && self.input[at] == 'I' && self.input[at + 1] == 'n'
            && self.input[at + 2] == 'f' && self.input[at + 3] == 'i' && self.input[at + 4] == 'n'
            && self.input[at + 5] == 'i' && self.input[at + 6] == 't' && self.input[at + 7] == 'y';
        proof {
            if r {
                assert(self.spec_input().subrange(at as int, at + 8) =~= lit_infinity());
            } else {
                if at + 8 <= n {
                    let w = self.spec_input().subrange(at as int, at + 8);
                    assert(w[0] == self.spec_input()[at as int]);
                    assert(w[1] == self.spec_input()[at + 1]);
                    assert(w[2] == self.spec_input()[at + 2]);
                    assert(w[3] == self.spec_input()[at + 3]);
                    assert(w[4] == self.spec_input()[at + 4]);
                    assert(w[5] == self.spec_input()[at + 5]);
                    assert(w[6] == self.spec_input()[at + 6]);
                    assert(w[7] == self.spec_input()[at + 7]);
                }
            }
        }
        r
    }

    /// The `null` keyword.
    fn parse_null(&mut self) -> (r: Result<Value, Error>)
        requires
            old(self).wf(),
        ensures
            final (self).spec_input() == old(self).spec_input(),
            final (self).wf(),
            match r {
                Ok(v) => spec_parse_null(old(self).spec_input(), old(self).spec_pos()) matches Ok(
                    (m, p2),
                ) && v@ == m && final (self).spec_pos() == p2 && old(self).spec_pos() < p2 <= old(
                    self,
                ).spec_input().len(),
                Err(e) => spec_parse_null(old(self).spec_input(), old(self).spec_pos()) matches
                    Err(m) && e@ == m,
            },
    {
        let n = self.input.len();
        if self.matches4(self.pos, 'n', 'u', 'l', 'l') {
            self.pos = self.pos + 4;
            Ok(Value::Null)
        } else {
            Err(Error::UnexpectedChar('n', self.pos))
        }
    }

    /// The `true` or `false` keyword.
    fn parse_bool(&mut self) -> (r: Result<Value, Error>)
        requires
            old(self).wf(),
        ensures
            final (self).spec_input() == old(self).spec_input(),
            final (self).wf(),
            match r {
                Ok(v) => spec_parse_bool(old(self).spec_input(), old(self).spec_pos()) matches Ok(
                    (m, p2),
                ) && v@ == m && final (self).spec_pos() == p2 && old(self).spec_pos() < p2 <= old(
                    self,
                ).spec_input().len(),
                Err(e) => spec_parse_bool(old(self).spec_input(), old(self).spec_pos()) matches
                    Err(m) && e@ == m,
            },
    {
        let n = self.input.len();
        if self.matches4(self.pos, 't', 'r', 'u', 'e') {
            self.pos = self.pos + 4;
            Ok(Value::Bool(true))
        } else if self.matches5(self.pos, 'f', 'a', 'l', 's', 'e') {
            self.pos = self.pos + 5;
            Ok(Value::Bool(false))
        } else {
            let c = match self.peek() {
                Some(c) => c,
                None => '\0',
            };
            Err(Error::UnexpectedChar(c, self.pos))
        }
    }

    /// An unquoted identifier key.
    fn parse_identifier(&mut self) -> (r: Result<String, Error>)
        requires
            old(self).wf(),
        ensures
            final (self).spec_input() == old(self).spec_input(),
            final (self).wf(),
            match r {
                Ok(t) => spec_parse_identifier(old(self).spec_input(), old(self).spec_pos())
                    == Ok::<(Seq<char>, int), ErrModel>((t@, final (self).spec_pos())) && old(
                    self,
                ).spec_pos() < final (self).spec_pos() <= old(self).spec_input().len(),
                Err(e) => spec_parse_identifier(old(self).spec_input(), old(self).spec_pos())
                    matches Err(m) && e@ == m,
            },
    {
        let ghost s = self.spec_input();
        let ghost p = self.spec_pos();
        let n = self.input.len();
        if self.pos >= n {
            return Err(Error::UnexpectedEof);
        }
        let c0 = self.input[self.pos];
        if !is_id_start_char(c0) {
            self.pos = self.pos + 1;
            return Err(Error::UnexpectedChar(c0, self.pos));
        }
        let mut out: Vec<char> = Vec::new();
        out.push(c0);
        self.pos = self.pos + 1;
        loop
            invariant
                self.spec_input() == s,
                n == s.len(),
                self.wf(),
                0 <= p + 1 <= self.spec_pos() <= s.len(),
                out@ == seq![c0] + s.subrange(p + 1, self.spec_pos()),
                scan_id_continue(s, p + 1) == scan_id_continue(s, self.spec_pos()),
            ensures
                self.spec_input() == s,
                self.wf(),
                p + 1 <= self.spec_pos() <= s.len(),
                out@ == seq![c0] + s.subrange(p + 1, self.spec_pos()),
                self.spec_pos() == scan_id_continue(s, p + 1),
            decreases s.len() - self.spec_pos(),
        {
            if self.pos >= n {
                break ;
            }
            let c = self.input[self.pos];
            if !is_id_continue_char(c) {
                break ;
            }
            proof {
                lemma_subrange_push(s, p + 1, self.spec_pos());
                assert((seq![c0] + s.subrange(p + 1, self.spec_pos())).push(c) =~= seq![c0]
                    + s.subrange(p + 1, self.spec_pos()).push(c));
            }
            out.push(c);
            self.pos = self.pos + 1;
        }
        Ok(crate::text::string_from_chars(&out))
    }

    /// An object key: a quoted string or an unquoted identifier.
    pub fn parse_key(&mut self) -> (r: Result<String, Error>)
        requires
            old(self).wf(),
        ensures
            final (self).spec_input() == old(self).spec_input(),
            final (self).wf(),
            match r {
                Ok(t) => spec_parse_key(old(self).spec_input(), old(self).spec_pos()) == Ok::<
                    (Seq<char>, int),
                    ErrModel,
                >((t@, final (self).spec_pos())) && old(self).spec_pos() < final (self).spec_pos()
                    <= old(self).spec_input().len(),
                Err(e) => spec_parse_key(old(self).spec_input(), old(self).spec_pos()) matches Err(
                    m,
                ) && e@ == m,
            },
    {
        match self.peek() {
            None => Err(Error::UnexpectedEof),
            Some(c) => {
                if c == '"' || c == '\'' {
                    self.parse_string()
                } else {
                    let cu = c as u32;
                    if (cu < 0x80 && ((0x41 <= cu && cu <= 0x5a) || (0x61 <= cu && cu <= 0x7a) || c
                        == '_' || c == '$')) || cu >= 0x80 {
                        self.parse_identifier()
                    } else {
                        Err(Error::UnexpectedChar(c, self.pos))
                    }
                }
            },
        }
    }

    /// One value at the top nesting level.
    pub fn parse_value(&mut self) -> (r: Result<Value, Error>)
        requires
            old(self).wf(),
        ensures
            final (self).spec_input() == old(self).spec_input(),
            final (self).wf(),
            match r {
                Ok(v) => spec_parse_value(old(self).spec_input(), old(self).spec_pos(), 0) matches
                    Ok((m, p2)) && v@ == m && final (self).spec_pos() == p2 && old(self).spec_pos()
                    < p2 <= old(self).spec_input().len(),
                Err(e) => spec_parse_value(old(self).spec_input(), old(self).spec_pos(), 0)
                    matches Err(m) && e@ == m,
            },
    {
        self.parse_value_at(0)
    }

    /// One value, nested `depth` levels deep: leading whitespace and
    /// comments, then dispatch on the first character. Nesting past the
    /// shared ceiling is refused.
    fn parse_value_at(&mut self, depth: usize) -> (r: Result<Value, Error>)
        requires
            old(self).wf(),
        ensures
            final (self).spec_input() == old(self).spec_input(),
            final (self).wf(),
            match r {
                Ok(v) => spec_parse_value(
                    old(self).spec_input(),
                    old(self).spec_pos(),
                    depth as int,
                ) matches Ok((m, p2)) && v@ == m && final (self).spec_pos() == p2 && old(
                    self,
                ).spec_pos() < p2 <= old(self).spec_input().len(),
                Err(e) => spec_parse_value(
                    old(self).spec_input(),
                    old(self).spec_pos(),
                    depth as int,
                ) matches Err(m) && e@ == m,
            },
        decreases self.spec_input().len() - self.spec_pos(), 1int,
    {
        if depth > crate::ser::MAX_DEPTH {
            return Err(Error::Custom("Recursion limit exceeded".to_owned()));
        }
        let ghost s = self.spec_input();
        let ghost p = self.spec_pos();
        self.skip_whitespace_and_comments();
        proof {
            lemma_skip_ws_range(s, p);
        }
        let n = self.input.len();
        if self.pos >= n {
            return Err(Error::UnexpectedEof);
        }
        let c = self.input[self.pos];
        if c == 'n' {
            self.parse_null()
        } else if c == 't' || c == 'f' {
            self.parse_bool()
        } else if c == '"' || c == '\'' {
            match self.parse_string() {
                Ok(t) => Ok(Value::String(t)),
                Err(e) => Err(e),
            }
        } else if c == '[' {
            self.parse_array(depth)
        } else if c == '{' {
            self.parse_object(depth)
        } else if c == '-' {
            if self.matches_infinity(self.pos + 1) {
                self.pos = self.pos + 9;
                Ok(Value::Number(Number::NegInfinity))
            } else {
                self.parse_number()
            }
        } else if c == '+' {
            if self.matches_infinity(self.pos + 1) {
                self.pos = self.pos + 9;
                Ok(Value::Number(Number::Infinity))
            } else {
                self.parse_number()
            }
        } else if c == 'I' {
            if self.matches_infinity(self.pos) {
                self.pos = self.pos + 8;
                Ok(Value::Number(Number::Infinity))
            } else {
                Err(Error::UnexpectedChar('I', self.pos))
            }
        } else if c == 'N' {
            if self.matches3(self.pos, 'N', 'a', 'N') {
                self.pos = self.pos + 3;
                Ok(Value::Number(Number::NaN))
            } else {
                Err(Error::UnexpectedChar('N', self.pos))
            }
        } else {
            let cu = c as u32;
            if (0x30 <= cu && cu <= 0x39) || c == '.' {
                self.parse_number()
            } else {
                Err(Error::UnexpectedChar(c, self.pos))
            }
        }
    }

    /// An array: the opening bracket, then values separated by commas, a
    /// trailing comma tolerated, closed by `]`.
    #[verifier::loop_isolation(false)]
    fn parse_array(&mut self, depth: usize) -> (r: Result<Value, Error>)
        requires
            old(self).wf(),
            depth <= crate::ser::MAX_DEPTH,
        ensures
            final (self).spec_input() == old(self).spec_input(),
            final (self).wf(),
            match r {
                Ok(v) => spec_parse_array(
                    old(self).spec_input(),
                    old(self).spec_pos(),
                    depth as int,
                ) matches Ok((m, p2)) && v@ == m && final (self).spec_pos() == p2 && old(
                    self,
                ).spec_pos() < p2 <= old(self).spec_input().len(),
                Err(e) => spec_parse_array(
                    old(self).spec_input(),
                    old(self).spec_pos(),
                    depth as int,
                ) matches Err(m) && e@ == m,
            },
        decreases self.spec_input().len() - self.spec_pos(), 0int,
    {
        let ghost s = self.spec_input();
        let ghost p = self.spec_pos();
        match self.expect('[') {
            Ok(()) => {},
            Err(e) => {
                return Err(e);
            },
        }
        let ghost p1 = self.spec_pos();
        let n = self.input.len();
        let mut arr: Vec<Value> = Vec::new();
        loop
            invariant
                self.spec_input() == s,
                self.wf(),
                0 <= p1 <= self.spec_pos() <= s.len(),
                p < self.spec_pos(),
                depth <= crate::ser::MAX_DEPTH,
                spec_parse_array_rest(s, p1, Seq::<ValModel>::empty(), depth as int)
                    == spec_parse_array_rest(
                    s,
                    self.spec_pos(),
                    crate::value::arr_view(arr@),
                    depth as int,
                ),
            decreases s.len() - self.spec_pos(),
        {
            let ghost pit = self.spec_pos();
            self.skip_whitespace_and_comments();
            proof {
                lemma_skip_ws_range(s, pit);
            }
            if self.pos >= n {
                return Err(Error::UnexpectedEof);
            }
            let c = self.input[self.pos];
            if c == ']' {
                self.pos = self.pos + 1;
                return Ok(Value::Array(arr));
            }
            let v = match self.parse_value_at(depth + 1) {
                Ok(v) => v,
                Err(e) => {
                    return Err(e);
                },
            };
            let ghost arr_old = arr@;
            let ghost vv = v@;
            arr.push(v);
            proof {
                crate::value::lemma_arr_view(arr_old);
                crate::value::lemma_arr_view(arr@);
                assert(arr@.drop_last() =~= arr_old);
                assert(crate::value::arr_view(arr@) =~= crate::value::arr_view(arr_old).push(vv));
            }
            let ghost pv = self.spec_pos();
            self.skip_whitespace_and_comments();
            proof {
                lemma_skip_ws_range(s, pv);
            }
            if self.pos >= n {
                return Err(Error::UnexpectedEof);
            }
            let c2 = self.input[self.pos];
            if c2 == ',' {
                self.pos = self.pos + 1;
            } else if c2 == ']' {
                self.pos = self.pos + 1;
                return Ok(Value::Array(arr));
            } else {
                return Err(Error::UnexpectedChar(c2, self.pos));
            }
        }
    }

    /// An object: the opening brace, then keys, colons and values separated
    /// by commas, a trailing comma tolerated, closed by `}`. A repeated key
    /// overwrites its value in place.
    #[verifier::loop_isolation(false)]
    fn parse_object(&mut self, depth: usize) -> (r: Result<Value, Error>)
        requires
            old(self).wf(),
            depth <= crate::ser::MAX_DEPTH,
        ensures
            final (self).spec_input() == old(self).spec_input(),
            final (self).wf(),
            match r {
                Ok(v) => spec_parse_object(
                    old(self).spec_input(),
                    old(self).spec_pos(),
                    depth as int,
                ) matches Ok((m, p2)) && v@ == m && final (self).spec_pos() == p2 && old(
                    self,
                ).spec_pos() < p2 <= old(self).spec_input().len(),
                Err(e) => spec_parse_object(
                    old(self).spec_input(),
                    old(self).spec_pos(),
                    depth as int,
                ) matches Err(m) && e@ == m,
            },
        decreases self.spec_input().len() - self.spec_pos(), 0int,
    {
        let ghost s = self.spec_input();
        let ghost p = self.spec_pos();
        match self.expect('{') {
            Ok(()) => {},
            Err(e) => {
                return Err(e);
            },
        }
        let ghost p1 = self.spec_pos();
        let n = self.input.len();
        let mut map = ObjectMap::new();
        loop
            invariant
                self.spec_input() == s,
                self.wf(),
                0 <= p1 <= self.spec_pos() <= s.len(),
                p < self.spec_pos(),
                spec_parse_object_rest(s, p1, Seq::<(Seq<char>, ValModel)>::empty(), depth as int)
                    == spec_parse_object_rest(s, self.spec_pos(), map.view(), depth as int),
            decreases s.len() - self.spec_pos(),
        {
            let ghost pit = self.spec_pos();
            self.skip_whitespace_and_comments();
            proof {
                lemma_skip_ws_range(s, pit);
            }
            if self.pos >= n {
                return Err(Error::UnexpectedEof);
            }
            let c = self.input[self.pos];
            if c == '}' {
                self.pos = self.pos + 1;
                return Ok(Value::Object(map));
            }
            let k = match self.parse_key() {
                Ok(k) => k,
                Err(e) => {
                    return Err(e);
                },
            };
            let ghost pk = self.spec_pos();
            self.skip_whitespace_and_comments();
            proof {
                lemma_skip_ws_range(s, pk);
            }
            match self.expect(':') {
                Ok(()) => {},
                Err(e) => {
                    return Err(e);
                },
            }
            let v = match self.parse_value_at(depth + 1) {
                Ok(v) => v,
                Err(e) => {
                    return Err(e);
                },
            };
            map.insert(k, v);
            let ghost pv = self.spec_pos();
            self.skip_whitespace_and_comments();
            proof {
                lemma_skip_ws_range(s, pv);
            }
            if self.pos >= n {
                return Err(Error::UnexpectedEof);
            }
            let c2 = self.input[self.pos];
            if c2 == ',' {
                self.pos = self.pos + 1;
            } else if c2 == '}' {
                self.pos = self.pos + 1;
                return Ok(Value::Object(map));
            } else {
                return Err(Error::UnexpectedChar(c2, self.pos));
            }
        }
    }

    /// Appends the characters from `a` to `b`, underscores dropped.
    fn append_stripped(&self, out: &mut Vec<char>, a: usize, b: usize)
        requires
            self.wf(),
            a <= b <= self.spec_input().len(),
        ensures
            final (out)@ == old(out)@ + strip_uscores(
                self.spec_input().subrange(a as int, b as int),
            ),
    {
        let ghost s = self.spec_input();
        let ghost base = out@;
        let mut i: usize = a;
        while i < b
            invariant
                self.wf(),
                s == self.spec_input(),
                a <= i <= b <= s.len(),
                out@ == base + strip_uscores(s.subrange(a as int, i as int)),
            decreases b - i,
        {
            let c = self.input[i];
            proof {
                lemma_subrange_push(s, a as int, i as int);
                lemma_strip_push(s.subrange(a as int, i as int), c);
            }
            if c != '_' {
                out.push(c);
            }
            proof {
                if c != '_' {
                    assert(out@ =~= base + strip_uscores(s.subrange(a as int, i + 1)));
                }
            }
            i = i + 1;
        }
        proof {
            assert(s.subrange(a as int, a as int) =~= Seq::<char>::empty());
        }
    }

    /// The literal's characters from `a` to the cursor, underscores dropped.
    fn collect_stripped(&self, a: usize, b: usize) -> (r: String)
        requires
            self.wf(),
            a <= b <= self.spec_input().len(),
        ensures
            r@ == strip_uscores(self.spec_input().subrange(a as int, b as int)),
    {
        let ghost s = self.spec_input();
        let mut out: Vec<char> = Vec::new();
        let mut i: usize = a;
        while i < b
            invariant
                self.wf(),
                s == self.spec_input(),
                a <= i <= b <= s.len(),
                out@ == strip_uscores(s.subrange(a as int, i as int)),
            decreases b - i,
        {
            let c = self.input[i];
            proof {
                lemma_subrange_push(s, a as int, i as int);
                lemma_strip_push(s.subrange(a as int, i as int), c);
            }
            if c != '_' {
                out.push(c);
            }
            i = i + 1;
        }
        crate::text::string_from_chars(&out)
    }
}

/// A whole document: one value, then only whitespace and comments to the
/// end.
pub open spec fn spec_parse_doc(s: Seq<char>) -> Result<ValModel, ErrModel> {
    match spec_parse_value(s, 0, 0) {
        Err(e) => Err(e),
        Ok((v, p)) => {
            let q = skip_ws(s, p);
            if q < s.len() {
                Err(ErrModel::TrailingData(q))
            } else {
                Ok(v)
            }
        },
    }
}

} // verus!
