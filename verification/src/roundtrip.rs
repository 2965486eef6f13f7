//! The round-trip laws: parsing the compact text of a well-formed value
//! yields that value back, and emission is idempotent. The laws stand over
//! the mathematical parser and emitter that the executable routines are
//! specified against.

use vstd::prelude::*;

use crate::error::ErrModel;
use crate::parser::{
    count_digits, digits_val, is_ascii_alpha, is_digit, is_ws_char, lemma_skip_ws_stop, lit_false,
    lit_infinity, lit_nan, lit_null, lit_true, matches_at, scan_digits, scan_id_continue, skip_ws,
    spec_four_hex, spec_hex_val, spec_id_continue, spec_id_start, spec_parse_array_rest,
    spec_parse_doc, spec_parse_escape, spec_parse_key, spec_parse_number, spec_parse_object_rest,
    spec_parse_string, spec_parse_string_body, spec_parse_unicode_escape, spec_parse_value,
    strip_uscores,
};
use crate::ser::{
    emit_compact, emit_compact_entries, emit_compact_entries_rest, emit_compact_items,
    emit_compact_items_rest, emit_escaped, emit_key, emit_quoted, esc_char, hex_digit_char,
    spec_is_ident,
};
use crate::text::{dec_int, dec_nat, digit_char};
use crate::value::{obj_insert_model, obj_keys_unique, NumModel, ValModel};

verus! {

// ---------------------------------------------------------------------------
// Well-formed values and normalization
// ---------------------------------------------------------------------------

/// Whether a float literal text is one the parser itself could have kept: no
/// underscores, the scanner's shape consumed whole, and either a normalized
/// literal with a fraction or exponent (digits on both sides of any dot),
/// or a plain run of digits whose value is beyond the unsigned range.
pub open spec fn wf_float(t: Seq<char>) -> bool {
    let len = t.len() as int;
    let has_sign = 0 < len && (t[0] == '-' || t[0] == '+');
    let neg = 0 < len && t[0] == '-';
    let p1 = if has_sign {
        1int
    } else {
        0int
    };
    let p2 = if p1 < len && t[p1] == '0' {
        p1 + 1
    } else {
        scan_digits(t, p1)
    };
    let frac = p2 < len && t[p2] == '.';
    let p3 = if frac {
        scan_digits(t, p2 + 1)
    } else {
        p2
    };
    let exp = p3 < len && (t[p3] == 'e' || t[p3] == 'E');
    let pe = if exp {
        if p3 + 1 < len && (t[p3 + 1] == '+' || t[p3 + 1] == '-') {
            p3 + 2
        } else {
            p3 + 1
        }
    } else {
        p3
    };
    let p4 = if exp {
        scan_digits(t, pe)
    } else {
        p3
    };
    &&& len > 0
    &&& (forall|i: int| 0 <= i < len ==> t[i] != '_')
    &&& !(p1 < len && t[p1] == '0' && p1 + 1 < len && (t[p1 + 1] == 'x' || t[p1 + 1] == 'X'))
    &&& p4 == len
    &&& if frac || exp {
        strip_uscores(t.subrange(p1, p2)).len() > 0 && (frac ==> count_digits(
            t.subrange(p2 + 1, p3),
        ) >= 1) && (exp ==> count_digits(t.subrange(pe, p4)) >= 1)
    } else {
        !neg && strip_uscores(t.subrange(p1, p2)).len() > 0 && digits_val(t.subrange(p1, p2))
            > u64::MAX
    }
}

/// A value the emitter can write and the parser could have produced, but
/// for the choice between `Int` and `Uint`: machine ranges respected, float
/// texts well formed, object keys unique.
pub open spec fn encodable(v: ValModel) -> bool
    decreases v, 1int,
{
    match v {
        ValModel::Null => true,
        ValModel::Bool(_) => true,
        ValModel::Number(m) => match m {
            NumModel::Int(i) => i64::MIN <= i <= i64::MAX,
            NumModel::Uint(u) => 0 <= u <= u64::MAX,
            NumModel::Float(t) => wf_float(t),
            _ => true,
        },
        ValModel::Str(_) => true,
        ValModel::Arr(items) => encodable_items(items),
        ValModel::Obj(entries) => obj_keys_unique(entries) && encodable_entries(entries),
    }
}

/// Whether every element is encodable.
pub open spec fn encodable_items(items: Seq<ValModel>) -> bool
    decreases items, 2int,
{
    if items.len() == 0 {
        true
    } else {
        encodable(items[0]) && encodable_items(items.drop_first())
    }
}

/// Whether every entry's value is encodable.
pub open spec fn encodable_entries(entries: Seq<(Seq<char>, ValModel)>) -> bool
    decreases entries, 2int,
{
    if entries.len() == 0 {
        true
    } else {
        encodable(entries[0].1) && encodable_entries(entries.drop_first())
    }
}

/// What the parser makes of an emitted value: a small non-negative `Uint`
/// reads back as an `Int`; everything else is itself.
pub open spec fn norm(v: ValModel) -> ValModel
    decreases v, 1int,
{
    match v {
        ValModel::Number(NumModel::Uint(u)) => if u <= i64::MAX {
            ValModel::Number(NumModel::Int(u))
        } else {
            v
        },
        ValModel::Arr(items) => ValModel::Arr(norm_items(items)),
        ValModel::Obj(entries) => ValModel::Obj(norm_entries(entries)),
        _ => v,
    }
}

/// `norm`, elementwise.
pub open spec fn norm_items(items: Seq<ValModel>) -> Seq<ValModel>
    decreases items, 2int,
{
    if items.len() == 0 {
        Seq::empty()
    } else {
        seq![norm(items[0])] + norm_items(items.drop_first())
    }
}

/// `norm`, over each entry's value; keys stay.
pub open spec fn norm_entries(entries: Seq<(Seq<char>, ValModel)>) -> Seq<(Seq<char>, ValModel)>
    decreases entries, 2int,
{
    if entries.len() == 0 {
        Seq::empty()
    } else {
        seq![(entries[0].0, norm(entries[0].1))] + norm_entries(entries.drop_first())
    }
}

/// A position where a compact value may end: the end of the input, or a
/// separator or closer.
pub open spec fn end_ok(s: Seq<char>, p: int) -> bool {
    p == s.len() || s[p] == ',' || s[p] == ']' || s[p] == '}'
}

// ---------------------------------------------------------------------------
// Window lemmas
// ---------------------------------------------------------------------------

/// A window that holds a concatenation splits into windows of its parts.
pub proof fn lemma_split_window(s: Seq<char>, p: int, x: Seq<char>, y: Seq<char>)
    requires
        0 <= p,
        p + x.len() + y.len() <= s.len(),
        s.subrange(p, p + x.len() + y.len()) == x + y,
    ensures
        s.subrange(p, p + x.len()) == x,
        s.subrange(p + x.len(), p + x.len() + y.len()) == y,
{
    assert(s.subrange(p, p + x.len()) =~= x) by {
        assert forall|i: int| 0 <= i < x.len() implies s.subrange(p, p + x.len())[i] == x[i] by {
            assert((x + y)[i] == x[i]);
            assert(s.subrange(p, p + x.len() + y.len())[i] == s[p + i]);
        }
    }
    assert(s.subrange(p + x.len(), p + x.len() + y.len()) =~= y) by {
        assert forall|i: int| 0 <= i < y.len() implies s.subrange(
            p + x.len(),
            p + x.len() + y.len(),
        )[i] == y[i] by {
            assert((x + y)[x.len() + i] == y[i]);
            assert(s.subrange(p, p + x.len() + y.len())[x.len() + i] == s[p + x.len() + i]);
        }
    }
}

/// The characters inside a window are the window's characters.
pub proof fn lemma_window_index(s: Seq<char>, p: int, w: Seq<char>)
    requires
        0 <= p,
        p + w.len() <= s.len(),
        s.subrange(p, p + w.len()) == w,
    ensures
        forall|i: int| 0 <= i < w.len() ==> s[p + i] == w[i],
{
    assert forall|i: int| 0 <= i < w.len() implies s[p + i] == w[i] by {
        assert(s.subrange(p, p + w.len())[i] == s[p + i]);
    }
}

/// A text without underscores is its own underscore-free form.
pub proof fn lemma_strip_id(t: Seq<char>)
    requires
        forall|i: int| 0 <= i < t.len() ==> t[i] != '_',
    ensures
        strip_uscores(t) == t,
    decreases t.len(),
{
    if t.len() > 0 {
        lemma_strip_id(t.drop_first());
        assert(strip_uscores(t) =~= t);
    }
}

/// A run of digits bounded by a non-digit scans to the bound.
pub proof fn lemma_scan_digits_window(s: Seq<char>, p: int, b: int)
    requires
        0 <= p <= b <= s.len(),
        forall|j: int| p <= j < b ==> (is_digit(#[trigger] s[j]) || s[j] == '_'),
        b < s.len() ==> !(is_digit(s[b]) || s[b] == '_'),
    ensures
        scan_digits(s, p) == b,
    decreases b - p,
{
    if p < b {
        lemma_scan_digits_window(s, p + 1, b);
    }
}

/// A run of identifier-continuation characters bounded by a stopper scans to
/// the bound.
pub proof fn lemma_scan_id_window(s: Seq<char>, p: int, b: int)
    requires
        0 <= p <= b <= s.len(),
        forall|j: int| p <= j < b ==> spec_id_continue(#[trigger] s[j]),
        b < s.len() ==> !spec_id_continue(s[b]),
    ensures
        scan_id_continue(s, p) == b,
    decreases b - p,
{
    if p < b {
        lemma_scan_id_window(s, p + 1, b);
    }
}

// ---------------------------------------------------------------------------
// Decimal digits
// ---------------------------------------------------------------------------

/// The digit characters of a number's decimal text, and their value.
pub proof fn lemma_dec_nat_props(n: nat)
    ensures
        dec_nat(n).len() >= 1,
        forall|i: int| 0 <= i < dec_nat(n).len() ==> is_digit(#[trigger] dec_nat(n)[i]),
        digits_val(dec_nat(n)) == n,
        dec_nat(n)[0] == digit_char(if n < 10 {
            n as int
        } else {
            0
        }) || n >= 10,
        n >= 10 ==> dec_nat(n)[0] == dec_nat(n / 10)[0],
        is_digit(dec_nat(n)[0]),
        n > 0 ==> dec_nat(n)[0] != '0',
    decreases n,
{
    if n < 10 {
        assert(dec_nat(n) =~= seq![digit_char(n as int)]);
        assert(digits_val(dec_nat(n)) == digits_val(Seq::<char>::empty()) * 10 + (digit_char(
            n as int,
        ) as u32 - 0x30)) by {
            assert(dec_nat(n).drop_last() =~= Seq::<char>::empty());
        }
    } else {
        lemma_dec_nat_props(n / 10);
        let head = dec_nat(n / 10);
        let c = digit_char((n % 10) as int);
        assert(dec_nat(n) == head.push(c)) by {
            assert(head + seq![c] =~= head.push(c));
        }
        crate::parser::lemma_digits_val_push(head, c);
        assert(digits_val(dec_nat(n)) == digits_val(head) * 10 + (c as u32 - 0x30));
        assert(dec_nat(n)[0] == head[0]);
        assert forall|i: int| 0 <= i < dec_nat(n).len() implies is_digit(
            #[trigger] dec_nat(n)[i],
        ) by {
            if i < head.len() {
                assert(dec_nat(n)[i] == head[i]);
            } else {
                assert(dec_nat(n)[i] == c);
            }
        }
    }
}

/// The characters a digit scan passes over, and what stops it.
pub proof fn lemma_scan_digits_chars(s: Seq<char>, p: int)
    requires
        0 <= p <= s.len(),
    ensures
        p <= scan_digits(s, p) <= s.len(),
        forall|j: int|
            p <= j < scan_digits(s, p) ==> (is_digit(#[trigger] s[j]) || s[j] == '_'),
        scan_digits(s, p) < s.len() ==> !(is_digit(s[scan_digits(s, p)]) || s[scan_digits(s, p)]
            == '_'),
    decreases s.len() - p,
{
    if p < s.len() && (is_digit(s[p]) || s[p] == '_') {
        lemma_scan_digits_chars(s, p + 1);
    }
}

/// A window transfers its subranges.
pub proof fn lemma_subrange_transfer(s: Seq<char>, p: int, w: Seq<char>, a: int, b: int)
    requires
        0 <= p,
        p + w.len() <= s.len(),
        s.subrange(p, p + w.len()) == w,
        0 <= a <= b <= w.len(),
    ensures
        s.subrange(p + a, p + b) == w.subrange(a, b),
{
    lemma_window_index(s, p, w);
    assert(s.subrange(p + a, p + b) =~= w.subrange(a, b));
}

/// Inside a window of digit-or-underscore text, the scan runs as it runs in
/// the window.
pub proof fn lemma_scan_digits_transfer(s: Seq<char>, p: int, w: Seq<char>, a: int)
    requires
        0 <= p,
        p + w.len() <= s.len(),
        s.subrange(p, p + w.len()) == w,
        0 <= a <= w.len(),
        end_ok(s, p + w.len()),
    ensures
        scan_digits(s, p + a) == p + scan_digits(w, a),
{
    lemma_window_index(s, p, w);
    lemma_scan_digits_chars(w, a);
    let b = scan_digits(w, a);
    assert forall|j: int| p + a <= j < p + b implies (is_digit(#[trigger] s[j]) || s[j]
        == '_') by {
        assert(s[j] == w[j - p]);
    }
    if b < w.len() {
        assert(s[p + b] == w[b]);
        lemma_scan_digits_window(s, p + a, p + b);
    } else {
        lemma_scan_digits_window(s, p + a, p + b);
    }
}

/// Parsing the decimal text of an unsigned value yields the value, as an
/// `Int` when it fits the signed range.
pub proof fn lemma_parse_number_emitted_nat(s: Seq<char>, p: int, m: nat)
    requires
        0 <= p,
        m <= u64::MAX,
        p + dec_nat(m).len() <= s.len(),
        s.subrange(p, p + dec_nat(m).len() as int) == dec_nat(m),
        end_ok(s, p + dec_nat(m).len()),
    ensures
        spec_parse_number(s, p) == Ok::<(NumModel, int), ErrModel>(
            (
                if m <= i64::MAX {
                    NumModel::Int(m as int)
                } else {
                    NumModel::Uint(m as int)
                },
                p + dec_nat(m).len(),
            ),
        ),
{
    let w = dec_nat(m);
    let e = p + w.len();
    lemma_dec_nat_props(m);
    lemma_window_index(s, p, w);
    assert(is_digit(s[p]));
    assert(s[p] != '-' && s[p] != '+');
    let len = s.len() as int;
    // No hex prefix: after a `0` comes the end or a closer.
    if s[p] == '0' {
        assert(w[0] == '0');
        assert(m < 10) by {
            if m >= 10 {
                assert(dec_nat(m)[0] != '0');
            }
        }
        assert(w.len() == 1);
        if p + 1 < len && (s[p + 1] == 'x' || s[p + 1] == 'X') {
            assert(end_ok(s, p + 1));
            assert(false);
        }
        assert(spec_parse_number(s, p) == Ok::<(NumModel, int), ErrModel>(
            (NumModel::Int(m as int), p + 1),
        )) by {
            assert(s.subrange(p, p + 1) =~= seq![s[p]]);
            assert(strip_uscores(s.subrange(p, p + 1)) =~= seq!['0']) by {
                lemma_strip_id(s.subrange(p, p + 1));
            }
            assert(digits_val(seq!['0']) == 0) by {
                assert(seq!['0'].drop_last() =~= Seq::<char>::empty());
            }
            assert(m == 0) by {
                if m != 0 {
                    assert(w[0] != '0');
                }
            }
            if p + 1 < len {
                assert(!(s[p + 1] == '.'));
                assert(!(s[p + 1] == 'e' || s[p + 1] == 'E'));
            }
        }
    } else {
        assert(m >= 1) by {
            if m < 10 {
                assert(w[0] == digit_char(m as int));
                if m == 0 {
                    assert(w[0] == '0');
                }
            }
        }
        assert forall|j: int| p <= j < e implies (is_digit(#[trigger] s[j]) || s[j] == '_') by {
            assert(s[j] == w[j - p]);
        }
        lemma_scan_digits_window(s, p, e);
        assert(strip_uscores(s.subrange(p, e)) == w) by {
            assert(s.subrange(p, e) =~= w);
            lemma_strip_id(w);
        }
        if e < len {
            assert(!(s[e] == '.'));
            assert(!(s[e] == 'e' || s[e] == 'E'));
        }
    }
}

/// Parsing the decimal text of a signed value yields the value.
pub proof fn lemma_parse_number_emitted_int(s: Seq<char>, p: int, i: int)
    requires
        0 <= p,
        i64::MIN <= i <= i64::MAX,
        p + dec_int(i).len() <= s.len(),
        s.subrange(p, p + dec_int(i).len() as int) == dec_int(i),
        end_ok(s, p + dec_int(i).len()),
    ensures
        spec_parse_number(s, p) == Ok::<(NumModel, int), ErrModel>(
            (NumModel::Int(i), p + dec_int(i).len()),
        ),
{
    if i >= 0 {
        lemma_parse_number_emitted_nat(s, p, i as nat);
    } else {
        let mag = (-i) as nat;
        let w = dec_int(i);
        let wd = dec_nat(mag);
        let e = p + w.len();
        lemma_dec_nat_props(mag);
        assert(w == seq!['-'] + wd);
        lemma_split_window(s, p, seq!['-'], wd);
        lemma_window_index(s, p, w);
        assert(s[p] == '-') by {
            assert(s.subrange(p, p + w.len() as int)[0] == s[p]);
            assert(w[0] == '-');
        }
        let p1 = p + 1;
        lemma_window_index(s, p1, wd);
        assert(is_digit(s[p1]));
        assert(mag > 0);
        assert(wd[0] != '0');
        assert(s[p1] != '0');
        assert forall|j: int| p1 <= j < e implies (is_digit(#[trigger] s[j]) || s[j] == '_') by {
            assert(s[j] == wd[j - p1]);
        }
        lemma_scan_digits_window(s, p1, e);
        let len = s.len() as int;
        if e < len {
            assert(!(s[e] == '.'));
            assert(!(s[e] == 'e' || s[e] == 'E'));
        }
        assert(strip_uscores(s.subrange(p1, e)) == wd) by {
            assert(s.subrange(p1, e) =~= wd);
            lemma_strip_id(wd);
        }
        assert(digits_val(strip_uscores(s.subrange(p1, e))) == mag);
        assert(mag <= 0x8000_0000_0000_0000);
        assert(spec_parse_number(s, p) == Ok::<(NumModel, int), ErrModel>(
            (NumModel::Int(-(mag as int)), e),
        ));
    }
}

/// The kept text of a normalized literal window is the window itself:
/// every piece is its piece of the window, underscores are absent, and no
/// zero is supplied around the dot.
#[verifier::rlimit(100)]
proof fn lemma_float_text_id(s: Seq<char>, p: int, t: Seq<char>, p1: int, p2: int, frac: bool, p3: int, p4: int)
    requires
        0 <= p,
        p + t.len() <= s.len(),
        s.subrange(p, p + t.len() as int) == t,
        0 <= p1 <= p2 <= p3 <= p4 == t.len(),
        frac ==> p2 + 1 <= p3,
        !frac ==> p2 == p3,
        forall|i: int| 0 <= i < t.len() ==> t[i] != '_',
        strip_uscores(t.subrange(p1, p2)).len() > 0,
        frac ==> count_digits(t.subrange(p2 + 1, p3)) >= 1,
    ensures
        crate::parser::float_text(s, p, p + p1, p + p2, frac, p + p3, p + p4) == t,
{
    let len_t = t.len() as int;
    lemma_subrange_transfer(s, p, t, 0, p1);
    lemma_subrange_transfer(s, p, t, p1, p2);
    lemma_subrange_transfer(s, p, t, p2, p3);
    lemma_subrange_transfer(s, p, t, p3, p4);
    if frac {
        lemma_subrange_transfer(s, p, t, p2 + 1, p3);
    }
    assert forall|a: int, b: int| 0 <= a <= b <= len_t implies strip_uscores(
        #[trigger] t.subrange(a, b),
    ) == t.subrange(a, b) by {
        assert forall|i: int| 0 <= i < b - a implies t.subrange(a, b)[i] != '_' by {
            assert(t.subrange(a, b)[i] == t[a + i]);
        }
        lemma_strip_id(t.subrange(a, b));
    }
    let a0 = t.subrange(0, p1);
    let b0 = t.subrange(p1, p2);
    let d0 = t.subrange(p3, p4);
    assert(strip_uscores(s.subrange(p, p + p1)) == a0) by {
        assert(s.subrange(p + 0, p + p1) == t.subrange(0, p1));
    }
    assert(strip_uscores(s.subrange(p + p1, p + p2)) == b0);
    assert(strip_uscores(s.subrange(p + p3, p + p4)) == d0);
    assert(strip_uscores(s.subrange(p + p1, p + p2)).len() > 0);
    if frac {
        assert(strip_uscores(s.subrange(p + p2, p + p3)) == t.subrange(p2, p3));
        assert(count_digits(s.subrange(p + p2 + 1, p + p3)) >= 1) by {
            assert(s.subrange((p + p2) + 1, p + p3) == t.subrange(p2 + 1, p3));
        }
        assert(crate::parser::float_text(s, p, p + p1, p + p2, frac, p + p3, p + p4) == a0
            + Seq::<char>::empty() + b0 + (t.subrange(p2, p3) + Seq::<char>::empty()) + d0);
        assert(a0 + Seq::<char>::empty() + b0 + (t.subrange(p2, p3) + Seq::<char>::empty()) + d0
            =~= t);
    } else {
        assert(crate::parser::float_text(s, p, p + p1, p + p2, frac, p + p3, p + p4) == a0
            + Seq::<char>::empty() + b0 + Seq::<char>::empty() + d0);
        assert(a0 + Seq::<char>::empty() + b0 + Seq::<char>::empty() + d0 =~= t);
    }
}

/// Parsing a kept float literal yields the same literal.
#[verifier::rlimit(100)]
pub proof fn lemma_parse_number_emitted_float(s: Seq<char>, p: int, t: Seq<char>)
    requires
        0 <= p,
        wf_float(t),
        p + t.len() <= s.len(),
        s.subrange(p, p + t.len() as int) == t,
        end_ok(s, p + t.len()),
    ensures
        spec_parse_number(s, p) == Ok::<(NumModel, int), ErrModel>(
            (NumModel::Float(t), p + t.len()),
        ),
{
    let len_t = t.len() as int;
    let e = p + len_t;
    let len = s.len() as int;
    lemma_window_index(s, p, t);
    let has_sign = t[0] == '-' || t[0] == '+';
    let neg = t[0] == '-';
    let p1 = if has_sign {
        1int
    } else {
        0int
    };
    let p2 = if p1 < len_t && t[p1] == '0' {
        p1 + 1
    } else {
        scan_digits(t, p1)
    };
    let frac = p2 < len_t && t[p2] == '.';
    let p3 = if frac {
        scan_digits(t, p2 + 1)
    } else {
        p2
    };
    let exp = p3 < len_t && (t[p3] == 'e' || t[p3] == 'E');
    let pe = if exp {
        if p3 + 1 < len_t && (t[p3 + 1] == '+' || t[p3 + 1] == '-') {
            p3 + 2
        } else {
            p3 + 1
        }
    } else {
        p3
    };
    let p4 = if exp {
        scan_digits(t, pe)
    } else {
        p3
    };
    assert(p4 == len_t);
    lemma_scan_digits_chars(t, p1);
    // The sign reads the same.
    assert((p < len && s[p] == '-') == neg);
    assert((p < len && (s[p] == '-' || s[p] == '+')) == has_sign);
    // The scans land at the same relative places.
    lemma_scan_digits_transfer(s, p, t, p1);
    let sp1 = p + p1;
    let sp2 = p + p2;
    assert(p1 <= p2 <= len_t) by {
        if !(p1 < len_t && t[p1] == '0') {
            lemma_scan_digits_chars(t, p1);
        }
    }
    // No hex prefix.
    if sp1 < len && s[sp1] == '0' && sp1 + 1 < len && (s[sp1 + 1] == 'x' || s[sp1 + 1] == 'X') {
        assert(p1 < len_t && t[p1] == '0');
        if p1 + 1 < len_t {
            assert(s[sp1 + 1] == t[p1 + 1]);
            assert(false);
        } else {
            assert(sp1 + 1 == e);
            assert(end_ok(s, sp1 + 1));
            assert(false);
        }
    }
    // Integer part.
    assert({
        let q = if sp1 < len && s[sp1] == '0' {
            sp1 + 1
        } else {
            scan_digits(s, sp1)
        };
        q == sp2
    }) by {
        if p1 < len_t {
            assert(s[sp1] == t[p1]);
        }
        if p1 < len_t && t[p1] == '0' {
        } else {
            if p1 == len_t {
                assert(scan_digits(t, p1) == p1);
            }
        }
    }
    // Fraction.
    let sfrac = sp2 < len && s[sp2] == '.';
    assert(sfrac == frac) by {
        if p2 < len_t {
            assert(s[sp2] == t[p2]);
        } else {
            assert(sp2 == e);
            assert(end_ok(s, sp2));
        }
    }
    let sp3 = p + p3;
    if frac {
        lemma_scan_digits_transfer(s, p, t, p2 + 1);
        lemma_scan_digits_chars(t, p2 + 1);
    }
    // Exponent.
    let sexp = sp3 < len && (s[sp3] == 'e' || s[sp3] == 'E');
    assert(sexp == exp) by {
        if p3 < len_t {
            assert(s[sp3] == t[p3]);
        } else {
            assert(sp3 == e);
            assert(end_ok(s, sp3));
        }
    }
    let spe = p + pe;
    let sp4 = p + p4;
    if exp {
        assert({
            let q = if sp3 + 1 < len && (s[sp3 + 1] == '+' || s[sp3 + 1] == '-') {
                sp3 + 2
            } else {
                sp3 + 1
            };
            q == spe
        }) by {
            assert(pe <= p4);
            lemma_scan_digits_chars(t, pe);
            if p3 + 1 < len_t {
                assert(s[sp3 + 1] == t[p3 + 1]);
            } else {
                assert(sp3 + 1 == e);
                assert(end_ok(s, sp3 + 1));
            }
        }
        lemma_scan_digits_transfer(s, p, t, pe);
    }
    // The consumed text is the window, underscores already absent.
    assert(strip_uscores(s.subrange(p, sp4)) == t) by {
        assert(s.subrange(p, sp4) =~= t);
        lemma_strip_id(t);
    }
    if frac || exp {
        // Digit counts transfer.
        assert(strip_uscores(s.subrange(sp1, sp2)) == strip_uscores(t.subrange(p1, p2))) by {
            lemma_subrange_transfer(s, p, t, p1, p2);
        }
        if frac {
            assert(count_digits(s.subrange(sp2 + 1, sp3)) == count_digits(
                t.subrange(p2 + 1, p3),
            )) by {
                lemma_subrange_transfer(s, p, t, p2 + 1, p3);
            }
        }
        if exp {
            assert(count_digits(s.subrange(spe, sp4)) == count_digits(t.subrange(pe, p4))) by {
                lemma_subrange_transfer(s, p, t, pe, p4);
            }
        }
        // The kept text reassembles to the window.
        lemma_float_text_id(s, p, t, p1, p2, frac, p3, p4);
    } else {
        assert(strip_uscores(s.subrange(sp1, sp2)) == strip_uscores(t.subrange(p1, p2))) by {
            lemma_subrange_transfer(s, p, t, p1, p2);
        }
        assert(digits_val(strip_uscores(t.subrange(p1, p2))) > u64::MAX) by {
            assert(strip_uscores(t.subrange(p1, p2)) == t.subrange(p1, p2)) by {
                lemma_strip_id(t.subrange(p1, p2));
            }
        }
    }
}

/// A hexadecimal digit character reads back as its value.
pub proof fn lemma_hex_digit_char_val(d: int)
    requires
        0 <= d < 16,
    ensures
        spec_hex_val(hex_digit_char(d)) == Some(d as u8),
{
}

/// Parsing the escaped body of a string, followed by its closing quote,
/// yields the body's characters.
#[verifier::rlimit(100)]
pub proof fn lemma_parse_string_body_emitted(s: Seq<char>, p: int, t: Seq<char>, acc: Seq<char>)
    requires
        0 <= p,
        p + emit_escaped(t).len() + 1 <= s.len(),
        s.subrange(p, p + emit_escaped(t).len() + 1) == emit_escaped(t) + seq!['"'],
    ensures
        spec_parse_string_body(s, p, '"', acc) == Ok::<(Seq<char>, int), ErrModel>(
            (acc + t, p + emit_escaped(t).len() + 1),
        ),
    decreases t.len(),
{
    if t.len() == 0 {
        assert(emit_escaped(t) == Seq::<char>::empty());
        assert(s[p] == '"') by {
            assert((emit_escaped(t) + seq!['"'])[0] == '"');
            assert(s.subrange(p, p + 1)[0] == s[p]);
            assert(s.subrange(p, p + emit_escaped(t).len() + 1) =~= s.subrange(p, p + 1));
        }
        assert(acc + t =~= acc);
    } else {
        let c = t[0];
        let ec = esc_char(c);
        let rest = emit_escaped(t.drop_first());
        assert(emit_escaped(t) == ec + rest);
        let tail = rest + seq!['"'];
        assert(emit_escaped(t) + seq!['"'] == ec + tail) by {
            assert((ec + rest) + seq!['"'] =~= ec + (rest + seq!['"']));
        }
        lemma_split_window(s, p, ec, tail);
        lemma_window_index(s, p, ec);
        let p2 = p + ec.len();
        assert(s.subrange(p2, p2 + rest.len() + 1) == rest + seq!['"']);
        lemma_parse_string_body_emitted(s, p2, t.drop_first(), acc.push(c));
        assert(acc.push(c) + t.drop_first() =~= acc + t);
        let cu = c as u32;
        if c == '"' || c == '\\' {
            assert(s[p] == '\\' && s[p + 1] == c);
            assert(spec_parse_escape(s, p + 1) == Ok::<(Option<char>, int), ErrModel>(
                (Some(c), p + 2),
            ));
        } else if c == '\u{8}' {
            assert(s[p] == '\\' && s[p + 1] == 'b');
        } else if c == '\u{c}' {
            assert(s[p] == '\\' && s[p + 1] == 'f');
        } else if c == '\n' {
            assert(s[p] == '\\' && s[p + 1] == 'n');
        } else if c == '\r' {
            assert(s[p] == '\\' && s[p + 1] == 'r');
        } else if c == '\t' {
            assert(s[p] == '\\' && s[p + 1] == 't');
        } else if cu < 0x20 {
            // `\u00XY` reads back as the control character.
            assert(s[p] == '\\' && s[p + 1] == 'u');
            assert(s[p + 2] == '0' && s[p + 3] == '0');
            let h1 = hex_digit_char(cu as int / 16);
            let h2 = hex_digit_char(cu as int % 16);
            assert(s[p + 4] == h1 && s[p + 5] == h2);
            lemma_hex_digit_char_val(cu as int / 16);
            lemma_hex_digit_char_val(cu as int % 16);
            assert(spec_hex_val('0') == Some(0u8));
            assert(spec_four_hex(s, p + 2) == Ok::<int, ErrModel>(cu as int)) by {
                assert((cu as int / 16) * 16 + (cu as int % 16) == cu as int);
            }
            assert(s[p + 2] != '{');
            assert(spec_parse_unicode_escape(s, p + 2) == Ok::<(char, int), ErrModel>(
                (c, p + 6),
            )) by {
                assert(!(0xD800 <= cu as int <= 0xDBFF));
                assert(!(0xDC00 <= cu as int <= 0xDFFF));
                vstd::utf8::char_u32_cast(c, cu);
                assert(((cu as int) as u32) as char == c);
            }
            assert(spec_parse_escape(s, p + 1) == Ok::<(Option<char>, int), ErrModel>(
                (Some(c), p + 6),
            ));
        } else {
            // The character stands as itself.
            assert(ec == seq![c]);
            assert(s[p] == c) by {
                assert(s.subrange(p, p + ec.len() as int)[0] == s[p]);
                assert(ec[0] == c);
            }
            assert(c != '"' && c != '\\' && c != '\n' && c != '\r');
            assert(!(cu < 0x20));
            assert(spec_parse_string_body(s, p, '"', acc) == spec_parse_string_body(
                s,
                p + 1,
                '"',
                acc.push(c),
            ));
        }
    }
}

/// Parsing an emitted quoted string yields the string.
pub proof fn lemma_parse_string_emitted(s: Seq<char>, p: int, t: Seq<char>)
    requires
        0 <= p,
        p + emit_quoted(t).len() <= s.len(),
        s.subrange(p, p + emit_quoted(t).len() as int) == emit_quoted(t),
    ensures
        spec_parse_string(s, p) == Ok::<(Seq<char>, int), ErrModel>(
            (t, p + emit_quoted(t).len()),
        ),
{
    let w = emit_quoted(t);
    lemma_window_index(s, p, w);
    assert(s[p] == '"') by {
        assert(w[0] == '"');
        assert(s.subrange(p, p + w.len() as int)[0] == s[p]);
    }
    assert(s.subrange(p + 1, p + 1 + emit_escaped(t).len() + 1) == emit_escaped(t) + seq!['"'])
        by {
        assert(w == seq!['"'] + (emit_escaped(t) + seq!['"'])) by {
            assert(w =~= seq!['"'] + (emit_escaped(t) + seq!['"']));
        }
        lemma_split_window(s, p, seq!['"'], emit_escaped(t) + seq!['"']);
    }
    lemma_parse_string_body_emitted(s, p + 1, t, Seq::empty());
    assert(Seq::<char>::empty() + t =~= t);
}

// ---------------------------------------------------------------------------
// Keys
// ---------------------------------------------------------------------------

/// Parsing an emitted key, quoted or bare, yields the key; a colon follows.
pub proof fn lemma_parse_key_emitted(s: Seq<char>, p: int, k: Seq<char>, qk: bool)
    requires
        0 <= p,
        p + emit_key(k, qk).len() < s.len(),
        s.subrange(p, p + emit_key(k, qk).len() as int) == emit_key(k, qk),
        s[p + emit_key(k, qk).len()] == ':',
    ensures
        spec_parse_key(s, p) == Ok::<(Seq<char>, int), ErrModel>((k, p + emit_key(k, qk).len())),
{
    if !qk && spec_is_ident(k) {
        let e = p + k.len();
        lemma_window_index(s, p, k);
        assert(s[p] == k[0]) by {
            assert(s.subrange(p, p + k.len() as int)[0] == s[p]);
        }
        assert(is_ascii_alpha(s[p]) || s[p] == '_' || s[p] == '$');
        assert((s[p] as u32) < 0x80);
        assert(spec_id_start(s[p]));
        assert forall|j: int| p + 1 <= j < e implies spec_id_continue(#[trigger] s[j]) by {
            assert(s[j] == k[j - p]);
        }
        assert(!spec_id_continue(':'));
        lemma_scan_id_window(s, p + 1, e);
        assert(seq![s[p]] + s.subrange(p + 1, e) =~= k);
    } else {
        lemma_parse_string_emitted(s, p, k);
        assert(s[p] == '"') by {
            assert(s.subrange(p, p + emit_quoted(k).len() as int)[0] == s[p]);
            assert(emit_quoted(k)[0] == '"');
        }
    }
}

// ---------------------------------------------------------------------------
// First characters of emitted values
// ---------------------------------------------------------------------------

/// A well-formed float literal opens with a sign, a digit or a dot; after a
/// sign comes a digit or a dot.
pub proof fn lemma_wf_float_start(t: Seq<char>)
    requires
        wf_float(t),
    ensures
        t.len() >= 1,
        t[0] == '-' || t[0] == '+' || is_digit(t[0]) || t[0] == '.',
        (t[0] == '-' || t[0] == '+') ==> t.len() >= 2 && (is_digit(t[1]) || t[1] == '.'),
{
    let len = t.len() as int;
    if !(t[0] == '-' || t[0] == '+') {
        if !(is_digit(t[0]) || t[0] == '.') {
            assert(scan_digits(t, 0) == 0);
            assert(false);
        }
    } else {
        if len == 1 {
            assert(scan_digits(t, 1) == 1);
            assert(false);
        }
        if !(is_digit(t[1]) || t[1] == '.') {
            assert(scan_digits(t, 1) == 1);
            assert(false);
        }
    }
}

/// What an emitted value can open with: never whitespace, never a slash.
pub proof fn lemma_emit_first_char(v: ValModel, qk: bool)
    requires
        encodable(v),
    ensures
        emit_compact(v, qk).len() >= 1,
        !is_ws_char(emit_compact(v, qk)[0]),
        emit_compact(v, qk)[0] != '/',
        emit_compact(v, qk)[0] != ']',
        emit_compact(v, qk)[0] != '}',
        emit_compact(v, qk)[0] != ',',
        emit_compact(v, qk)[0] != ':',
    decreases v,
{
    match v {
        ValModel::Number(m) => match m {
            NumModel::Int(i) => {
                lemma_dec_nat_props(if i < 0 {
                    (-i) as nat
                } else {
                    i as nat
                });
                if i < 0 {
                    assert(emit_compact(v, qk)[0] == '-') by {
                        assert((seq!['-'] + dec_nat((-i) as nat))[0] == '-');
                    }
                }
            },
            NumModel::Uint(u) => {
                lemma_dec_nat_props(u as nat);
            },
            NumModel::Float(t) => {
                lemma_wf_float_start(t);
            },
            _ => {},
        },
        _ => {},
    }
}

// ---------------------------------------------------------------------------
// The main induction
// ---------------------------------------------------------------------------

/// Parsing the compact text of a well-formed value, standing as a window in
/// a larger text and closed by a separator or the end, yields the value's
/// normal form and stops exactly after the window.
#[verifier::rlimit(100)]
pub proof fn lemma_parse_emitted(s: Seq<char>, p: int, v: ValModel, qk: bool, d: int)
    requires
        0 <= p,
        0 <= d,
        encodable(v),
        crate::ser::fits_depth(v, d, crate::ser::MAX_DEPTH as int),
        p + emit_compact(v, qk).len() <= s.len(),
        s.subrange(p, p + emit_compact(v, qk).len() as int) == emit_compact(v, qk),
        end_ok(s, p + emit_compact(v, qk).len()),
    ensures
        spec_parse_value(s, p, d) == Ok::<(ValModel, int), ErrModel>(
            (norm(v), p + emit_compact(v, qk).len()),
        ),
    decreases v, 0int,
{
    let w = emit_compact(v, qk);
    let e = p + w.len();
    lemma_emit_first_char(v, qk);
    lemma_window_index(s, p, w);
    assert(s[p] == w[0]) by {
        assert(s.subrange(p, p + w.len() as int)[0] == s[p]);
    }
    lemma_skip_ws_stop(s, p);
    assert(skip_ws(s, p) == p);
    match v {
        ValModel::Null => {
            assert(matches_at(s, p, lit_null())) by {
                assert(s.subrange(p, p + 4) =~= lit_null());
            }
        },
        ValModel::Bool(b) => {
            if b {
                assert(matches_at(s, p, lit_true())) by {
                    assert(s.subrange(p, p + 4) =~= lit_true());
                }
            } else {
                assert(s[p] == 'f');
                assert(!matches_at(s, p, lit_true())) by {
                    if matches_at(s, p, lit_true()) {
                        assert(s.subrange(p, p + 4)[0] == 't');
                    }
                }
                assert(matches_at(s, p, lit_false())) by {
                    assert(s.subrange(p, p + 5) =~= lit_false());
                }
            }
        },
        ValModel::Number(m) => {
            match m {
                NumModel::Int(i) => {
                    lemma_dec_nat_props(if i < 0 {
                        (-i) as nat
                    } else {
                        i as nat
                    });
                    if i < 0 {
                        assert(s[p] == '-');
                        // The next character is a digit, so not `Infinity`.
                        assert(is_digit(s[p + 1])) by {
                            assert(w == seq!['-'] + dec_nat((-i) as nat));
                            assert(w[1] == dec_nat((-i) as nat)[0]);
                        }
                        assert(!matches_at(s, p + 1, lit_infinity())) by {
                            if matches_at(s, p + 1, lit_infinity()) {
                                assert(s.subrange(p + 1, p + 9)[0] == 'I');
                            }
                        }
                        lemma_parse_number_emitted_int(s, p, i);
                    } else {
                        assert(is_digit(s[p]));
                        lemma_parse_number_emitted_int(s, p, i);
                    }
                },
                NumModel::Uint(u) => {
                    lemma_dec_nat_props(u as nat);
                    assert(is_digit(s[p]));
                    lemma_parse_number_emitted_nat(s, p, u as nat);
                },
                NumModel::Float(t) => {
                    lemma_wf_float_start(t);
                    lemma_parse_number_emitted_float(s, p, t);
                    if t[0] == '-' || t[0] == '+' {
                        assert(s[p + 1] == t[1]);
                        assert(!matches_at(s, p + 1, lit_infinity())) by {
                            if matches_at(s, p + 1, lit_infinity()) {
                                assert(s.subrange(p + 1, p + 9)[0] == 'I');
                            }
                        }
                    }
                },
                NumModel::NaN => {
                    assert(matches_at(s, p, lit_nan())) by {
                        assert(s.subrange(p, p + 3) =~= lit_nan());
                    }
                },
                NumModel::Infinity => {
                    assert(matches_at(s, p, lit_infinity())) by {
                        assert(s.subrange(p, p + 8) =~= lit_infinity());
                    }
                },
                NumModel::NegInfinity => {
                    assert(s[p] == '-') by {
                        assert((seq!['-'] + lit_infinity())[0] == '-');
                    }
                    assert(matches_at(s, p + 1, lit_infinity())) by {
                        assert(w == seq!['-'] + lit_infinity());
                        lemma_split_window(s, p, seq!['-'], lit_infinity());
                    }
                },
            }
        },
        ValModel::Str(t) => {
            assert(s[p] == '"') by {
                assert(emit_quoted(t)[0] == '"');
            }
            lemma_parse_string_emitted(s, p, t);
        },
        ValModel::Arr(items) => {
            assert(s[p] == '[') by {
                assert(w[0] == '[');
            }
            let inner = emit_compact_items(items, qk);
            assert(s.subrange(p + 1, p + 1 + inner.len() + 1) == inner + seq![']']) by {
                assert(w =~= seq!['['] + (inner + seq![']']));
                lemma_split_window(s, p, seq!['['], inner + seq![']']);
            }
            lemma_parse_items_emitted(s, p + 1, items, Seq::empty(), qk, d);
            assert(Seq::<ValModel>::empty() + norm_items(items) =~= norm_items(items));
        },
        ValModel::Obj(entries) => {
            assert(s[p] == '{') by {
                assert(w[0] == '{');
            }
            let inner = emit_compact_entries(entries, qk);
            assert(s.subrange(p + 1, p + 1 + inner.len() + 1) == inner + seq!['}']) by {
                assert(w =~= seq!['{'] + (inner + seq!['}']));
                lemma_split_window(s, p, seq!['{'], inner + seq!['}']);
            }
            lemma_parse_entries_emitted(s, p + 1, entries, Seq::empty(), qk, d);
            assert(Seq::<(Seq<char>, ValModel)>::empty() + norm_entries(entries) =~= norm_entries(
                entries,
            ));
        },
    }
}

/// Parsing emitted array elements up to the closing bracket collects their
/// normal forms after `acc`.
#[verifier::rlimit(100)]
pub proof fn lemma_parse_items_emitted(
    s: Seq<char>,
    p: int,
    items: Seq<ValModel>,
    acc: Seq<ValModel>,
    qk: bool,
    d: int,
)
    requires
        0 <= p,
        0 <= d,
        encodable_items(items),
        crate::ser::fits_items(items, d + 1, crate::ser::MAX_DEPTH as int),
        p + emit_compact_items(items, qk).len() + 1 <= s.len(),
        s.subrange(p, p + emit_compact_items(items, qk).len() + 1) == emit_compact_items(
            items,
            qk,
        ) + seq![']'],
    ensures
        spec_parse_array_rest(s, p, acc, d) == Ok::<(ValModel, int), ErrModel>(
            (ValModel::Arr(acc + norm_items(items)), p + emit_compact_items(items, qk).len() + 1),
        ),
    decreases items, 0int,
{
    let inner = emit_compact_items(items, qk);
    if items.len() == 0 {
        assert(s[p] == ']') by {
            assert(s.subrange(p, p + 1)[0] == s[p]);
            assert(s.subrange(p, p + inner.len() + 1) =~= s.subrange(p, p + 1));
            assert((inner + seq![']'])[0] == ']');
        }
        lemma_skip_ws_stop(s, p);
        assert(acc + norm_items(items) =~= acc);
    } else {
        let v0 = items[0];
        let e0 = emit_compact(v0, qk);
        let restw = emit_compact_items_rest(items.drop_first(), qk);
        assert(inner == e0 + restw);
        assert(s.subrange(p, p + e0.len() + (restw.len() + 1)) == e0 + (restw + seq![']'])) by {
            assert((e0 + restw) + seq![']'] =~= e0 + (restw + seq![']']));
        }
        lemma_split_window(s, p, e0, restw + seq![']']);
        let p2 = p + e0.len();
        lemma_emit_first_char(v0, qk);
        assert(s[p] == e0[0]) by {
            assert(s.subrange(p, p + e0.len() as int)[0] == s[p]);
        }
        lemma_skip_ws_stop(s, p);
        assert(s[p] != ']');
        assert(end_ok(s, p2)) by {
            assert(s[p2] == (restw + seq![']'])[0]) by {
                lemma_window_index(s, p2, restw + seq![']']);
                assert(s.subrange(p2, p2 + restw.len() + 1)[0] == s[p2]);
            }
            if restw.len() == 0 {
            } else {
                assert(restw[0] == ',') by {
                    assert(items.drop_first().len() > 0);
                }
            }
        }
        lemma_parse_emitted(s, p, v0, qk, d + 1);
        lemma_skip_ws_stop(s, p2);
        let acc2 = acc.push(norm(v0));
        if items.drop_first().len() == 0 {
            assert(restw.len() == 0);
            assert(s[p2] == ']') by {
                lemma_window_index(s, p2, restw + seq![']']);
                assert(s.subrange(p2, p2 + restw.len() + 1)[0] == s[p2]);
            }
            assert(spec_parse_array_rest(s, p, acc, d) == Ok::<(ValModel, int), ErrModel>(
                (ValModel::Arr(acc2), p2 + 1),
            ));
            assert(acc2 =~= acc + norm_items(items)) by {
                assert(norm_items(items.drop_first()) == Seq::<ValModel>::empty());
                assert(norm_items(items) =~= seq![norm(v0)]);
            }
        } else {
            assert(restw == seq![','] + emit_compact_items(items.drop_first(), qk)) by {
                let xs = items.drop_first();
                assert(emit_compact_items_rest(xs, qk) =~= seq![','] + emit_compact_items(
                    xs,
                    qk,
                ));
            }
            assert(s[p2] == ',') by {
                lemma_window_index(s, p2, restw + seq![']']);
                assert(s.subrange(p2, p2 + restw.len() + 1)[0] == s[p2]);
                assert((restw + seq![']'])[0] == ',');
            }
            let innerd = emit_compact_items(items.drop_first(), qk);
            assert(s.subrange(p2 + 1, p2 + 1 + innerd.len() + 1) == innerd + seq![']']) by {
                assert(restw + seq![']'] =~= seq![','] + (innerd + seq![']']));
                lemma_split_window(s, p2, seq![','], innerd + seq![']']);
            }
            lemma_parse_items_emitted(s, p2 + 1, items.drop_first(), acc2, qk, d);
            assert(acc2 + norm_items(items.drop_first()) =~= acc + norm_items(items)) by {
                assert(norm_items(items) == seq![norm(v0)] + norm_items(items.drop_first()));
            }
        }
    }
}

/// Parsing emitted object entries up to the closing brace collects their
/// normal forms after `acc`; keys already taken never recur.
#[verifier::rlimit(100)]
pub proof fn lemma_parse_entries_emitted(
    s: Seq<char>,
    p: int,
    entries: Seq<(Seq<char>, ValModel)>,
    acc: Seq<(Seq<char>, ValModel)>,
    qk: bool,
    d: int,
)
    requires
        0 <= p,
        0 <= d,
        crate::ser::fits_entries(entries, d + 1, crate::ser::MAX_DEPTH as int),
        encodable_entries(entries),
        obj_keys_unique(entries),
        forall|i: int, j: int|
            0 <= i < acc.len() && 0 <= j < entries.len() ==> acc[i].0 != entries[j].0,
        p + emit_compact_entries(entries, qk).len() + 1 <= s.len(),
        s.subrange(p, p + emit_compact_entries(entries, qk).len() + 1) == emit_compact_entries(
            entries,
            qk,
        ) + seq!['}'],
    ensures
        spec_parse_object_rest(s, p, acc, d) == Ok::<(ValModel, int), ErrModel>(
            (
                ValModel::Obj(acc + norm_entries(entries)),
                p + emit_compact_entries(entries, qk).len() + 1,
            ),
        ),
    decreases entries, 0int,
{
    let inner = emit_compact_entries(entries, qk);
    if entries.len() == 0 {
        assert(s[p] == '}') by {
            assert(s.subrange(p, p + 1)[0] == s[p]);
            assert(s.subrange(p, p + inner.len() + 1) =~= s.subrange(p, p + 1));
            assert((inner + seq!['}'])[0] == '}');
        }
        lemma_skip_ws_stop(s, p);
        assert(acc + norm_entries(entries) =~= acc);
    } else {
        let k0 = entries[0].0;
        let v0 = entries[0].1;
        let ek = emit_key(k0, qk);
        let e0 = emit_compact(v0, qk);
        let restw = emit_compact_entries_rest(entries.drop_first(), qk);
        assert(inner == ek + seq![':'] + e0 + restw);
        // Split the window into the key, the colon, the value and the rest.
        let tail1 = seq![':'] + (e0 + (restw + seq!['}']));
        assert(s.subrange(p, p + ek.len() + tail1.len()) == ek + tail1) by {
            assert(((ek + seq![':']) + e0) + restw + seq!['}'] =~= ek + tail1);
        }
        lemma_split_window(s, p, ek, tail1);
        let pk = p + ek.len();
        let tail2 = e0 + (restw + seq!['}']);
        assert(s.subrange(pk, pk + 1 + tail2.len()) == seq![':'] + tail2);
        lemma_split_window(s, pk, seq![':'], tail2);
        let pv = pk + 1;
        assert(s.subrange(pv, pv + e0.len() + (restw.len() + 1)) == e0 + (restw + seq!['}'])) by {
            assert(tail2 =~= e0 + (restw + seq!['}']));
        }
        lemma_split_window(s, pv, e0, restw + seq!['}']);
        let p2 = pv + e0.len();
        // The key, then the colon.
        assert(s[pk] == ':') by {
            lemma_window_index(s, pk, seq![':'] + tail2);
            assert(s.subrange(pk, pk + 1 + tail2.len())[0] == s[pk]);
        }
        lemma_parse_key_emitted(s, p, k0, qk);
        assert(s[p] == emit_key(k0, qk)[0]) by {
            assert(s.subrange(p, p + ek.len() as int)[0] == s[p]);
        }
        // The key is no whitespace opener, and no closer.
        assert(!is_ws_char(s[p]) && s[p] != '/' && s[p] != '}') by {
            if !qk && spec_is_ident(k0) {
                assert(emit_key(k0, qk)[0] == k0[0]);
            } else {
                assert(emit_key(k0, qk)[0] == '"') by {
                    assert(emit_quoted(k0)[0] == '"');
                }
            }
        }
        lemma_skip_ws_stop(s, p);
        lemma_skip_ws_stop(s, pk);
        // The value, closed by a comma or the brace.
        assert(end_ok(s, p2)) by {
            assert(s[p2] == (restw + seq!['}'])[0]) by {
                lemma_window_index(s, p2, restw + seq!['}']);
                assert(s.subrange(p2, p2 + restw.len() + 1)[0] == s[p2]);
            }
            if restw.len() > 0 {
                assert(restw[0] == ',') by {
                    assert(entries.drop_first().len() > 0);
                }
            }
        }
        lemma_parse_emitted(s, pv, v0, qk, d + 1);
        lemma_skip_ws_stop(s, p2);
        // Inserting a fresh key appends.
        let acc2 = obj_insert_model(acc, k0, norm(v0));
        assert(acc2 == acc.push((k0, norm(v0)))) by {
            crate::value::lemma_key_index_missing(acc, k0);
        }
        if entries.drop_first().len() == 0 {
            assert(restw.len() == 0);
            assert(s[p2] == '}') by {
                lemma_window_index(s, p2, restw + seq!['}']);
                assert(s.subrange(p2, p2 + restw.len() + 1)[0] == s[p2]);
            }
            assert(spec_parse_object_rest(s, p, acc, d) == Ok::<(ValModel, int), ErrModel>(
                (ValModel::Obj(acc2), p2 + 1),
            ));
            assert(acc2 =~= acc + norm_entries(entries)) by {
                assert(norm_entries(entries.drop_first()) == Seq::<(Seq<char>, ValModel)>::empty());
                assert(norm_entries(entries) =~= seq![(k0, norm(v0))]);
            }
        } else {
            assert(restw == seq![','] + emit_compact_entries(entries.drop_first(), qk)) by {
                let xs = entries.drop_first();
                assert(emit_compact_entries_rest(xs, qk) =~= seq![','] + emit_compact_entries(
                    xs,
                    qk,
                ));
            }
            assert(s[p2] == ',') by {
                lemma_window_index(s, p2, restw + seq!['}']);
                assert(s.subrange(p2, p2 + restw.len() + 1)[0] == s[p2]);
                assert((restw + seq!['}'])[0] == ',');
            }
            let innerd = emit_compact_entries(entries.drop_first(), qk);
            assert(s.subrange(p2 + 1, p2 + 1 + innerd.len() + 1) == innerd + seq!['}']) by {
                assert(restw + seq!['}'] =~= seq![','] + (innerd + seq!['}']));
                lemma_split_window(s, p2, seq![','], innerd + seq!['}']);
            }
            assert forall|i: int, j: int|
                0 <= i < acc2.len() && 0 <= j < entries.drop_first().len() implies acc2[i].0
                != entries.drop_first()[j].0 by {
                assert(entries.drop_first()[j] == entries[j + 1]);
                if i < acc.len() {
                    assert(acc2[i] == acc[i]);
                } else {
                    assert(acc2[i].0 == k0);
                    assert(entries[0].0 != entries[j + 1].0);
                }
            }
            assert(obj_keys_unique(entries.drop_first())) by {
                assert forall|i: int, j: int|
                    0 <= i < j < entries.drop_first().len() implies entries.drop_first()[i].0
                    != entries.drop_first()[j].0 by {
                    assert(entries.drop_first()[i] == entries[i + 1]);
                    assert(entries.drop_first()[j] == entries[j + 1]);
                }
            }
            lemma_parse_entries_emitted(s, p2 + 1, entries.drop_first(), acc2, qk, d);
            assert(acc2 + norm_entries(entries.drop_first()) =~= acc + norm_entries(entries)) by {
                assert(norm_entries(entries) == seq![(k0, norm(v0))] + norm_entries(
                    entries.drop_first(),
                ));
            }
        }
    }
}

// ---------------------------------------------------------------------------
// The laws
// ---------------------------------------------------------------------------

/// Normalization does not change the emitted text.
pub proof fn lemma_emit_norm(v: ValModel, qk: bool)
    ensures
        emit_compact(norm(v), qk) == emit_compact(v, qk),
    decreases v, 0int,
{
    match v {
        ValModel::Arr(items) => {
            lemma_emit_norm_items(items, qk);
        },
        ValModel::Obj(entries) => {
            lemma_emit_norm_entries(entries, qk);
        },
        _ => {},
    }
}

/// Normalization does not change emitted elements.
pub proof fn lemma_emit_norm_items(items: Seq<ValModel>, qk: bool)
    ensures
        emit_compact_items(norm_items(items), qk) == emit_compact_items(items, qk),
        emit_compact_items_rest(norm_items(items), qk) == emit_compact_items_rest(items, qk),
    decreases items, 1int,
{
    if items.len() > 0 {
        lemma_emit_norm(items[0], qk);
        lemma_emit_norm_items(items.drop_first(), qk);
        assert(norm_items(items)[0] == norm(items[0]));
        assert(norm_items(items).drop_first() =~= norm_items(items.drop_first()));
    }
}

/// Normalization does not change emitted entries.
pub proof fn lemma_emit_norm_entries(entries: Seq<(Seq<char>, ValModel)>, qk: bool)
    ensures
        emit_compact_entries(norm_entries(entries), qk) == emit_compact_entries(entries, qk),
        emit_compact_entries_rest(norm_entries(entries), qk) == emit_compact_entries_rest(
            entries,
            qk,
        ),
    decreases entries, 1int,
{
    if entries.len() > 0 {
        lemma_emit_norm(entries[0].1, qk);
        lemma_emit_norm_entries(entries.drop_first(), qk);
        assert(norm_entries(entries)[0] == (entries[0].0, norm(entries[0].1)));
        assert(norm_entries(entries).drop_first() =~= norm_entries(entries.drop_first()));
    }
}

/// Parsing the compact text of a well-formed value that stays within the
/// emitters' depth ceiling yields its normal form.
pub proof fn lemma_round_trip_doc(v: ValModel, qk: bool)
    requires
        encodable(v),
        crate::ser::fits_depth(v, 0, crate::ser::MAX_DEPTH as int),
    ensures
        spec_parse_doc(emit_compact(v, qk)) == Ok::<ValModel, ErrModel>(norm(v)),
{
    let s = emit_compact(v, qk);
    assert(s.subrange(0, s.len() as int) =~= s);
    lemma_parse_emitted(s, 0, v, qk, 0);
}

/// Round trip: for every well-formed value — machine ranges respected,
/// float literals as the parser keeps them, object keys unique, the
/// unsigned variant used only beyond the signed range, and nesting within
/// the shared depth ceiling — parsing the compact text of the value yields
/// exactly the value.
pub proof fn theorem_parse_encode_round_trip(v: ValModel, qk: bool)
    requires
        encodable(v),
        crate::ser::fits_depth(v, 0, crate::ser::MAX_DEPTH as int),
        norm(v) == v,
    ensures
        spec_parse_doc(emit_compact(v, qk)) == Ok::<ValModel, ErrModel>(v),
{
    lemma_round_trip_doc(v, qk);
}

/// Idempotent emission: re-encoding what the compact text of a well-formed
/// value parses to yields the same text again.
pub proof fn theorem_encode_idempotent(v: ValModel, qk: bool)
    requires
        encodable(v),
        crate::ser::fits_depth(v, 0, crate::ser::MAX_DEPTH as int),
    ensures
        spec_parse_doc(emit_compact(v, qk)) matches Ok(w) && emit_compact(w, qk) == emit_compact(
            v,
            qk,
        ),
{
    lemma_round_trip_doc(v, qk);
    lemma_emit_norm(v, qk);
}

} // verus!
