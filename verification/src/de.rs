//! The typed decode adapter: a target shape drives the decoder by declaring
//! what kind of value it expects, and the accessors here supply it or raise
//! a `TypeMismatch`. Integer narrowing is overflow-checked: overflow is a
//! decode failure, never silent truncation.

use vstd::prelude::*;
use vstd::string::StrSliceExecFns;

use crate::error::{ErrModel, Error};
use crate::parser::{spec_parse_value, Parser};
use crate::value::{kind_text, NumModel, Number, ObjectMap, ValModel, Value};

verus! {

/// A target type that can be decoded from a [`Value`]. Implementations
/// drive the accessors below; the library implements the primitive,
/// optional and sequence shapes.
pub trait FromValue: Sized {
    fn from_value(v: &Value) -> Result<Self, Error>;
}

/// The message carried by an integer-narrowing failure.
pub open spec fn overflow_text() -> Seq<char> {
    "integer overflow"@
}

/// The message carried when a kept float literal is not in the parser's
/// shape.
pub open spec fn bad_float_text() -> Seq<char> {
    "invalid float literal"@
}

// ---------------------------------------------------------------------------
// Truncating a float literal, mathematically
// ---------------------------------------------------------------------------

/// Ten to the `k`.
pub open spec fn pow10(k: int) -> int
    decreases k,
{
    if k <= 0 {
        1
    } else {
        10 * pow10(k - 1)
    }
}

/// Powers of ten are positive.
pub proof fn lemma_pow10_pos(k: int)
    ensures
        pow10(k) >= 1,
    decreases k,
{
    if k > 0 {
        lemma_pow10_pos(k - 1);
    }
}

/// From the twentieth power on, a power of ten is beyond the unsigned
/// 64-bit range.
pub proof fn lemma_pow10_big(k: int)
    requires
        k >= 20,
    ensures
        pow10(k) > u64::MAX,
    decreases k,
{
    if k == 20 {
        reveal_with_fuel(pow10, 21);
    } else {
        lemma_pow10_big(k - 1);
        lemma_pow10_pos(k - 1);
    }
}

/// Where a float literal's sign ends.
pub open spec fn ftp1(t: Seq<char>) -> int {
    if t.len() > 0 && (t[0] == '-' || t[0] == '+') {
        1int
    } else {
        0int
    }
}

/// Where a float literal's integer part ends.
pub open spec fn ftp2(t: Seq<char>) -> int {
    let p1 = ftp1(t);
    if p1 < t.len() && t[p1] == '0' {
        p1 + 1
    } else {
        crate::parser::scan_digits(t, p1)
    }
}

/// Whether a float literal has a fractional part.
pub open spec fn ft_frac(t: Seq<char>) -> bool {
    ftp2(t) < t.len() && t[ftp2(t)] == '.'
}

/// Where a float literal's fractional part ends.
pub open spec fn ftp3(t: Seq<char>) -> int {
    if ft_frac(t) {
        crate::parser::scan_digits(t, ftp2(t) + 1)
    } else {
        ftp2(t)
    }
}

/// Whether a float literal has an exponent.
pub open spec fn ft_exp(t: Seq<char>) -> bool {
    ftp3(t) < t.len() && (t[ftp3(t)] == 'e' || t[ftp3(t)] == 'E')
}

/// Where a float literal's exponent digits begin.
pub open spec fn ftpe(t: Seq<char>) -> int {
    if ft_exp(t) {
        if ftp3(t) + 1 < t.len() && (t[ftp3(t) + 1] == '+' || t[ftp3(t) + 1] == '-') {
            ftp3(t) + 2
        } else {
            ftp3(t) + 1
        }
    } else {
        ftp3(t)
    }
}

/// Where a float literal ends.
pub open spec fn ftp4(t: Seq<char>) -> int {
    if ft_exp(t) {
        crate::parser::scan_digits(t, ftpe(t))
    } else {
        ftp3(t)
    }
}

/// The digits of the integer part, underscores dropped.
pub open spec fn ft_int_digits(t: Seq<char>) -> Seq<char> {
    crate::parser::strip_uscores(t.subrange(ftp1(t), ftp2(t)))
}

/// The digits of the mantissa: integer part, then fraction.
pub open spec fn ft_mant(t: Seq<char>) -> Seq<char> {
    ft_int_digits(t) + (if ft_frac(t) {
        crate::parser::strip_uscores(t.subrange(ftp2(t) + 1, ftp3(t)))
    } else {
        Seq::empty()
    })
}

/// The signed value of the exponent.
pub open spec fn ft_expval(t: Seq<char>) -> int {
    if ft_exp(t) {
        let mag = crate::parser::digits_val(crate::parser::strip_uscores(t.subrange(ftpe(t), ftp4(t))));
        if ftpe(t) == ftp3(t) + 2 && t[ftp3(t) + 1] == '-' {
            -mag
        } else {
            mag
        }
    } else {
        0
    }
}

/// Whether the literal carries a minus sign.
pub open spec fn ft_neg(t: Seq<char>) -> bool {
    t.len() > 0 && t[0] == '-'
}

/// Whether the literal is in the parser's shape: fully consumed, with
/// mantissa digits, and exponent digits where an exponent stands.
pub open spec fn ft_shape_ok(t: Seq<char>) -> bool {
    &&& ftp4(t) == t.len()
    &&& ft_mant(t).len() > 0
    &&& (ft_exp(t) ==> ftp4(t) > ftpe(t))
}

/// Whether any mantissa digit is not zero.
pub open spec fn has_nonzero_digit(dm: Seq<char>) -> bool
    decreases dm.len(),
{
    if dm.len() == 0 {
        false
    } else {
        dm[0] != '0' || has_nonzero_digit(dm.drop_first())
    }
}

/// The literal's value truncated toward zero: the mantissa digits read as
/// an integer once the decimal point, shifted by the exponent, has been
/// applied.
pub open spec fn float_trunc(t: Seq<char>) -> int {
    let dm = ft_mant(t);
    let pp = ft_int_digits(t).len() + ft_expval(t);
    let mag = if pp <= 0 {
        0int
    } else if pp >= dm.len() {
        crate::parser::digits_val(dm) * pow10(pp - dm.len())
    } else {
        crate::parser::digits_val(dm.take(pp))
    };
    if ft_neg(t) {
        -mag
    } else {
        mag
    }
}

/// Whether the literal denotes a value below zero.
pub open spec fn ft_value_negative(t: Seq<char>) -> bool {
    ft_neg(t) && has_nonzero_digit(ft_mant(t))
}

/// One more digit is nonzero when it is not `0`.
pub proof fn lemma_nonzero_push(dm: Seq<char>, c: char)
    ensures
        has_nonzero_digit(dm.push(c)) == (has_nonzero_digit(dm) || c != '0'),
    decreases dm.len(),
{
    assert(!has_nonzero_digit(Seq::<char>::empty()));
    if dm.len() == 0 {
        assert(dm.push(c).drop_first() =~= Seq::<char>::empty());
    } else {
        assert(dm.push(c).drop_first() =~= dm.drop_first().push(c));
        lemma_nonzero_push(dm.drop_first(), c);
    }
}

/// The value of a digit text is never negative.
pub proof fn lemma_digits_val_nonneg(dm: Seq<char>)
    requires
        forall|i: int| 0 <= i < dm.len() ==> crate::parser::is_digit(#[trigger] dm[i]),
    ensures
        crate::parser::digits_val(dm) >= 0,
    decreases dm.len(),
{
    if dm.len() > 0 {
        assert(forall|i: int|
            0 <= i < dm.drop_last().len() ==> crate::parser::is_digit(
                #[trigger] dm.drop_last()[i],
            ));
        lemma_digits_val_nonneg(dm.drop_last());
        assert(crate::parser::is_digit(dm.last()));
        assert(crate::parser::digits_val(dm) >= 0) by (nonlinear_arith)
            requires
                crate::parser::digits_val(dm) == crate::parser::digits_val(dm.drop_last()) * 10 + (
                dm.last() as u32 - 0x30),
                crate::parser::digits_val(dm.drop_last()) >= 0,
                dm.last() as u32 >= 0x30,
        ;
    }
}

/// A digit text without a nonzero digit has value zero; with one, at least
/// one.
pub proof fn lemma_digits_val_nonzero(dm: Seq<char>)
    requires
        forall|i: int| 0 <= i < dm.len() ==> crate::parser::is_digit(#[trigger] dm[i]),
    ensures
        has_nonzero_digit(dm) ==> crate::parser::digits_val(dm) >= 1,
        !has_nonzero_digit(dm) ==> crate::parser::digits_val(dm) == 0,
    decreases dm.len(),
{
    if dm.len() > 0 {
        let head = dm.drop_last();
        assert(forall|i: int|
            0 <= i < head.len() ==> crate::parser::is_digit(#[trigger] head[i]));
        lemma_digits_val_nonzero(head);
        lemma_digits_val_nonneg(head);
        assert(dm == head.push(dm.last())) by {
            assert(head.push(dm.last()) =~= dm);
        }
        lemma_nonzero_push(head, dm.last());
        let d = dm.last() as u32 - 0x30;
        if has_nonzero_digit(dm) {
            if has_nonzero_digit(head) {
                assert(crate::parser::digits_val(dm) >= 1) by (nonlinear_arith)
                    requires
                        crate::parser::digits_val(dm) == crate::parser::digits_val(head) * 10 + d,
                        crate::parser::digits_val(head) >= 1,
                        d >= 0,
                ;
            } else {
                assert(dm.last() != '0');
                assert(d >= 1) by {
                    if dm.last() as u32 == 0x30 {
                        vstd::utf8::char_u32_cast(dm.last(), 0x30);
                        assert('0' as u32 == 0x30);
                        vstd::utf8::char_u32_cast('0', 0x30);
                        assert(dm.last() == '0');
                    }
                }
            }
        } else {
            assert(dm.last() == '0');
        }
    }
}

/// A digit text has a nonzero digit exactly when some position holds one.
pub proof fn lemma_nonzero_iff(dm: Seq<char>)
    ensures
        has_nonzero_digit(dm) <==> exists|i: int| 0 <= i < dm.len() && dm[i] != '0',
    decreases dm.len(),
{
    if dm.len() > 0 {
        lemma_nonzero_iff(dm.drop_first());
        if has_nonzero_digit(dm) {
            if dm[0] != '0' {
                assert(dm[0] != '0' && 0 < dm.len());
            } else {
                let i = choose|i: int| 0 <= i < dm.drop_first().len() && dm.drop_first()[i] != '0';
                assert(dm[i + 1] == dm.drop_first()[i]);
            }
        } else {
            assert forall|i: int| 0 <= i < dm.len() implies dm[i] == '0' by {
                if i > 0 {
                    assert(dm.drop_first()[i - 1] == dm[i]);
                }
            }
        }
    }
}

/// A prefix of an all-zero digit text reads as zero.
pub proof fn lemma_all_zero_prefix(dm: Seq<char>, k: int)
    requires
        forall|i: int| 0 <= i < dm.len() ==> crate::parser::is_digit(#[trigger] dm[i]),
        !has_nonzero_digit(dm),
        0 <= k <= dm.len(),
    ensures
        crate::parser::digits_val(dm.take(k)) == 0,
    decreases k,
{
    lemma_nonzero_iff(dm);
    if k == 0 {
        assert(dm.take(0) =~= Seq::<char>::empty());
    } else {
        lemma_all_zero_prefix(dm, k - 1);
        assert(dm.take(k) =~= dm.take(k - 1).push(dm[k - 1]));
        crate::parser::lemma_digits_val_push(dm.take(k - 1), dm[k - 1]);
        assert(dm[k - 1] == '0');
    }
}

/// Reads the magnitude of the first `k` mantissa digits, flagging a value
/// beyond the unsigned 64-bit range.
#[verifier::loop_isolation(false)]
fn digits_prefix_val(dm: &Vec<char>, k: usize) -> (r: Option<u64>)
    requires
        k <= dm@.len(),
        forall|i: int| 0 <= i < dm@.len() ==> crate::parser::is_digit(#[trigger] dm@[i]),
    ensures
        match r {
            Some(v) => v as int == crate::parser::digits_val(dm@.take(k as int)),
            None => crate::parser::digits_val(dm@.take(k as int)) > u64::MAX,
        },
{
    let mut val: u128 = 0;
    let mut i: usize = 0;
    proof {
        assert(dm@.take(0) =~= Seq::<char>::empty());
    }
    while i < k
        invariant
            i <= k,
            val <= u64::MAX ==> val as int == crate::parser::digits_val(dm@.take(i as int)),
            val > u64::MAX ==> crate::parser::digits_val(dm@.take(i as int)) > u64::MAX,
            val <= 0xFFFF_FFFF_FFFF_FFFF_Fu128,
        decreases k - i,
    {
        let c = dm[i];
        let cu = c as u32;
        proof {
            assert(crate::parser::is_digit(dm@[i as int]));
            assert(dm@.take(i + 1) =~= dm@.take(i as int).push(c));
            crate::parser::lemma_digits_val_push(dm@.take(i as int), c);
            assert(forall|j: int|
                0 <= j < dm@.take(i as int).len() ==> crate::parser::is_digit(
                    #[trigger] dm@.take(i as int)[j],
                ));
            lemma_digits_val_nonneg(dm@.take(i as int));
        }
        if val <= u64::MAX as u128 {
            val = val * 10 + (cu - 0x30) as u128;
        }
        i = i + 1;
    }
    if val <= u64::MAX as u128 {
        Some(val as u64)
    } else {
        None
    }
}

/// Truncates a kept float literal toward zero: the sign it carries, the
/// magnitude of its truncation (absent when beyond the unsigned 64-bit
/// range), and whether the denoted value is below zero.
#[verifier::rlimit(100)]
fn trunc_float_text(t: &str) -> (r: Result<(bool, Option<u64>, bool), Error>)
    ensures
        match r {
            Ok((neg, mag_opt, negval)) => ft_shape_ok(t@) && neg == ft_neg(t@) && negval
                == ft_value_negative(t@) && (match mag_opt {
                Some(mag) => (if neg {
                    -(mag as int)
                } else {
                    mag as int
                }) == float_trunc(t@) && (!negval ==> mag as int == float_trunc(t@)),
                None => (if neg {
                    -float_trunc(t@)
                } else {
                    float_trunc(t@)
                }) > u64::MAX && (neg ==> negval),
            }),
            Err(e) => !ft_shape_ok(t@) && e@ == ErrModel::Custom(bad_float_text()),
        },
{
    let ghost tq = t@;
    let cs = crate::text::chars_of(t);
    let n = cs.len();
    // Sign.
    let neg = n > 0 && cs[0] == '-';
    let has_sign = n > 0 && (cs[0] == '-' || cs[0] == '+');
    let p1: usize = if has_sign {
        1
    } else {
        0
    };
    let mut pos = p1;
    let mut dm: Vec<char> = Vec::new();
    let mut nz = false;
    // Integer part.
    if pos < n && cs[pos] == '0' {
        proof {
            crate::parser::lemma_subrange_push(tq, p1 as int, p1 as int);
            assert(tq.subrange(p1 as int, p1 as int) =~= Seq::<char>::empty());
            assert(crate::parser::strip_uscores(Seq::<char>::empty()) == Seq::<char>::empty());
            crate::parser::lemma_strip_push(Seq::<char>::empty(), '0');
        }
        dm.push('0');
        pos = pos + 1;
        proof {
            assert(dm@ =~= crate::parser::strip_uscores(tq.subrange(p1 as int, pos as int)));
            assert(dm@ =~= seq!['0']);
            assert(dm@[0] == '0');
            assert(dm@.drop_first() =~= Seq::<char>::empty());
            assert(!has_nonzero_digit(Seq::<char>::empty()));
            assert(!has_nonzero_digit(dm@));
            assert(crate::parser::is_digit('0'));
        }
    } else {
        loop
            invariant
                cs@ == tq,
                n == tq.len(),
                p1 <= pos <= n,
                crate::parser::scan_digits(tq, p1 as int) == crate::parser::scan_digits(
                    tq,
                    pos as int,
                ),
                dm@ == crate::parser::strip_uscores(tq.subrange(p1 as int, pos as int)),
                nz == has_nonzero_digit(dm@),
                forall|i: int| 0 <= i < dm@.len() ==> crate::parser::is_digit(#[trigger] dm@[i]),
            ensures
                p1 <= pos <= n,
                pos == crate::parser::scan_digits(tq, p1 as int),
                dm@ == crate::parser::strip_uscores(tq.subrange(p1 as int, pos as int)),
                nz == has_nonzero_digit(dm@),
                forall|i: int| 0 <= i < dm@.len() ==> crate::parser::is_digit(#[trigger] dm@[i]),
            decreases n - pos,
        {
            if pos >= n {
                break ;
            }
            let c = cs[pos];
            let cu = c as u32;
            let dig = 0x30 <= cu && cu <= 0x39;
            if !dig && c != '_' {
                break ;
            }
            proof {
                crate::parser::lemma_subrange_push(tq, p1 as int, pos as int);
                crate::parser::lemma_strip_push(tq.subrange(p1 as int, pos as int), c);
                if dig {
                    lemma_nonzero_push(dm@, c);
                }
            }
            if dig {
                dm.push(c);
                nz = nz || c != '0';
            }
            pos = pos + 1;
        }
    }
    let ghost sp2 = pos as int;
    proof {
        assert(sp2 == ftp2(tq));
    }
    let intlen = dm.len();
    // Fraction.
    let frac = pos < n && cs[pos] == '.';
    if frac {
        pos = pos + 1;
        let ghost f0 = pos as int;
        loop
            invariant
                cs@ == tq,
                n == tq.len(),
                0 <= f0 <= pos <= n,
                f0 == sp2 + 1,
                crate::parser::scan_digits(tq, f0) == crate::parser::scan_digits(tq, pos as int),
                dm@ == crate::parser::strip_uscores(tq.subrange(p1 as int, sp2))
                    + crate::parser::strip_uscores(tq.subrange(f0, pos as int)),
                nz == has_nonzero_digit(dm@),
                forall|i: int| 0 <= i < dm@.len() ==> crate::parser::is_digit(#[trigger] dm@[i]),
            ensures
                0 <= f0 <= pos <= n,
                pos == crate::parser::scan_digits(tq, f0),
                dm@ == crate::parser::strip_uscores(tq.subrange(p1 as int, sp2))
                    + crate::parser::strip_uscores(tq.subrange(f0, pos as int)),
                nz == has_nonzero_digit(dm@),
                forall|i: int| 0 <= i < dm@.len() ==> crate::parser::is_digit(#[trigger] dm@[i]),
            decreases n - pos,
        {
            if pos >= n {
                break ;
            }
            let c = cs[pos];
            let cu = c as u32;
            let dig = 0x30 <= cu && cu <= 0x39;
            if !dig && c != '_' {
                break ;
            }
            proof {
                crate::parser::lemma_subrange_push(tq, f0, pos as int);
                crate::parser::lemma_strip_push(tq.subrange(f0, pos as int), c);
                if dig {
                    lemma_nonzero_push(dm@, c);
                }
            }
            if dig {
                dm.push(c);
                nz = nz || c != '0';
            }
            pos = pos + 1;
        }
        proof {
            assert(tq.subrange(f0, f0) =~= Seq::<char>::empty());
            assert(crate::parser::strip_uscores(Seq::<char>::empty()) == Seq::<char>::empty());
        }
    }
    let ghost sp3 = pos as int;
    proof {
        assert(sp3 == ftp3(tq));
        assert(dm@ == ft_mant(tq)) by {
            if !ft_frac(tq) {
                assert(dm@ =~= ft_mant(tq));
            }
        }
    }
    // Exponent.
    let exp = pos < n && (cs[pos] == 'e' || cs[pos] == 'E');
    let mut expneg = false;
    let mut expval: u128 = 0;
    let mut e0x: usize = pos;
    if exp {
        pos = pos + 1;
        if pos < n && (cs[pos] == '+' || cs[pos] == '-') {
            expneg = cs[pos] == '-';
            pos = pos + 1;
        }
        e0x = pos;
        let ghost e0 = pos as int;
        loop
            invariant
                cs@ == tq,
                n == tq.len(),
                0 <= e0 <= pos <= n,
                e0 == e0x as int,
                crate::parser::scan_digits(tq, e0) == crate::parser::scan_digits(tq, pos as int),
                expval <= 0x10_0000_0000_0000_0000_0000_0000u128 ==> expval as int
                    == crate::parser::digits_val(
                    crate::parser::strip_uscores(tq.subrange(e0, pos as int)),
                ),
                expval > 0x10_0000_0000_0000_0000_0000_0000u128 ==> crate::parser::digits_val(
                    crate::parser::strip_uscores(tq.subrange(e0, pos as int)),
                ) > 0x10_0000_0000_0000_0000_0000_0000u128,
                crate::parser::digits_val(
                    crate::parser::strip_uscores(tq.subrange(e0, pos as int)),
                ) >= 0,
                expval <= 0xA0_0000_0000_0000_0000_0000_000Au128,
            ensures
                0 <= e0 <= pos <= n,
                pos == crate::parser::scan_digits(tq, e0),
                expval <= 0x10_0000_0000_0000_0000_0000_0000u128 ==> expval as int
                    == crate::parser::digits_val(
                    crate::parser::strip_uscores(tq.subrange(e0, pos as int)),
                ),
                expval > 0x10_0000_0000_0000_0000_0000_0000u128 ==> crate::parser::digits_val(
                    crate::parser::strip_uscores(tq.subrange(e0, pos as int)),
                ) > 0x10_0000_0000_0000_0000_0000_0000u128,
                crate::parser::digits_val(
                    crate::parser::strip_uscores(tq.subrange(e0, pos as int)),
                ) >= 0,
            decreases n - pos,
        {
            if pos >= n {
                break ;
            }
            let c = cs[pos];
            let cu = c as u32;
            let dig = 0x30 <= cu && cu <= 0x39;
            if !dig && c != '_' {
                break ;
            }
            proof {
                crate::parser::lemma_subrange_push(tq, e0, pos as int);
                crate::parser::lemma_strip_push(tq.subrange(e0, pos as int), c);
                if dig {
                    crate::parser::lemma_digits_val_push(
                        crate::parser::strip_uscores(tq.subrange(e0, pos as int)),
                        c,
                    );
                }
            }
            if dig {
                if expval <= 0x10_0000_0000_0000_0000_0000_0000u128 {
                    expval = expval * 10 + (cu - 0x30) as u128;
                }
            }
            pos = pos + 1;
        }
    }
    let ghost sp4 = pos as int;
    proof {
        assert(sp4 == ftp4(tq));
        assert(exp == ft_exp(tq));
        if exp {
            assert(e0x as int == ftpe(tq));
            assert(expneg == (ftpe(tq) == ftp3(tq) + 2 && tq[ftp3(tq) + 1] == '-'));
        }
    }
    // Shape.
    if !(pos == n && dm.len() > 0 && (!exp || pos > e0x)) {
        return Err(Error::Custom("invalid float literal".to_owned()));
    }
    proof {
        assert(ft_shape_ok(tq));
        lemma_digits_val_nonzero(dm@);
    }
    let negval = neg && nz;
    let dmlen = dm.len();
    // The point position, and the magnitude of the truncation.
    if expneg {
        if expval >= intlen as u128 {
            // The point moves at or before the first digit: zero.
            proof {
                assert(ft_int_digits(tq).len() == intlen as int);
                assert(ft_int_digits(tq).len() + ft_expval(tq) <= 0);
            }
            return Ok((neg, Some(0), negval));
        }
        let pp = intlen - (expval as usize);
        proof {
            assert(pp as int == ft_int_digits(tq).len() + ft_expval(tq));
            assert(pp as int <= dm@.len());
        }
        match digits_prefix_val(&dm, pp) {
            Some(v) => {
                proof {
                    if pp as int == dm@.len() {
                        assert(dm@.take(pp as int) =~= dm@);
                        assert(pow10(0) == 1);
                        assert(crate::parser::digits_val(dm@) * pow10(0) == crate::parser::digits_val(
                            dm@,
                        )) by (nonlinear_arith)
                            requires
                                pow10(0) == 1,
                        ;
                    }
                    if neg && !nz {
                        lemma_all_zero_prefix(dm@, pp as int);
                    }
                }
                Ok((neg, Some(v), negval))
            },
            None => {
                proof {
                    if pp as int == dm@.len() {
                        assert(dm@.take(pp as int) =~= dm@);
                        assert(crate::parser::digits_val(dm@) * pow10(0) == crate::parser::digits_val(
                            dm@,
                        )) by (nonlinear_arith)
                            requires
                                pow10(0) == 1,
                        ;
                    }
                    if neg && !nz {
                        lemma_all_zero_prefix(dm@, pp as int);
                    }
                }
                Ok((neg, None, negval))
            },
        }
    } else {
        // The point moves right: the whole mantissa, then trailing zeros.
        let ghost ppg = ft_int_digits(tq).len() + ft_expval(tq);
        proof {
            assert(ft_int_digits(tq).len() == intlen as int);
            assert(intlen <= dmlen);
        }
        let cap_hit = expval > 0x10_0000_0000_0000_0000_0000_0000u128;
        if cap_hit {
            // The shift alone is enormous.
            proof {
                assert(ppg > dmlen as int + 20);
            }
            return Ok(zero_or_overflow(&dm, neg, nz, negval, Ghost(tq), Ghost(ppg)));
        }
        proof {
            assert(ppg == intlen as int + expval);
        }
        let pp = intlen as u128 + expval;
        if pp <= dmlen as u128 {
            let ppu = pp as usize;
            proof {
                assert(ppg == pp as int);
            }
            match digits_prefix_val(&dm, ppu) {
                Some(v) => {
                    proof {
                        if ppu as int == dm@.len() {
                            assert(dm@.take(ppu as int) =~= dm@);
                            assert(crate::parser::digits_val(dm@) * pow10(0)
                                == crate::parser::digits_val(dm@)) by (nonlinear_arith)
                                requires
                                    pow10(0) == 1,
                            ;
                        }
                        if neg && !nz {
                            lemma_all_zero_prefix(dm@, ppu as int);
                        }
                    }
                    Ok((neg, Some(v), negval))
                },
                None => {
                    proof {
                        if ppu as int == dm@.len() {
                            assert(dm@.take(ppu as int) =~= dm@);
                            assert(crate::parser::digits_val(dm@) * pow10(0)
                                == crate::parser::digits_val(dm@)) by (nonlinear_arith)
                                requires
                                    pow10(0) == 1,
                            ;
                        }
                        if neg && !nz {
                            lemma_all_zero_prefix(dm@, ppu as int);
                        }
                    }
                    Ok((neg, None, negval))
                },
            }
        } else {
            let diff128 = pp - dmlen as u128;
            proof {
                assert(ppg == pp as int);
            }
            if diff128 >= 20 {
                proof {
                    assert(ppg - dmlen as int >= 20);
                }
                return Ok(zero_or_overflow(&dm, neg, nz, negval, Ghost(tq), Ghost(ppg)));
            }
            // The whole mantissa, shifted left by a small count of zeros.
            let diff = diff128 as u64;
            let base = match digits_prefix_val(&dm, dmlen) {
                Some(v) => v,
                None => {
                    proof {
                        assert(dm@.take(dmlen as int) =~= dm@);
                        lemma_pow10_pos(ppg - dmlen as int);
                        lemma_digits_val_nonneg(dm@);
                        assert(crate::parser::digits_val(dm@) * pow10(ppg - dmlen as int)
                            >= crate::parser::digits_val(dm@)) by (nonlinear_arith)
                            requires
                                crate::parser::digits_val(dm@) >= 0,
                                pow10(ppg - dmlen as int) >= 1,
                        ;
                    }
                    return Ok((neg, None, negval));
                },
            };
            proof {
                assert(dm@.take(dmlen as int) =~= dm@);
            }
            let mut val: u128 = base as u128;
            let mut j: u64 = 0;
            while j < diff
                invariant
                    j <= diff,
                    forall|i: int|
                        0 <= i < dm@.len() ==> crate::parser::is_digit(#[trigger] dm@[i]),
                    val <= u64::MAX ==> val as int == crate::parser::digits_val(dm@) * pow10(
                        j as int,
                    ),
                    val > u64::MAX ==> crate::parser::digits_val(dm@) * pow10(j as int)
                        > u64::MAX,
                    val <= 0xFFFF_FFFF_FFFF_FFFF_Fu128,
                    crate::parser::digits_val(dm@) * pow10(j as int) >= 0,
                decreases diff - j,
            {
                proof {
                    lemma_pow10_pos(j as int);
                    lemma_digits_val_nonneg(dm@);
                    assert(crate::parser::digits_val(dm@) * pow10(j + 1)
                        == (crate::parser::digits_val(dm@) * pow10(j as int)) * 10)
                        by (nonlinear_arith)
                        requires
                            pow10(j + 1) == 10 * pow10(j as int),
                    ;
                    assert((crate::parser::digits_val(dm@) * pow10(j as int)) * 10 >= 0)
                        by (nonlinear_arith)
                        requires
                            crate::parser::digits_val(dm@) * pow10(j as int) >= 0,
                    ;
                }
                if val <= u64::MAX as u128 {
                    val = val * 10;
                }
                j = j + 1;
            }
            if val <= u64::MAX as u128 {
                proof {
                    if neg && !nz {
                        assert(crate::parser::digits_val(dm@) == 0);
                        assert(crate::parser::digits_val(dm@) * pow10(diff as int) == 0)
                            by (nonlinear_arith)
                            requires
                                crate::parser::digits_val(dm@) == 0,
                        ;
                    }
                }
                Ok((neg, Some(val as u64), negval))
            } else {
                proof {
                    if neg && !nz {
                        assert(crate::parser::digits_val(dm@) == 0);
                        assert(crate::parser::digits_val(dm@) * pow10(diff as int) == 0)
                            by (nonlinear_arith)
                            requires
                                crate::parser::digits_val(dm@) == 0,
                        ;
                    }
                }
                Ok((neg, None, negval))
            }
        }
    }
}

/// For an enormous rightward shift: zero when every mantissa digit is zero,
/// a magnitude beyond the unsigned range otherwise.
fn zero_or_overflow(
    dm: &Vec<char>,
    neg: bool,
    nz: bool,
    negval: bool,
    Ghost(tq): Ghost<Seq<char>>,
    Ghost(ppg): Ghost<int>,
) -> (r: (bool, Option<u64>, bool))
    requires
        forall|i: int| 0 <= i < dm@.len() ==> crate::parser::is_digit(#[trigger] dm@[i]),
        nz == has_nonzero_digit(dm@),
        negval == (neg && nz),
        ppg > dm@.len() + 19,
    ensures
        r.0 == neg && r.2 == negval && (match r.1 {
            Some(mag) => mag == 0 && crate::parser::digits_val(dm@) * pow10(ppg - dm@.len())
                == 0,
            None => crate::parser::digits_val(dm@) * pow10(ppg - dm@.len()) > u64::MAX && (
            neg ==> negval),
        }),
{
    if nz {
        proof {
            lemma_pow10_big(ppg - dm@.len());
            lemma_digits_val_nonzero(dm@);
            assert(crate::parser::digits_val(dm@) * pow10(ppg - dm@.len()) > u64::MAX)
                by (nonlinear_arith)
                requires
                    crate::parser::digits_val(dm@) >= 1,
                    pow10(ppg - dm@.len()) > u64::MAX,
            ;
        }
        (neg, None, negval)
    } else {
        proof {
            lemma_digits_val_nonzero(dm@);
            assert(crate::parser::digits_val(dm@) * pow10(ppg - dm@.len()) == 0)
                by (nonlinear_arith)
                requires
                    crate::parser::digits_val(dm@) == 0,
            ;
        }
        (neg, Some(0), negval)
    }
}

/// A signed 64-bit reading of a numeric value: `Int` as itself, `Uint` when
/// it fits, a float literal truncated toward zero when its truncation fits.
/// A special literal or a non-number is refused.
pub fn num_to_i64(v: &Value) -> (r: Result<i64, Error>)
    ensures
        match r {
            Ok(i) => match v@ {
                ValModel::Number(NumModel::Int(n)) => i as int == n,
                ValModel::Number(NumModel::Uint(u)) => u <= i64::MAX && i as int == u,
                ValModel::Number(NumModel::Float(t)) => ft_shape_ok(t) && i as int == float_trunc(
                    t,
                ),
                _ => false,
            },
            Err(e) => (match v@ {
                ValModel::Number(NumModel::Int(_)) => false,
                ValModel::Number(NumModel::Uint(u)) => u > i64::MAX && e@ == ErrModel::Custom(
                    overflow_text(),
                ),
                ValModel::Number(NumModel::Float(t)) => (!ft_shape_ok(t) && e@
                    == ErrModel::Custom(bad_float_text())) || (ft_shape_ok(t) && !(i64::MIN
                    <= float_trunc(t) <= i64::MAX) && e@ == ErrModel::Custom(overflow_text())),
                ValModel::Number(_) => e@ == ErrModel::TypeMismatch("integer"@, kind_text(v@)),
                _ => e@ == ErrModel::TypeMismatch("integer"@, kind_text(v@)),
            }),
        },
{
    match v {
        Value::Number(Number::Int(i)) => Ok(*i),
        Value::Number(Number::Uint(u)) => {
            if *u <= i64::MAX as u64 {
                Ok(*u as i64)
            } else {
                Err(Error::Custom("integer overflow".to_owned()))
            }
        },
        Value::Number(Number::Float(t)) => {
            match trunc_float_text(t.as_str()) {
                Err(e) => Err(e),
                Ok((_, None, _)) => Err(Error::Custom("integer overflow".to_owned())),
                Ok((neg, Some(mag), _)) => {
                    if neg {
                        if mag > 0x8000_0000_0000_0000u64 {
                            Err(Error::Custom("integer overflow".to_owned()))
                        } else if mag == 0x8000_0000_0000_0000u64 {
                            Ok(i64::MIN)
                        } else {
                            Ok(-(mag as i64))
                        }
                    } else {
                        if mag > i64::MAX as u64 {
                            Err(Error::Custom("integer overflow".to_owned()))
                        } else {
                            Ok(mag as i64)
                        }
                    }
                },
            }
        },
        _ => Err(Error::TypeMismatch { expected: "integer", got: v.kind_name() }),
    }
}

/// An unsigned 64-bit reading of a numeric value: `Uint` as itself, a
/// non-negative `Int`, a non-negative float literal truncated toward zero.
/// A value below zero is a shape mismatch, as for any non-unsigned value.
pub fn num_to_u64(v: &Value) -> (r: Result<u64, Error>)
    ensures
        match r {
            Ok(u) => match v@ {
                ValModel::Number(NumModel::Uint(n)) => u as int == n,
                ValModel::Number(NumModel::Int(i)) => i >= 0 && u as int == i,
                ValModel::Number(NumModel::Float(t)) => ft_shape_ok(t) && !ft_value_negative(t)
                    && u as int == float_trunc(t),
                _ => false,
            },
            Err(e) => (match v@ {
                ValModel::Number(NumModel::Uint(_)) => false,
                ValModel::Number(NumModel::Int(i)) => i < 0 && e@ == ErrModel::TypeMismatch(
                    "unsigned int"@,
                    kind_text(v@),
                ),
                ValModel::Number(NumModel::Float(t)) => (!ft_shape_ok(t) && e@
                    == ErrModel::Custom(bad_float_text())) || (ft_shape_ok(t)
                    && ft_value_negative(t) && e@ == ErrModel::TypeMismatch(
                    "unsigned int"@,
                    kind_text(v@),
                )) || (ft_shape_ok(t) && !ft_value_negative(t) && float_trunc(t) > u64::MAX && e@
                    == ErrModel::Custom(overflow_text())),
                ValModel::Number(_) => e@ == ErrModel::TypeMismatch(
                    "unsigned int"@,
                    kind_text(v@),
                ),
                _ => e@ == ErrModel::TypeMismatch("unsigned int"@, kind_text(v@)),
            }),
        },
{
    match v {
        Value::Number(Number::Uint(u)) => Ok(*u),
        Value::Number(Number::Int(i)) => {
            if *i >= 0 {
                Ok(*i as u64)
            } else {
                Err(Error::TypeMismatch { expected: "unsigned int", got: v.kind_name() })
            }
        },
        Value::Number(Number::Float(t)) => {
            match trunc_float_text(t.as_str()) {
                Err(e) => Err(e),
                Ok((_, mag_opt, negval)) => {
                    if negval {
                        Err(Error::TypeMismatch { expected: "unsigned int", got: v.kind_name() })
                    } else {
                        match mag_opt {
                            Some(mag) => Ok(mag),
                            None => Err(Error::Custom("integer overflow".to_owned())),
                        }
                    }
                },
            }
        },
        _ => Err(Error::TypeMismatch { expected: "unsigned int", got: v.kind_name() }),
    }
}

impl Value {
    /// The boolean this value holds, or a mismatch.
    pub fn as_bool(&self) -> (r: Result<bool, Error>)
        ensures
            match r {
                Ok(b) => self@ == ValModel::Bool(b),
                Err(e) => !(self@ is Bool) && e@ == ErrModel::TypeMismatch(
                    "bool"@,
                    kind_text(self@),
                ),
            },
    {
        match self {
            Value::Bool(b) => Ok(*b),
            _ => Err(Error::TypeMismatch { expected: "bool", got: self.kind_name() }),
        }
    }

    /// The text this value holds, or a mismatch.
    pub fn as_str(&self) -> (r: Result<&String, Error>)
        ensures
            match r {
                Ok(s) => self@ == ValModel::Str(s@),
                Err(e) => !(self@ is Str) && e@ == ErrModel::TypeMismatch(
                    "str"@,
                    kind_text(self@),
                ),
            },
    {
        match self {
            Value::String(s) => Ok(s),
            _ => Err(Error::TypeMismatch { expected: "str", got: self.kind_name() }),
        }
    }

    /// The elements this array holds, or a mismatch.
    pub fn as_array(&self) -> (r: Result<&Vec<Value>, Error>)
        ensures
            match r {
                Ok(a) => self@ == ValModel::Arr(crate::value::arr_view(a@)),
                Err(e) => !(self@ is Arr) && e@ == ErrModel::TypeMismatch(
                    "array"@,
                    kind_text(self@),
                ),
            },
    {
        match self {
            Value::Array(a) => Ok(a),
            _ => Err(Error::TypeMismatch { expected: "array", got: self.kind_name() }),
        }
    }

    /// The entries this object holds, or a mismatch.
    pub fn as_object(&self) -> (r: Result<&ObjectMap, Error>)
        ensures
            match r {
                Ok(m) => self@ == ValModel::Obj(m.view()),
                Err(e) => !(self@ is Obj) && e@ == ErrModel::TypeMismatch(
                    "object"@,
                    kind_text(self@),
                ),
            },
    {
        match self {
            Value::Object(m) => Ok(m),
            _ => Err(Error::TypeMismatch { expected: "object", got: self.kind_name() }),
        }
    }

    /// Whether this value is `null`; an optional decode reads `null` as
    /// absent and anything else as present.
    pub fn is_null(&self) -> (r: bool)
        ensures
            r == (self@ is Null),
    {
        match self {
            Value::Null => true,
            _ => false,
        }
    }

    /// The variant a tagged-union value selects: a bare string names a
    /// variant without payload; an object with exactly one key names a
    /// variant and carries its payload.
    pub fn variant_parts(&self) -> (r: Result<(&String, Option<&Value>), Error>)
        ensures
            match r {
                Ok((name, payload)) => match payload {
                    None => self@ == ValModel::Str(name@),
                    Some(p) => self@ == ValModel::Obj(seq![(name@, p@)]),
                },
                Err(e) => !(self@ is Str) && (match self@ {
                    ValModel::Obj(entries) => entries.len() != 1 && e@ == ErrModel::Custom(
                        "enum object must have exactly one key"@,
                    ),
                    _ => e@ == ErrModel::TypeMismatch("enum"@, kind_text(self@)),
                }),
            },
    {
        match self {
            Value::String(s) => Ok((s, None)),
            Value::Object(m) => {
                if m.len() != 1 {
                    Err(Error::Custom("enum object must have exactly one key".to_owned()))
                } else {
                    let entry = m.entry_at(0);
                    proof {
                        assert(m.view() =~= seq![(entry.0@, entry.1@)]);
                    }
                    Ok((&entry.0, Some(&entry.1)))
                }
            },
            _ => Err(Error::TypeMismatch { expected: "enum", got: self.kind_name() }),
        }
    }
}

/// The textual reading of a scalar value: a string as itself, a number,
/// boolean or null as its literal text; arrays and objects are refused.
pub fn decode_string(v: &Value) -> (r: Result<String, Error>)
    ensures
        match r {
            Ok(t) => match v@ {
                ValModel::Str(s) => t@ == s,
                ValModel::Number(m) => t@ == crate::ser::emit_num(m),
                ValModel::Bool(b) => t@ == if b {
                    crate::parser::lit_true()
                } else {
                    crate::parser::lit_false()
                },
                ValModel::Null => t@ == crate::parser::lit_null(),
                _ => false,
            },
            Err(e) => (self_is_composite(v@)) && e@ == ErrModel::TypeMismatch(
                "string"@,
                kind_text(v@),
            ),
        },
{
    match v {
        Value::String(s) => Ok(s.clone()),
        Value::Number(m) => {
            let mut out: Vec<char> = Vec::new();
            let f = crate::ser::CompactFormatter::new(false, None);
            f.write_number(&mut out, m);
            Ok(crate::text::string_from_chars(&out))
        },
        Value::Bool(b) => {
            let mut out: Vec<char> = Vec::new();
            let f = crate::ser::CompactFormatter::new(false, None);
            f.write_bool(&mut out, *b);
            Ok(crate::text::string_from_chars(&out))
        },
        Value::Null => {
            let mut out: Vec<char> = Vec::new();
            let f = crate::ser::CompactFormatter::new(false, None);
            f.write_null(&mut out);
            Ok(crate::text::string_from_chars(&out))
        },
        _ => Err(Error::TypeMismatch { expected: "string", got: v.kind_name() }),
    }
}

/// Whether a value is an array or an object.
pub open spec fn self_is_composite(v: ValModel) -> bool {
    v is Arr || v is Obj
}

/// The UTF-8 bytes of a string value.
pub fn decode_bytes(v: &Value) -> (r: Result<Vec<u8>, Error>)
    ensures
        match r {
            Ok(b) => v@ matches ValModel::Str(t) && b@ == vstd::utf8::encode_utf8(t),
            Err(e) => !(v@ is Str) && e@ == ErrModel::TypeMismatch("bytes"@, kind_text(v@)),
        },
{
    match v {
        Value::String(s) => Ok(vstd::slice::slice_to_vec(s.as_str().as_bytes())),
        _ => Err(Error::TypeMismatch { expected: "bytes", got: v.kind_name() }),
    }
}

/// The single character of a one-character string.
pub fn decode_char(v: &Value) -> (r: Result<char, Error>)
    ensures
        match r {
            Ok(c) => v@ == ValModel::Str(seq![c]),
            Err(e) => match v@ {
                ValModel::Str(s) => s.len() != 1 && e@ == ErrModel::Custom(
                    "expected single char"@,
                ),
                _ => e@ == ErrModel::TypeMismatch("char"@, kind_text(v@)),
            },
        },
{
    match v {
        Value::String(s) => {
            if s.as_str().unicode_len() == 1 {
                let c = s.as_str().get_char(0);
                proof {
                    assert(s@ =~= seq![c]);
                }
                Ok(c)
            } else {
                Err(Error::Custom("expected single char".to_owned()))
            }
        },
        _ => Err(Error::TypeMismatch { expected: "char", got: v.kind_name() }),
    }
}

/// The value a signed reading yields: an `Int` as itself, a `Uint` within
/// range, a float literal's truncation.
pub open spec fn signed_reading(v: ValModel, i: int) -> bool {
    match v {
        ValModel::Number(NumModel::Int(n)) => i == n,
        ValModel::Number(NumModel::Uint(u)) => u <= i64::MAX && i == u,
        ValModel::Number(NumModel::Float(t)) => ft_shape_ok(t) && i == float_trunc(t),
        _ => false,
    }
}

/// The failure a signed reading into the range `lo..=hi` raises.
pub open spec fn signed_reading_err(v: ValModel, e: ErrModel, lo: int, hi: int) -> bool {
    match v {
        ValModel::Number(NumModel::Int(n)) => !(lo <= n <= hi) && e == ErrModel::Custom(
            overflow_text(),
        ),
        ValModel::Number(NumModel::Uint(u)) => u > hi && e == ErrModel::Custom(overflow_text()),
        ValModel::Number(NumModel::Float(t)) => (!ft_shape_ok(t) && e == ErrModel::Custom(
            bad_float_text(),
        )) || (ft_shape_ok(t) && !(lo <= float_trunc(t) <= hi) && e == ErrModel::Custom(
            overflow_text(),
        )),
        ValModel::Number(_) => e == ErrModel::TypeMismatch("integer"@, kind_text(v)),
        _ => e == ErrModel::TypeMismatch("integer"@, kind_text(v)),
    }
}

/// The value an unsigned reading yields.
pub open spec fn unsigned_reading(v: ValModel, u: int) -> bool {
    match v {
        ValModel::Number(NumModel::Uint(n)) => u == n,
        ValModel::Number(NumModel::Int(i)) => i >= 0 && u == i,
        ValModel::Number(NumModel::Float(t)) => ft_shape_ok(t) && !ft_value_negative(t) && u
            == float_trunc(t),
        _ => false,
    }
}

/// The failure an unsigned reading up to `hi` raises: a value below zero is
/// a shape mismatch, a value beyond `hi` an overflow.
pub open spec fn unsigned_reading_err(v: ValModel, e: ErrModel, hi: int) -> bool {
    match v {
        ValModel::Number(NumModel::Uint(n)) => n > hi && e == ErrModel::Custom(overflow_text()),
        ValModel::Number(NumModel::Int(i)) => (i < 0 && e == ErrModel::TypeMismatch(
            "unsigned int"@,
            kind_text(v),
        )) || (i > hi && e == ErrModel::Custom(overflow_text())),
        ValModel::Number(NumModel::Float(t)) => (!ft_shape_ok(t) && e == ErrModel::Custom(
            bad_float_text(),
        )) || (ft_shape_ok(t) && ft_value_negative(t) && e == ErrModel::TypeMismatch(
            "unsigned int"@,
            kind_text(v),
        )) || (ft_shape_ok(t) && !ft_value_negative(t) && float_trunc(t) > hi && e
            == ErrModel::Custom(overflow_text())),
        ValModel::Number(_) => e == ErrModel::TypeMismatch("unsigned int"@, kind_text(v)),
        _ => e == ErrModel::TypeMismatch("unsigned int"@, kind_text(v)),
    }
}

impl FromValue for bool {
    fn from_value(v: &Value) -> (r: Result<bool, Error>)
        ensures
            match r {
                Ok(b) => v@ == ValModel::Bool(b),
                Err(e) => !(v@ is Bool) && e@ == ErrModel::TypeMismatch("bool"@, kind_text(v@)),
            },
    {
        v.as_bool()
    }
}

impl FromValue for i64 {
    fn from_value(v: &Value) -> (r: Result<i64, Error>)
        ensures
            match r {
                Ok(i) => signed_reading(v@, i as int),
                Err(e) => signed_reading_err(v@, e@, i64::MIN as int, i64::MAX as int),
            },
    {
        num_to_i64(v)
    }
}

impl FromValue for i32 {
    fn from_value(v: &Value) -> (r: Result<i32, Error>)
        ensures
            match r {
                Ok(i) => signed_reading(v@, i as int),
                Err(e) => signed_reading_err(v@, e@, i32::MIN as int, i32::MAX as int),
            },
    {
        match num_to_i64(v) {
            Ok(i) => {
                if i >= i32::MIN as i64 && i <= i32::MAX as i64 {
                    Ok(i as i32)
                } else {
                    Err(Error::Custom("integer overflow".to_owned()))
                }
            },
            Err(e) => Err(e),
        }
    }
}

impl FromValue for i16 {
    fn from_value(v: &Value) -> (r: Result<i16, Error>)
        ensures
            match r {
                Ok(i) => signed_reading(v@, i as int),
                Err(e) => signed_reading_err(v@, e@, i16::MIN as int, i16::MAX as int),
            },
    {
        match num_to_i64(v) {
            Ok(i) => {
                if i >= i16::MIN as i64 && i <= i16::MAX as i64 {
                    Ok(i as i16)
                } else {
                    Err(Error::Custom("integer overflow".to_owned()))
                }
            },
            Err(e) => Err(e),
        }
    }
}

impl FromValue for i8 {
    fn from_value(v: &Value) -> (r: Result<i8, Error>)
        ensures
            match r {
                Ok(i) => signed_reading(v@, i as int),
                Err(e) => signed_reading_err(v@, e@, i8::MIN as int, i8::MAX as int),
            },
    {
        match num_to_i64(v) {
            Ok(i) => {
                if i >= i8::MIN as i64 && i <= i8::MAX as i64 {
                    Ok(i as i8)
                } else {
                    Err(Error::Custom("integer overflow".to_owned()))
                }
            },
            Err(e) => Err(e),
        }
    }
}

impl FromValue for u64 {
    fn from_value(v: &Value) -> (r: Result<u64, Error>)
        ensures
            match r {
                Ok(u) => unsigned_reading(v@, u as int),
                Err(e) => unsigned_reading_err(v@, e@, u64::MAX as int),
            },
    {
        num_to_u64(v)
    }
}

impl FromValue for u32 {
    fn from_value(v: &Value) -> (r: Result<u32, Error>)
        ensures
            match r {
                Ok(u) => unsigned_reading(v@, u as int),
                Err(e) => unsigned_reading_err(v@, e@, u32::MAX as int),
            },
    {
        match num_to_u64(v) {
            Ok(u) => {
                if u <= u32::MAX as u64 {
                    Ok(u as u32)
                } else {
                    Err(Error::Custom("integer overflow".to_owned()))
                }
            },
            Err(e) => Err(e),
        }
    }
}

impl FromValue for u16 {
    fn from_value(v: &Value) -> (r: Result<u16, Error>)
        ensures
            match r {
                Ok(u) => unsigned_reading(v@, u as int),
                Err(e) => unsigned_reading_err(v@, e@, u16::MAX as int),
            },
    {
        match num_to_u64(v) {
            Ok(u) => {
                if u <= u16::MAX as u64 {
                    Ok(u as u16)
                } else {
                    Err(Error::Custom("integer overflow".to_owned()))
                }
            },
            Err(e) => Err(e),
        }
    }
}

impl FromValue for u8 {
    fn from_value(v: &Value) -> (r: Result<u8, Error>)
        ensures
            match r {
                Ok(u) => unsigned_reading(v@, u as int),
                Err(e) => unsigned_reading_err(v@, e@, u8::MAX as int),
            },
    {
        match num_to_u64(v) {
            Ok(u) => {
                if u <= u8::MAX as u64 {
                    Ok(u as u8)
                } else {
                    Err(Error::Custom("integer overflow".to_owned()))
                }
            },
            Err(e) => Err(e),
        }
    }
}

impl FromValue for String {
    fn from_value(v: &Value) -> (r: Result<String, Error>)
        ensures
            match r {
                Ok(t) => match v@ {
                    ValModel::Str(u) => t@ == u,
                    ValModel::Number(m) => t@ == crate::ser::emit_num(m),
                    ValModel::Bool(b) => t@ == (if b {
                        crate::parser::lit_true()
                    } else {
                        crate::parser::lit_false()
                    }),
                    ValModel::Null => t@ == crate::parser::lit_null(),
                    _ => false,
                },
                Err(e) => self_is_composite(v@) && e@ == ErrModel::TypeMismatch(
                    "string"@,
                    kind_text(v@),
                ),
            },
    {
        decode_string(v)
    }
}

impl FromValue for char {
    fn from_value(v: &Value) -> (r: Result<char, Error>)
        ensures
            match r {
                Ok(c) => v@ == ValModel::Str(seq![c]),
                Err(e) => match v@ {
                    ValModel::Str(u) => u.len() != 1 && e@ == ErrModel::Custom(
                        "expected single char"@,
                    ),
                    _ => e@ == ErrModel::TypeMismatch("char"@, kind_text(v@)),
                },
            },
    {
        decode_char(v)
    }
}

impl<T: FromValue> FromValue for Option<T> {
    fn from_value(v: &Value) -> (r: Result<Option<T>, Error>)
        ensures
            r matches Ok(o) ==> ((o is None) <==> (v@ is Null)),
    {
        if v.is_null() {
            Ok(None)
        } else {
            match T::from_value(v) {
                Ok(t) => Ok(Some(t)),
                Err(e) => Err(e),
            }
        }
    }
}

impl<T: FromValue> FromValue for Vec<T> {
    fn from_value(v: &Value) -> (r: Result<Vec<T>, Error>)
        ensures
            r matches Ok(out) ==> (v@ matches ValModel::Arr(items) && out@.len() == items.len()),
            !(v@ is Arr) ==> (r matches Err(e) && e@ == ErrModel::TypeMismatch(
                "array"@,
                kind_text(v@),
            )),
    {
        let arr = match v.as_array() {
            Ok(a) => a,
            Err(e) => {
                return Err(e);
            },
        };
        proof {
            crate::value::lemma_arr_view(arr@);
        }
        let mut out: Vec<T> = Vec::new();
        let n = arr.len();
        let mut i: usize = 0;
        while i < n
            invariant
                n == arr@.len(),
                i <= n,
                out@.len() == i,
                v@ == ValModel::Arr(crate::value::arr_view(arr@)),
                crate::value::arr_view(arr@).len() == n,
            decreases n - i,
        {
            match T::from_value(&arr[i]) {
                Ok(t) => out.push(t),
                Err(e) => {
                    return Err(e);
                },
            }
            i = i + 1;
        }
        Ok(out)
    }
}

/// The fast decode path: a decoder that drives the parser directly, without
/// keeping a document-wide tree alive. Its results agree with the
/// `Value`-mediated path, both being specified by the same mathematical
/// parser.
pub struct Deserializer {
    parser: Parser,
}

impl Deserializer {
    /// The parser's input.
    pub closed spec fn spec_input(&self) -> Seq<char> {
        self.parser.spec_input()
    }

    /// The parser's cursor.
    pub closed spec fn spec_pos(&self) -> int {
        self.parser.spec_pos()
    }

    /// Whether the cursor is inside the input.
    pub open spec fn wf(&self) -> bool {
        self.spec_pos() <= self.spec_input().len()
    }

    /// A decoder at the start of `input`.
    pub fn from_str(input: &str) -> (r: Deserializer)
        ensures
            r.spec_input() == input@,
            r.spec_pos() == 0,
            r.wf(),
    {
        Deserializer { parser: Parser::new(input) }
    }

    /// Reads one whole value.
    pub fn read_value(&mut self) -> (r: Result<Value, Error>)
        requires
            old(self).wf(),
        ensures
            final (self).wf(),
            final (self).spec_input() == old(self).spec_input(),
            match r {
                Ok(v) => spec_parse_value(old(self).spec_input(), old(self).spec_pos(), 0) matches Ok(
                    (m, p2),
                ) && v@ == m && final (self).spec_pos() == p2,
                Err(e) => spec_parse_value(old(self).spec_input(), old(self).spec_pos(), 0) matches
                    Err(m) && e@ == m,
            },
    {
        self.parser.parse_value()
    }

    /// Reads one boolean token; its outcome, success or failure, is the
    /// outcome of decoding the parsed value, so the token path and the
    /// tree path agree.
    pub fn read_bool(&mut self) -> (r: Result<bool, Error>)
        requires
            old(self).wf(),
        ensures
            final (self).wf(),
            final (self).spec_input() == old(self).spec_input(),
            match r {
                Ok(b) => spec_parse_value(old(self).spec_input(), old(self).spec_pos(), 0) matches
                    Ok((m, p2)) && m == ValModel::Bool(b) && final (self).spec_pos() == p2,
                Err(e) => match spec_parse_value(old(self).spec_input(), old(self).spec_pos(), 0) {
                    Err(m) => e@ == m,
                    Ok((m, p2)) => !(m is Bool) && e@ == ErrModel::TypeMismatch(
                        "bool"@,
                        kind_text(m),
                    ),
                },
            },
    {
        match self.parser.parse_value() {
            Ok(v) => v.as_bool(),
            Err(e) => Err(e),
        }
    }

    /// Reads one string token; its outcome, success or failure, is the
    /// outcome of decoding the parsed value, so the token path and the
    /// tree path agree.
    pub fn read_string(&mut self) -> (r: Result<String, Error>)
        requires
            old(self).wf(),
        ensures
            final (self).wf(),
            final (self).spec_input() == old(self).spec_input(),
            match r {
                Ok(t) => spec_parse_value(old(self).spec_input(), old(self).spec_pos(), 0) matches
                    Ok((m, p2)) && m == ValModel::Str(t@) && final (self).spec_pos() == p2,
                Err(e) => match spec_parse_value(old(self).spec_input(), old(self).spec_pos(), 0) {
                    Err(m) => e@ == m,
                    Ok((m, p2)) => !(m is Str) && e@ == ErrModel::TypeMismatch(
                        "str"@,
                        kind_text(m),
                    ),
                },
            },
    {
        match self.parser.parse_value() {
            Ok(v) => match v {
                Value::String(s) => Ok(s),
                other => Err(
                    Error::TypeMismatch { expected: "str", got: other.kind_name() },
                ),
            },
            Err(e) => Err(e),
        }
    }
}

} // verus!
