//! Small helpers of the command-line surface: package specifications and
//! human-readable sizes.

use vstd::prelude::*;

use crate::text::{dec_nat, digit_char};

verus! {

/// The position of the first `@` in `t`, or the length when none occurs.
pub open spec fn at_index(t: Seq<char>) -> int
    decreases t.len(),
{
    if t.len() == 0 {
        0
    } else if t[0] == '@' {
        0
    } else {
        1 + at_index(t.drop_first())
    }
}

/// `at_index` points at the first `@`, past the end when none occurs.
pub proof fn lemma_at_index(t: Seq<char>)
    ensures
        0 <= at_index(t) <= t.len(),
        at_index(t) < t.len() ==> t[at_index(t)] == '@',
        forall|j: int| 0 <= j < at_index(t) ==> t[j] != '@',
    decreases t.len(),
{
    if t.len() > 0 && t[0] != '@' {
        lemma_at_index(t.drop_first());
        assert forall|j: int| 0 <= j < at_index(t) implies t[j] != '@' by {
            if j > 0 {
                assert(t.drop_first()[j - 1] == t[j]);
            }
        }
    }
}

/// Splits a package specification at its first `@`: the identifier, and the
/// version after the `@` when one is given.
pub fn parse_package(text: &str) -> (r: (String, Option<String>))
    ensures
        at_index(text@) < text@.len() ==> r.0@ == text@.subrange(0, at_index(text@)) && (r.1
            matches Some(v) && v@ == text@.subrange(at_index(text@) + 1, text@.len() as int)),
        at_index(text@) == text@.len() ==> r.0@ == text@ && r.1 is None,
    {
    proof {
        lemma_at_index(text@);
    }
    let cs = crate::text::chars_of(text);
    let n = cs.len();
    let mut i: usize = 0;
    while i < n && cs[i] != '@'
        invariant
            n == cs@.len(),
            cs@ == text@,
            i <= n,
            forall|j: int| 0 <= j < i ==> text@[j] != '@',
        decreases n - i,
    {
        i = i + 1;
    }
    proof {
        lemma_at_index(text@);
        let k = at_index(text@);
        if i < n {
            if k < i {
                assert(text@[k] == '@');
            }
            if i < k {
                assert(text@[i as int] != '@');
            }
        } else {
            if k < n {
                assert(text@[k] == '@');
            }
        }
    }
    if i < n {
        let mut id: Vec<char> = Vec::new();
        let mut j: usize = 0;
        while j < i
            invariant
                n == cs@.len(),
                cs@ == text@,
                i < n,
                j <= i,
                id@ == text@.subrange(0, j as int),
            decreases i - j,
        {
            id.push(cs[j]);
            proof {
                assert(id@ =~= text@.subrange(0, j + 1));
            }
            j = j + 1;
        }
        let mut ver: Vec<char> = Vec::new();
        let mut j2: usize = i + 1;
        while j2 < n
            invariant
                n == cs@.len(),
                cs@ == text@,
                i < n,
                i + 1 <= j2 <= n,
                ver@ == text@.subrange(i + 1, j2 as int),
            decreases n - j2,
        {
            ver.push(cs[j2]);
            proof {
                assert(ver@ =~= text@.subrange(i + 1, j2 + 1));
            }
            j2 = j2 + 1;
        }
        (crate::text::string_from_chars(&id), Some(crate::text::string_from_chars(&ver)))
    } else {
        (text.to_owned(), None)
    }
}

/// The rendered size: whole part, a dot, two rounded-half-up decimal
/// digits, and the unit.
pub open spec fn format_bytes_text(b: int) -> Seq<char> {
    if b >= 1048576 {
        let q = (b * 100 + 524288) / 1048576;
        dec_nat((q / 100) as nat) + seq!['.', digit_char(q % 100 / 10), digit_char(q % 100 % 10)]
            + seq![' ', 'M', 'B']
    } else if b >= 1024 {
        let q = (b * 100 + 512) / 1024;
        dec_nat((q / 100) as nat) + seq!['.', digit_char(q % 100 / 10), digit_char(q % 100 % 10)]
            + seq![' ', 'K', 'B']
    } else {
        dec_nat(b as nat) + seq![' ', 'B']
    }
}

/// Renders a byte count for people: mebibytes or kibibytes with two
/// decimals, plain bytes below a kibibyte.
pub fn format_bytes(bytes: usize) -> (r: String)
    ensures
        r@ == format_bytes_text(bytes as int),
{
    let b = bytes as u128;
    let mut out: Vec<char> = Vec::new();
    if b >= 1048576 {
        let q = (b * 100 + 524288) / 1048576;
        crate::text::push_dec_u64((q / 100) as u64, &mut out);
        out.push('.');
        out.push(crate::text::digit_of(((q % 100) / 10) as u64));
        out.push(crate::text::digit_of(((q % 100) % 10) as u64));
        out.push(' ');
        out.push('M');
        out.push('B');
        proof {
            assert(out@ =~= format_bytes_text(bytes as int));
        }
    } else if b >= 1024 {
        let q = (b * 100 + 512) / 1024;
        crate::text::push_dec_u64((q / 100) as u64, &mut out);
        out.push('.');
        out.push(crate::text::digit_of(((q % 100) / 10) as u64));
        out.push(crate::text::digit_of(((q % 100) % 10) as u64));
        out.push(' ');
        out.push('K');
        out.push('B');
        proof {
            assert(out@ =~= format_bytes_text(bytes as int));
        }
    } else {
        crate::text::push_dec_u64(bytes as u64, &mut out);
        out.push(' ');
        out.push('B');
        proof {
            assert(out@ =~= format_bytes_text(bytes as int));
        }
    }
    crate::text::string_from_chars(&out)
}

} // verus!
