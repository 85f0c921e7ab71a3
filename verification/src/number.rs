//! Numeric field values: the syntax of a decimal floating-point literal, and
//! the value of a signed decimal integer.

use crate::text::{
    is_digit, is_prefix_len, is_whitespace, is_word, lemma_prefix_len, lemma_prefix_len_unique,
    prefix_len, scan, CharClass,
};
use vstd::prelude::*;
use vstd::slice::slice_subrange;

verus! {

/// Whether `c` is a plus or a minus sign.
pub open spec fn is_sign(c: char) -> bool {
    c == '+' || c == '-'
}

/// Whether every character of `s` is a decimal digit.
pub open spec fn all_digits(s: Seq<char>) -> bool {
    forall|i: int| 0 <= i < s.len() ==> is_digit(#[trigger] s[i])
}

/// `s` without the sign that opens it, if one does.
pub open spec fn unsigned(s: Seq<char>) -> Seq<char> {
    if s.len() > 0 && is_sign(s[0]) {
        s.skip(1)
    } else {
        s
    }
}

/// Digits, with at most one point among them or at either end, and at least
/// one digit.
pub open spec fn is_mantissa(m: Seq<char>) -> bool {
    ||| m.len() > 0 && all_digits(m)
    ||| exists|d: int|
        0 <= d < m.len() && #[trigger] m[d] == '.' && m.len() > 1 && all_digits(m.take(d))
            && all_digits(m.skip(d + 1))
}

/// The letter `e` in either case, an optional sign, and at least one digit.
pub open spec fn is_exponent(x: Seq<char>) -> bool {
    &&& x.len() > 0
    &&& (x[0] == 'e' || x[0] == 'E')
    &&& unsigned(x.skip(1)).len() > 0
    &&& all_digits(unsigned(x.skip(1)))
}

/// A mantissa, with or without an exponent after it.
pub open spec fn is_number(u: Seq<char>) -> bool {
    exists|k: int|
        0 <= k <= u.len() && is_mantissa(#[trigger] u.take(k)) && (k == u.len() || is_exponent(
            u.skip(k),
        ))
}

/// Whether `c` is the given letter, in lower or in upper case.
pub open spec fn is_letter(c: char, lower: char, upper: char) -> bool {
    c == lower || c == upper
}

/// `inf`, `infinity` or `nan`, each letter in either case.
pub open spec fn is_special(u: Seq<char>) -> bool {
    ||| u.len() == 3 && is_letter(u[0], 'i', 'I') && is_letter(u[1], 'n', 'N') && is_letter(
        u[2],
        'f',
        'F',
    )
    ||| u.len() == 3 && is_letter(u[0], 'n', 'N') && is_letter(u[1], 'a', 'A') && is_letter(
        u[2],
        'n',
        'N',
    )
    ||| u.len() == 8 && is_letter(u[0], 'i', 'I') && is_letter(u[1], 'n', 'N') && is_letter(
        u[2],
        'f',
        'F',
    ) && is_letter(u[3], 'i', 'I') && is_letter(u[4], 'n', 'N') && is_letter(u[5], 'i', 'I')
        && is_letter(u[6], 't', 'T') && is_letter(u[7], 'y', 'Y')
}

/// Whether `s` is a decimal floating-point literal: an optional sign, and
/// then a number or one of the special words.
pub open spec fn is_float_literal(s: Seq<char>) -> bool {
    is_special(unsigned(s)) || is_number(unsigned(s))
}

/// Where the mantissa of `u` ends, if `u` is a number: after the digits that
/// open `u`, or after the point and the digits that follow them.
pub open spec fn mantissa_end(u: Seq<char>) -> int {
    let a = prefix_len(u, CharClass::Digit);
    if 0 <= a < u.len() && u[a] == '.' {
        a + 1 + prefix_len(u.skip(a + 1), CharClass::Digit)
    } else {
        a
    }
}

/// A text is made of digits alone where its longest prefix of digits is all
/// of it.
proof fn lemma_all_digits(s: Seq<char>)
    ensures
        all_digits(s) <==> prefix_len(s, CharClass::Digit) == s.len(),
{
    lemma_prefix_len(s, CharClass::Digit);
    if all_digits(s) {
        assert(is_prefix_len(s, CharClass::Digit, s.len() as int));
        lemma_prefix_len_unique(s, CharClass::Digit, s.len() as int);
    }
}

/// A mantissa that opens `u` and is followed by the end or by an exponent
/// ends at `mantissa_end(u)`.
proof fn lemma_mantissa_end(u: Seq<char>, k: int)
    requires
        0 <= k <= u.len(),
        is_mantissa(u.take(k)),
        k == u.len() || is_exponent(u.skip(k)),
    ensures
        k == mantissa_end(u),
{
    let a = prefix_len(u, CharClass::Digit);
    lemma_prefix_len(u, CharClass::Digit);
    let m = u.take(k);
    if k < u.len() {
        assert(u.skip(k)[0] == u[k]);
    }
    if m.len() > 0 && all_digits(m) {
        if a < k {
            assert(m[a] == u[a]);
        }
        if k < a {
            assert(is_digit(u[k]));
        }
    } else {
        let d = choose|d: int|
            0 <= d < m.len() && #[trigger] m[d] == '.' && m.len() > 1 && all_digits(m.take(d))
                && all_digits(m.skip(d + 1));
        assert(m[d] == u[d]);
        if a < d {
            assert(m.take(d)[a] == u[a]);
        }
        if d < a {
            assert(is_digit(u[d]));
        }
        assert(d == a);
        let t = u.skip(a + 1);
        let b = prefix_len(t, CharClass::Digit);
        lemma_prefix_len(t, CharClass::Digit);
        let f = k - a - 1;
        if b < f {
            assert(m.skip(a + 1)[b] == t[b]);
        }
        if f < b {
            assert(t[f] == u[k]);
            assert(is_digit(u[k]));
        }
    }
}

/// Whether the characters of `u` up to `mantissa_end(u)` are a mantissa.
proof fn lemma_mantissa_at_end(u: Seq<char>)
    ensures
        0 <= mantissa_end(u) <= u.len(),
        is_mantissa(u.take(mantissa_end(u))) <==> (prefix_len(u, CharClass::Digit) > 0
            || mantissa_end(u) > prefix_len(u, CharClass::Digit) + 1),
{
    let a = prefix_len(u, CharClass::Digit);
    lemma_prefix_len(u, CharClass::Digit);
    let p = mantissa_end(u);
    let m = u.take(p);
    if 0 <= a < u.len() && u[a] == '.' {
        let t = u.skip(a + 1);
        let b = prefix_len(t, CharClass::Digit);
        lemma_prefix_len(t, CharClass::Digit);
        assert(m[a] == '.');
        assert(!is_digit(m[a]));
        if a > 0 || b > 0 {
            assert(all_digits(m.take(a)));
            assert forall|i: int| 0 <= i < m.skip(a + 1).len() implies is_digit(
                #[trigger] m.skip(a + 1)[i],
            ) by {
                assert(m.skip(a + 1)[i] == t[i]);
            }
            assert(is_mantissa(m));
        } else {
            assert(m.len() == 1);
        }
    } else {
        if a > 0 {
            assert(all_digits(m));
        }
    }
}

/// `u` is a number exactly if a mantissa runs up to `mantissa_end(u)` and
/// the rest is empty or an exponent.
proof fn lemma_number(u: Seq<char>)
    ensures
        is_number(u) <==> {
            let p = mantissa_end(u);
            is_mantissa(u.take(p)) && (p == u.len() || is_exponent(u.skip(p)))
        },
{
    lemma_mantissa_at_end(u);
    if is_number(u) {
        let k = choose|k: int|
            0 <= k <= u.len() && is_mantissa(#[trigger] u.take(k)) && (k == u.len()
                || is_exponent(u.skip(k)));
        lemma_mantissa_end(u, k);
    }
}

/// A decimal floating-point literal is not empty and holds no white space.
pub proof fn lemma_float_literal_is_word(s: Seq<char>)
    requires
        is_float_literal(s),
    ensures
        s.len() > 0,
        is_word(s),
{
    let u = unsigned(s);
    let shift = s.len() - u.len();
    assert forall|i: int| 0 <= i < u.len() implies !is_whitespace(#[trigger] u[i]) by {
        if is_special(u) {
        } else {
            let k = choose|k: int|
                0 <= k <= u.len() && is_mantissa(#[trigger] u.take(k)) && (k == u.len()
                    || is_exponent(u.skip(k)));
            let m = u.take(k);
            if i < k {
                assert(m[i] == u[i]);
                if m.len() > 0 && all_digits(m) {
                    assert(is_digit(m[i]));
                } else {
                    let d = choose|d: int|
                        0 <= d < m.len() && #[trigger] m[d] == '.' && m.len() > 1 && all_digits(
                            m.take(d),
                        ) && all_digits(m.skip(d + 1));
                    if i < d {
                        assert(is_digit(m.take(d)[i]));
                    } else if i > d {
                        assert(is_digit(m.skip(d + 1)[i - d - 1]));
                    }
                }
            } else {
                let x = u.skip(k);
                let y = x.skip(1);
                let z = unsigned(y);
                assert(x[i - k] == u[i]);
                if i > k {
                    assert(y[i - k - 1] == u[i]);
                    if z.len() < y.len() {
                        if i > k + 1 {
                            assert(is_digit(z[i - k - 2]));
                        }
                    } else {
                        assert(is_digit(z[i - k - 1]));
                    }
                }
            }
        }
    }
    assert forall|i: int| 0 <= i < s.len() implies !is_whitespace(#[trigger] s[i]) by {
        if i >= shift {
            assert(u[i - shift] == s[i]);
        }
    }
    if is_number(u) {
        let k = choose|k: int|
            0 <= k <= u.len() && is_mantissa(#[trigger] u.take(k)) && (k == u.len()
                || is_exponent(u.skip(k)));
        assert(u.take(k).len() > 0);
    }
}

/// Whether `c` is the given letter, in lower or in upper case.
fn letter(c: char, lower: char, upper: char) -> (b: bool)
    ensures
        b == is_letter(c, lower, upper),
{
    c == lower || c == upper
}

/// Whether `u` is one of the special words.
fn special(u: &[char]) -> (b: bool)
    ensures
        b == is_special(u@),
{
    if u.len() == 3 {
        (letter(u[0], 'i', 'I') && letter(u[1], 'n', 'N') && letter(u[2], 'f', 'F')) || (letter(
            u[0],
            'n',
            'N',
        ) && letter(u[1], 'a', 'A') && letter(u[2], 'n', 'N'))
    } else if u.len() == 8 {
        letter(u[0], 'i', 'I') && letter(u[1], 'n', 'N') && letter(u[2], 'f', 'F') && letter(
            u[3],
            'i',
            'I',
        ) && letter(u[4], 'n', 'N') && letter(u[5], 'i', 'I') && letter(u[6], 't', 'T')
            && letter(u[7], 'y', 'Y')
    } else {
        false
    }
}

/// `s` without the sign that opens it, if one does.
fn without_sign(s: &[char]) -> (u: &[char])
    ensures
        u@ == unsigned(s@),
{
    if s.len() > 0 && (s[0] == '+' || s[0] == '-') {
        slice_subrange(s, 1, s.len())
    } else {
        s
    }
}

/// Whether `s` is a decimal floating-point literal.
pub fn float_literal(s: &[char]) -> (b: bool)
    ensures
        b == is_float_literal(s@),
{
    let u = without_sign(s);
    if special(u) {
        return true;
    }
    proof {
        lemma_number(u@);
        lemma_mantissa_at_end(u@);
    }
    let a = scan(u, CharClass::Digit);
    let mut p = a;
    if a < u.len() && u[a] == '.' {
        let t = slice_subrange(u, a + 1, u.len());
        assert(t@ == u@.skip(a + 1));
        p = a + 1 + scan(t, CharClass::Digit);
    }
    if a == 0 && p <= 1 {
        return false;
    }
    if p == u.len() {
        return true;
    }
    let x = slice_subrange(u, p, u.len());
    assert(x@ == u@.skip(p as int));
    if !(x[0] == 'e' || x[0] == 'E') {
        return false;
    }
    let y = slice_subrange(x, 1, x.len());
    assert(y@ == x@.skip(1));
    let z = without_sign(y);
    proof {
        lemma_all_digits(z@);
    }
    z.len() > 0 && scan(z, CharClass::Digit) == z.len()
}

/// The number that the decimal digit `c` writes.
pub open spec fn digit_value(c: char) -> int {
    c as u32 - '0' as u32
}

/// The number that the decimal digits `s` write.
pub open spec fn decimal(s: Seq<char>) -> int
    decreases s.len(),
{
    if s.len() == 0 {
        0
    } else {
        decimal(s.drop_last()) * 10 + digit_value(s.last())
    }
}

/// The integer that `s` writes: an optional sign and at least one decimal
/// digit, and nothing else.
pub open spec fn integer_of(s: Seq<char>) -> Option<int> {
    let u = unsigned(s);
    if u.len() > 0 && all_digits(u) {
        if s[0] == '-' {
            Some(-decimal(u))
        } else {
            Some(decimal(u))
        }
    } else {
        None
    }
}

/// The integer that `s` writes, where it is one that `i32` holds.
pub open spec fn i32_of(s: Seq<char>) -> Option<i32> {
    match integer_of(s) {
        Some(v) => if i32::MIN <= v <= i32::MAX {
            Some(v as i32)
        } else {
            None
        },
        None => None,
    }
}

/// The first `k` digits of `s` write no more than all of `s` does.
proof fn lemma_decimal_grows(s: Seq<char>, k: int)
    requires
        all_digits(s),
        0 <= k <= s.len(),
    ensures
        0 <= decimal(s.take(k)) <= decimal(s),
    decreases s.len() - k,
{
    if k == s.len() {
        assert(s.take(k) == s);
        lemma_decimal_nonnegative(s);
    } else {
        lemma_decimal_grows(s, k + 1);
        let t = s.take(k + 1);
        assert(t.drop_last() == s.take(k));
        assert(is_digit(s[k]));
        assert(t.last() == s[k]);
        lemma_decimal_nonnegative(s.take(k));
    }
}

/// Digits write no negative number.
proof fn lemma_decimal_nonnegative(s: Seq<char>)
    requires
        all_digits(s),
    ensures
        0 <= decimal(s),
    decreases s.len(),
{
    if s.len() > 0 {
        assert(is_digit(s.last()));
        assert forall|i: int| 0 <= i < s.drop_last().len() implies is_digit(
            #[trigger] s.drop_last()[i],
        ) by {
            assert(s.drop_last()[i] == s[i]);
        }
        lemma_decimal_nonnegative(s.drop_last());
    }
}

/// The integer that `s` writes, where it is one that `i32` holds.
pub fn parse_i32(s: &[char]) -> (r: Option<i32>)
    ensures
        r == i32_of(s@),
{
    let u = without_sign(s);
    proof {
        lemma_all_digits(u@);
    }
    if u.len() == 0 || scan(u, CharClass::Digit) != u.len() {
        return None;
    }
    let negative = s[0] == '-';
    let mut acc: i64 = 0;
    let mut i: usize = 0;
    while i < u.len()
        invariant
            i <= u.len(),
            u@ == unsigned(s@),
            u.len() > 0,
            all_digits(u@),
            acc == decimal(u@.take(i as int)),
            0 <= acc <= 0x8000_0000,
        decreases u.len() - i,
    {
        let c = u[i];
        assert(is_digit(u@[i as int]));
        let d: i64 = (c as u32 - '0' as u32) as i64;
        assert(u@.take(i + 1).drop_last() == u@.take(i as int));
        acc = acc * 10 + d;
        if acc > 0x8000_0000 {
            proof {
                lemma_decimal_grows(u@, i + 1);
            }
            return None;
        }
        i += 1;
    }
    assert(u@.take(i as int) == u@);
    if negative {
        Some((-acc) as i32)
    } else if acc <= 0x7fff_ffff {
        Some(acc as i32)
    } else {
        None
    }
}

} // verus!
