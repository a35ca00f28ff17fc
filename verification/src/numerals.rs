//! Decimal numerals: the value of a run of digit characters, the canonical
//! digits of a number, and executable printing and parsing of `i64` values.

use vstd::prelude::*;
use vstd::string::*;

verus! {

/// Relies on `String::push`: appends the given character to the end of the string.
pub assume_specification[ String::push ](s: &mut String, c: char)
    ensures
        final(s)@ == old(s)@.push(c),
;

pub open spec fn is_digit(c: char) -> bool {
    48 <= c as int && c as int <= 57
}

pub open spec fn digit_val(c: char) -> int {
    c as int - 48
}

pub open spec fn all_digits(s: Seq<char>) -> bool {
    forall|k: int| 0 <= k < s.len() ==> is_digit(#[trigger] s[k])
}

/// The integer value of a sequence of decimal digit characters,
/// most significant first.
pub open spec fn digits_val(s: Seq<char>) -> int
    decreases s.len(),
{
    if s.len() == 0 {
        0
    } else {
        digits_val(s.drop_last()) * 10 + digit_val(s.last())
    }
}

pub open spec fn pow10(n: nat) -> int
    decreases n,
{
    if n == 0 {
        1
    } else {
        10 * pow10((n - 1) as nat)
    }
}

pub open spec fn digit_char(d: nat) -> char {
    ((48 + d) as u8) as char
}

/// The canonical decimal digits of a natural number: no leading zero
/// except for zero itself.
pub open spec fn dec_digits(n: nat) -> Seq<char>
    decreases n,
{
    if n < 10 {
        seq![digit_char(n)]
    } else {
        dec_digits(n / 10).push(digit_char(n % 10))
    }
}

/// The canonical decimal form of a signed integer: a minus sign for
/// negative values, then the digits of the magnitude.
pub open spec fn spec_i64_chars(v: int) -> Seq<char> {
    if v < 0 {
        seq!['-'] + dec_digits((-v) as nat)
    } else {
        dec_digits(v as nat)
    }
}

/// The length of the sign prefix of a numeral: one for a leading
/// `-` or `+`, zero otherwise.
pub open spec fn sign_len(s: Seq<char>) -> int {
    if s.len() > 0 && (s[0] == '-' || s[0] == '+') {
        1
    } else {
        0
    }
}

/// The magnitude part of a numeral: everything after the sign.
pub open spec fn parse_mag(s: Seq<char>) -> Seq<char> {
    s.skip(sign_len(s))
}

/// The signed value of a numeral, before any range check.
pub open spec fn parse_val(s: Seq<char>) -> int {
    if s.len() > 0 && s[0] == '-' {
        -digits_val(parse_mag(s))
    } else {
        digits_val(parse_mag(s))
    }
}

/// What `str::parse::<i64>` accepts: an optional sign, then one or more
/// digits, whose signed value fits in `i64`.
pub open spec fn spec_parse_i64(s: Seq<char>) -> Option<i64> {
    if parse_mag(s).len() == 0 || !all_digits(parse_mag(s)) {
        None
    } else if i64::MIN <= parse_val(s) <= i64::MAX {
        Some(parse_val(s) as i64)
    } else {
        None
    }
}

pub proof fn lemma_digit_char_val(d: nat)
    requires
        d < 10,
    ensures
        is_digit(digit_char(d)),
        digit_val(digit_char(d)) == d,
{
}

pub proof fn lemma_digits_val_bounds(s: Seq<char>)
    requires
        all_digits(s),
    ensures
        0 <= digits_val(s) < pow10(s.len()),
    decreases s.len(),
{
    if s.len() > 0 {
        lemma_digits_val_bounds(s.drop_last());
    }
}

pub proof fn lemma_digits_val_lower(s: Seq<char>)
    requires
        all_digits(s),
        s.len() > 0,
        s[0] != '0',
    ensures
        digits_val(s) >= pow10((s.len() - 1) as nat),
    decreases s.len(),
{
    assert(digits_val(s) == digits_val(s.drop_last()) * 10 + digit_val(s.last()));
    if s.len() == 1 {
        assert(s.last() == s[0]);
        assert(s[0] as int != 48);
        assert(digits_val(s.drop_last()) == 0);
    } else {
        let d = s.drop_last();
        assert(forall|k: int| 0 <= k < d.len() ==> d[k] == s[k]);
        lemma_digits_val_lower(d);
        lemma_digits_val_bounds(s);
        assert(pow10((s.len() - 1) as nat) == 10 * pow10((s.len() - 2) as nat));
    }
}

pub proof fn lemma_leading_zero(s: Seq<char>)
    requires
        s.len() > 0,
        s[0] == '0',
    ensures
        digits_val(s) == digits_val(s.drop_first()),
    decreases s.len(),
{
    assert(digits_val(s) == digits_val(s.drop_last()) * 10 + digit_val(s.last()));
    if s.len() == 1 {
        assert(s.last() == '0');
        assert(digits_val(s.drop_last()) == 0);
        assert(s.drop_first().len() == 0);
    } else {
        let d = s.drop_last();
        assert(d[0] == s[0]);
        lemma_leading_zero(d);
        assert(s.drop_first().drop_last() =~= d.drop_first());
        assert(s.drop_first().last() == s.last());
        assert(digits_val(s.drop_first()) == digits_val(s.drop_first().drop_last()) * 10
            + digit_val(s.drop_first().last()));
    }
}

pub proof fn lemma_strip_zeros(s: Seq<char>, k: int)
    requires
        0 <= k <= s.len(),
        forall|j: int| 0 <= j < k ==> s[j] == '0',
    ensures
        digits_val(s) == digits_val(s.skip(k)),
    decreases k,
{
    if k > 0 {
        lemma_leading_zero(s);
        assert(s.drop_first().skip(k - 1) =~= s.skip(k));
        lemma_strip_zeros(s.drop_first(), k - 1);
    } else {
        assert(s.skip(0) =~= s);
    }
}

/// The canonical digits of a number are digits, start with a nonzero
/// digit unless the number is zero, and evaluate back to the number.
pub proof fn lemma_dec_digits_val(n: nat)
    ensures
        all_digits(dec_digits(n)),
        dec_digits(n).len() >= 1,
        digits_val(dec_digits(n)) == n,
        n >= 1 ==> dec_digits(n)[0] != '0',
    decreases n,
{
    if n < 10 {
        lemma_digit_char_val(n);
        let s = dec_digits(n);
        assert(s =~= seq![digit_char(n)]);
        assert(s.last() == digit_char(n));
        assert(s.drop_last().len() == 0);
        assert(digits_val(s) == digits_val(s.drop_last()) * 10 + digit_val(s.last()));
    } else {
        lemma_dec_digits_val(n / 10);
        lemma_digit_char_val(n % 10);
        let s = dec_digits(n);
        assert(s.drop_last() =~= dec_digits(n / 10));
        assert(s.last() == digit_char(n % 10));
        assert(digits_val(s) == digits_val(s.drop_last()) * 10 + digit_val(s.last()));
        assert(digits_val(s) == (n / 10) * 10 + n % 10);
        assert(s[0] == dec_digits(n / 10)[0]);
    }
}

pub fn u64_to_string(n: u64) -> (r: String)
    ensures
        r@ == dec_digits(n as nat),
    decreases n,
{
    if n < 10 {
        let mut s = String::new();
        s.push((48 + n as u8) as char);
        proof {
            assert(s@ =~= seq![digit_char(n as nat)]);
        }
        s
    } else {
        let mut s = u64_to_string(n / 10);
        s.push((48 + (n % 10) as u8) as char);
        s
    }
}

pub fn i64_to_string(v: i64) -> (r: String)
    ensures
        r@ == spec_i64_chars(v as int),
{
    if v >= 0 {
        u64_to_string(v as u64)
    } else {
        let mag: u64 = ((-(v as i128)) as u64);
        let mut s = String::from_str("-");
        let digits = u64_to_string(mag);
        s.append(digits.as_str());
        proof {
            reveal_strlit("-");
            assert(s@ =~= seq!['-'] + dec_digits((-(v as int)) as nat));
        }
        s
    }
}

/// Parses a decimal `i64` exactly as `str::parse::<i64>` would:
/// an optional sign followed by one or more digits, rejecting values
/// outside the `i64` range.
pub fn parse_i64(t: &str) -> (r: Option<i64>)
    ensures
        r == spec_parse_i64(t@),
{
    let n = t.unicode_len();
    if n == 0 {
        return None;
    }
    let c0 = t.get_char(0);
    let neg = c0 == '-';
    let start: usize = if c0 == '-' || c0 == '+' {
        1
    } else {
        0
    };
    let ghost mag = t@.skip(start as int);
    proof {
        assert(sign_len(t@) == start as int);
        assert(parse_mag(t@) == mag);
    }
    if start == n {
        proof {
            assert(mag.len() == 0);
        }
        return None;
    }
    // skip leading zeros of the magnitude
    let mut i = start;
    while i < n
        invariant
            start <= i <= n,
            n == t@.len(),
            forall|k: int| start <= k < i ==> t@[k] == '0',
        ensures
            start <= i <= n,
            forall|k: int| start <= k < i ==> t@[k] == '0',
            i < n ==> t@[i as int] != '0',
        decreases n - i,
    {
        if t.get_char(i) != '0' {
            break;
        }
        i = i + 1;
    }
    proof {
        assert(t@.subrange(i as int, n as int) =~= mag.skip((i - start) as int));
    }
    if n - i > 19 {
        // too many significant digits: either some character is not a
        // digit, or the value exceeds the i64 range
        proof {
            if all_digits(mag) {
                let rest = mag.skip((i - start) as int);
                assert(rest[0] == t@[i as int]);
                assert(rest[0] != '0');
                assert(all_digits(rest)) by {
                    assert(forall|k: int|
                        0 <= k < rest.len() ==> rest[k] == mag[k + i - start]);
                }
                lemma_digits_val_lower(rest);
                lemma_strip_zeros(mag, (i - start) as int);
                lemma_pow10_le(19, (rest.len() - 1) as nat);
                assert(pow10(19) == 10000000000000000000) by {
                    reveal_with_fuel(pow10, 20);
                }
            }
        }
        return None;
    }
    let mut acc: u64 = 0;
    let mut j = i;
    proof {
        assert(t@.subrange(i as int, i as int) =~= Seq::<char>::empty());
    }
    while j < n
        invariant
            start <= i <= j <= n,
            n == t@.len(),
            n - i <= 19,
            mag == t@.skip(start as int),
            mag == parse_mag(t@),
            forall|k: int| i <= k < j ==> is_digit(#[trigger] t@[k]),
            acc as int == digits_val(t@.subrange(i as int, j as int)),
            acc < pow10((j - i) as nat),
        decreases n - j,
    {
        let c = t.get_char(j);
        let d = c as u32;
        if d < 48 || d > 57 {
            proof {
                assert(c as u32 == c as int);
                assert(!is_digit(c));
                assert(0 <= j - start && j - start < mag.len());
                assert(mag[(j - start) as int] == t@[j as int]);
                assert(!is_digit(mag[(j - start) as int]));
                assert(!all_digits(mag));
                assert(parse_mag(t@) == mag);
            }
            return None;
        }
        proof {
            lemma_digits_val_bounds(t@.subrange(i as int, j as int));
            lemma_pow10_le((j - i) as nat, 18);
            assert(pow10(18) == 1000000000000000000) by {
                reveal_with_fuel(pow10, 19);
            }
            assert(t@.subrange(i as int, j + 1).drop_last() =~= t@.subrange(
                i as int,
                j as int,
            ));
        }
        acc = acc * 10 + (d - 48) as u64;
        j = j + 1;
    }
    proof {
        lemma_strip_zeros(mag, (i - start) as int);
        assert(all_digits(mag)) by {
            assert(forall|k: int|
                0 <= k < (i - start) as int ==> is_digit(#[trigger] mag[k]));
            assert(forall|k: int|
                (i - start) as int <= k < mag.len() ==> is_digit(#[trigger] mag[k]));
        }
        assert(acc as int == digits_val(mag));
        assert(parse_mag(t@) == mag);
        assert(neg == (t@.len() > 0 && t@[0] == '-'));
        assert(parse_val(t@) == if neg { -(acc as int) } else { acc as int });
    }
    if neg {
        if acc <= 9223372036854775808u64 {
            Some((-(acc as i128)) as i64)
        } else {
            None
        }
    } else {
        if acc <= 9223372036854775807u64 {
            Some(acc as i64)
        } else {
            None
        }
    }
}

pub proof fn lemma_pow10_pos(a: nat)
    ensures
        pow10(a) >= 1,
    decreases a,
{
    if a > 0 {
        lemma_pow10_pos((a - 1) as nat);
    }
}

pub proof fn lemma_pow10_le(a: nat, b: nat)
    requires
        a <= b,
    ensures
        pow10(a) <= pow10(b),
        pow10(a) >= 1,
    decreases b,
{
    lemma_pow10_pos(a);
    if a < b {
        lemma_pow10_le(a, (b - 1) as nat);
    }
}

} // verus!
