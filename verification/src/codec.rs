//! The storage document codec: the habit collection as one JSON document,
//! `{"habits":[{"name":"...","completions":[...]},...]}`, written in a
//! fixed form and read back, with a proof that reading inverts writing.

use vstd::prelude::*;
use vstd::string::*;
use crate::numerals::{
    dec_digits, digits_val, i64_to_string, is_digit, lemma_dec_digits_val, parse_mag,
    parse_val, sign_len, spec_i64_chars, spec_parse_i64,
};
use crate::storage::{DbError, Habit, HabitView, Storage};

verus! {

/// How one character appears inside a JSON string: quotes and backslashes
/// escaped, everything else verbatim.
pub open spec fn esc_char(c: char) -> Seq<char> {
    if c == '"' || c == '\\' {
        seq!['\\', c]
    } else {
        seq![c]
    }
}

/// A name, escaped for its place between quotes.
pub open spec fn esc(s: Seq<char>) -> Seq<char>
    decreases s.len(),
{
    if s.len() == 0 {
        Seq::empty()
    } else {
        esc(s.drop_last()) + esc_char(s.last())
    }
}

/// A completion list, comma-separated decimal numbers.
pub open spec fn enc_nums(s: Seq<i64>) -> Seq<char>
    decreases s.len(),
{
    if s.len() == 0 {
        Seq::empty()
    } else if s.len() == 1 {
        spec_i64_chars(s[0] as int)
    } else {
        enc_nums(s.drop_last()) + seq![','] + spec_i64_chars(s.last() as int)
    }
}

/// One habit as a JSON object.
pub open spec fn enc_habit(h: HabitView) -> Seq<char> {
    "{\"name\":\""@ + esc(h.name) + "\",\"completions\":["@ + enc_nums(h.completions)
        + "]}"@
}

/// The habit list, comma-separated objects.
pub open spec fn enc_habits(s: Seq<HabitView>) -> Seq<char>
    decreases s.len(),
{
    if s.len() == 0 {
        Seq::empty()
    } else if s.len() == 1 {
        enc_habit(s[0])
    } else {
        enc_habits(s.drop_last()) + seq![','] + enc_habit(s.last())
    }
}

/// The whole document.
pub open spec fn spec_encode(s: Seq<HabitView>) -> Seq<char> {
    "{\"habits\":["@ + enc_habits(s) + "]}"@
}

/// Appends the escaped form of `name`.
fn push_escaped(out: &mut String, name: &String)
    ensures
        final(out)@ == old(out)@ + esc(name@),
{
    let base = name.as_str();
    let n = base.unicode_len();
    let mut i: usize = 0;
    proof {
        assert(name@.take(0) =~= Seq::<char>::empty());
        assert(out@ =~= out@ + esc(name@.take(0)));
    }
    while i < n
        invariant
            i <= n,
            n == name@.len(),
            base@ == name@,
            out@ == old(out)@ + esc(name@.take(i as int)),
        decreases n - i,
    {
        let c = base.get_char(i);
        if c == '"' || c == '\\' {
            out.push('\\');
            out.push(c);
        } else {
            out.push(c);
        }
        proof {
            assert(name@.take(i + 1).drop_last() =~= name@.take(i as int));
            assert(name@.take(i + 1).last() == name@[i as int]);
            assert(out@ =~= old(out)@ + esc(name@.take(i + 1)));
        }
        i = i + 1;
    }
    proof {
        assert(name@.take(n as int) =~= name@);
    }
}

/// Appends the comma-separated decimal forms of the completions.
fn push_nums(out: &mut String, v: &Vec<i64>)
    ensures
        final(out)@ == old(out)@ + enc_nums(v@),
{
    let mut i: usize = 0;
    proof {
        assert(v@.take(0) =~= Seq::<i64>::empty());
        assert(out@ =~= out@ + enc_nums(v@.take(0)));
    }
    while i < v.len()
        invariant
            i <= v@.len(),
            out@ == old(out)@ + enc_nums(v@.take(i as int)),
        decreases v@.len() - i,
    {
        if i > 0 {
            out.append(",");
        }
        let digits = i64_to_string(v[i]);
        out.append(digits.as_str());
        proof {
            reveal_strlit(",");
            assert(v@.take(i + 1).drop_last() =~= v@.take(i as int));
            assert(v@.take(i + 1).last() == v@[i as int]);
            if i == 0 {
                assert(v@.take(1).len() == 1);
                assert(out@ =~= old(out)@ + enc_nums(v@.take(1)));
            } else {
                assert(out@ =~= old(out)@ + enc_nums(v@.take(i + 1)));
            }
        }
        i = i + 1;
    }
    proof {
        assert(v@.take(v@.len() as int) =~= v@);
    }
}

/// Appends one habit object.
fn push_habit(out: &mut String, h: &Habit)
    ensures
        final(out)@ == old(out)@ + enc_habit(h@),
{
    out.append("{\"name\":\"");
    push_escaped(out, &h.name);
    out.append("\",\"completions\":[");
    push_nums(out, &h.completions);
    out.append("]}");
}

/// The whole collection as its JSON document.
pub fn to_json(st: &Storage) -> (r: String)
    ensures
        r@ == spec_encode(st@),
{
    let habits = st.get_habits();
    let ghost hv = st@;
    let mut out = String::from_str("{\"habits\":[");
    proof {
        assert(habits@.map_values(|h: Habit| h@) == hv);
        assert(hv.take(0) =~= Seq::<HabitView>::empty());
        assert(out@ =~= "{\"habits\":["@ + enc_habits(hv.take(0)));
    }
    let mut i: usize = 0;
    while i < habits.len()
        invariant
            i <= habits@.len(),
            habits@.map_values(|h: Habit| h@) == hv,
            out@ == "{\"habits\":["@ + enc_habits(hv.take(i as int)),
        decreases habits@.len() - i,
    {
        if i > 0 {
            out.append(",");
        }
        push_habit(&mut out, &habits[i]);
        proof {
            reveal_strlit(",");
            assert(habits@.map_values(|h: Habit| h@)[i as int] == habits@[i as int]@);
            assert(habits@[i as int]@ == hv[i as int]);
            assert(hv.take(i + 1).drop_last() =~= hv.take(i as int));
            assert(hv.take(i + 1).last() == hv[i as int]);
            if i == 0 {
                assert(hv.take(1).len() == 1);
                assert(out@ =~= "{\"habits\":["@ + enc_habits(hv.take(1)));
            } else {
                assert(out@ =~= "{\"habits\":["@ + enc_habits(hv.take(i + 1)));
            }
        }
        i = i + 1;
    }
    out.append("]}");
    proof {
        assert(hv.take(hv.len() as int) =~= hv);
        assert(out@ =~= spec_encode(hv));
    }
    out
}

} // verus!

use crate::commands::{chars_to_string, str_chars};
use crate::numerals::parse_i64;

verus! {

/// One JSON string body, read from just after the opening quote up to and
/// including the closing quote: escaped quotes and backslashes, all other
/// characters verbatim.
pub open spec fn dec_str(s: Seq<char>, i: int) -> Option<(Seq<char>, int)>
    decreases s.len() - i,
{
    if i < 0 || i >= s.len() {
        None
    } else if s[i] == '"' {
        Some((Seq::empty(), i + 1))
    } else if s[i] == '\\' {
        if i + 1 < s.len() && (s[i + 1] == '"' || s[i + 1] == '\\') {
            match dec_str(s, i + 2) {
                Some(p) => Some((seq![s[i + 1]] + p.0, p.1)),
                None => None,
            }
        } else {
            None
        }
    } else {
        match dec_str(s, i + 1) {
            Some(p) => Some((seq![s[i]] + p.0, p.1)),
            None => None,
        }
    }
}

/// A decoded string ends strictly after where it began, within bounds.
pub proof fn lemma_dec_str_range(s: Seq<char>, i: int)
    ensures
        dec_str(s, i) matches Some(p) ==> i < p.1 <= s.len(),
    decreases s.len() - i,
{
    if 0 <= i < s.len() {
        if s[i] == '"' {
        } else if s[i] == '\\' {
            if i + 1 < s.len() && (s[i + 1] == '"' || s[i + 1] == '\\') {
                lemma_dec_str_range(s, i + 2);
            }
        } else {
            lemma_dec_str_range(s, i + 1);
        }
    }
}

/// A character that may appear in a completion list between the brackets.
pub open spec fn is_numlist_char(c: char) -> bool {
    is_digit(c) || c == '-' || c == '+' || c == ','
}

/// The end of the run of completion-list characters starting at `i`.
pub open spec fn numlist_end(s: Seq<char>, i: int) -> int
    decreases s.len() - i,
{
    if i < 0 || i >= s.len() {
        i
    } else if is_numlist_char(s[i]) {
        numlist_end(s, i + 1)
    } else {
        i
    }
}

pub proof fn lemma_numlist_end(s: Seq<char>, i: int)
    requires
        0 <= i <= s.len(),
    ensures
        i <= numlist_end(s, i) <= s.len(),
        forall|k: int| i <= k < numlist_end(s, i) ==> is_numlist_char(#[trigger] s[k]),
        numlist_end(s, i) < s.len() ==> !is_numlist_char(s[numlist_end(s, i)]),
    decreases s.len() - i,
{
    if i < s.len() && is_numlist_char(s[i]) {
        lemma_numlist_end(s, i + 1);
    }
}

/// The position of the first comma, or the length when there is none.
pub open spec fn comma_pos(t: Seq<char>) -> nat
    decreases t.len(),
{
    if t.len() == 0 {
        0
    } else if t[0] == ',' {
        0
    } else {
        (1 + comma_pos(t.drop_first())) as nat
    }
}

pub proof fn lemma_comma_pos(t: Seq<char>, m: int)
    requires
        0 <= m <= t.len(),
        forall|k: int| 0 <= k < m ==> t[k] != ',',
        m == t.len() || t[m] == ',',
    ensures
        comma_pos(t) == m,
    decreases m,
{
    if m > 0 {
        let d = t.drop_first();
        assert(forall|k: int| 0 <= k < d.len() ==> d[k] == t[k + 1]);
        lemma_comma_pos(d, m - 1);
    }
}

/// The values of a nonempty comma-separated run of decimal numerals.
pub open spec fn parse_num_list(t: Seq<char>) -> Option<Seq<i64>>
    decreases t.len(),
{
    let p0 = comma_pos(t) as int;
    let p = if p0 <= t.len() {
        p0
    } else {
        t.len() as int
    };
    if p >= t.len() {
        match spec_parse_i64(t) {
            Some(v) => Some(seq![v]),
            None => None,
        }
    } else {
        match spec_parse_i64(t.take(p)) {
            Some(v) => match parse_num_list(t.skip(p + 1)) {
                Some(r) => Some(seq![v] + r),
                None => None,
            },
            None => None,
        }
    }
}

/// One habit object, from its opening brace through its closing brace.
pub open spec fn dec_habit(s: Seq<char>, i: int) -> Option<(HabitView, int)> {
    let l1 = "{\"name\":\""@;
    let l2 = ",\"completions\":["@;
    if i < 0 || i + l1.len() > s.len() || s.subrange(i, i + l1.len()) != l1 {
        None
    } else {
        match dec_str(s, i + l1.len()) {
            None => None,
            Some(p) => {
                let j = p.1;
                if j + l2.len() > s.len() || s.subrange(j, j + l2.len()) != l2 {
                    None
                } else {
                    let k = j + l2.len();
                    let e = numlist_end(s, k);
                    if e + 1 < s.len() && s[e] == ']' && s[e + 1] == '}' {
                        if k == e {
                            Some((HabitView { name: p.0, completions: Seq::empty() }, e + 2))
                        } else {
                            match parse_num_list(s.subrange(k, e)) {
                                Some(vs) => Some(
                                    (HabitView { name: p.0, completions: vs }, e + 2),
                                ),
                                None => None,
                            }
                        }
                    } else {
                        None
                    }
                }
            },
        }
    }
}

/// A decoded habit ends strictly after where it began, within bounds.
pub proof fn lemma_dec_habit_range(s: Seq<char>, i: int)
    ensures
        dec_habit(s, i) matches Some(p) ==> i < p.1 <= s.len(),
{
    let l1 = "{\"name\":\""@;
    let l2 = ",\"completions\":["@;
    if !(i < 0 || i + l1.len() > s.len() || s.subrange(i, i + l1.len()) != l1) {
        lemma_dec_str_range(s, i + l1.len());
        if dec_str(s, i + l1.len()) is Some {
            let p = dec_str(s, i + l1.len())->Some_0;
            let j = p.1;
            if !(j + l2.len() > s.len() || s.subrange(j, j + l2.len()) != l2) {
                lemma_numlist_end(s, j + l2.len());
            }
        }
    }
}

/// The habit list from `i`: one habit, then more after each comma.
pub open spec fn dec_habits(s: Seq<char>, i: int) -> Option<(Seq<HabitView>, int)>
    decreases s.len() - i,
    via dec_habits_dec
{
    match dec_habit(s, i) {
        None => None,
        Some(p) => {
            if p.1 < s.len() && s[p.1] == ',' {
                match dec_habits(s, p.1 + 1) {
                    Some(q) => Some((seq![p.0] + q.0, q.1)),
                    None => None,
                }
            } else {
                Some((seq![p.0], p.1))
            }
        },
    }
}

#[via_fn]
proof fn dec_habits_dec(s: Seq<char>, i: int) {
    lemma_dec_habit_range(s, i);
}

/// The whole document: the fixed frame around the habit list.
pub open spec fn spec_decode(s: Seq<char>) -> Option<Seq<HabitView>> {
    let l1 = "{\"habits\":["@;
    if s == l1 + "]}"@ {
        Some(Seq::empty())
    } else if l1.len() <= s.len() && s.subrange(0, l1.len() as int) == l1 {
        match dec_habits(s, l1.len() as int) {
            Some(p) => if p.1 + 2 == s.len() && s[p.1] == ']' && s[p.1 + 1] == '}' {
                Some(p.0)
            } else {
                None
            },
            None => None,
        }
    } else {
        None
    }
}

} // verus!

verus! {

/// Whether `lit` occurs at position `i` of `chars`.
fn expect_lit(chars: &Vec<char>, i: usize, lit: &str) -> (b: bool)
    ensures
        b == (i + lit@.len() <= chars@.len() && chars@.subrange(
            i as int,
            i + lit@.len(),
        ) == lit@),
{
    let m = lit.unicode_len();
    let n = chars.len();
    if m > n || i > n - m {
        return false;
    }
    let mut k: usize = 0;
    while k < m
        invariant
            k <= m,
            m == lit@.len(),
            n == chars@.len(),
            i + m <= n,
            forall|q: int| 0 <= q < k ==> chars@[i + q] == lit@[q],
        decreases m - k,
    {
        if lit.get_char(k) != chars[i + k] {
            proof {
                assert(chars@.subrange(i as int, i + lit@.len())[k as int] != lit@[
                    k as int]);
            }
            return false;
        }
        k = k + 1;
    }
    proof {
        assert(chars@.subrange(i as int, i + lit@.len()) =~= lit@);
    }
    true
}

/// How an in-progress string scan relates to the result of the whole scan.
spec fn dec_str_rel(s: Seq<char>, i: int, j: int, acc: Seq<char>) -> bool {
    match dec_str(s, j) {
        Some(q) => dec_str(s, i) == Some::<(Seq<char>, int)>((acc + q.0, q.1)),
        None => dec_str(s, i) is None,
    }
}

/// Reads a JSON string body starting just after its opening quote,
/// through its closing quote.
fn scan_string(chars: &Vec<char>, i: usize) -> (r: Option<(String, usize)>)
    requires
        i <= chars@.len(),
    ensures
        match r {
            Some(p) => dec_str(chars@, i as int) == Some::<(Seq<char>, int)>(
                (p.0@, p.1 as int),
            ) && i < p.1 <= chars@.len(),
            None => dec_str(chars@, i as int) is None,
        },
{
    let ghost s = chars@;
    let mut out = String::new();
    let mut j = i;
    proof {
        if dec_str(s, i as int) is Some {
            let q = dec_str(s, i as int)->Some_0;
            assert(Seq::<char>::empty() + q.0 =~= q.0);
        }
    }
    while j < chars.len()
        invariant
            i <= j <= chars@.len(),
            chars@ == s,
            dec_str_rel(s, i as int, j as int, out@),
        ensures
            i <= j <= chars@.len(),
            chars@ == s,
            j == chars@.len(),
            dec_str_rel(s, i as int, j as int, out@),
        decreases chars@.len() - j,
    {
        let c = chars[j];
        if c == '"' {
            proof {
                assert(dec_str(s, j as int) == Some::<(Seq<char>, int)>(
                    (Seq::empty(), j + 1),
                ));
                assert(out@ + Seq::<char>::empty() =~= out@);
            }
            return Some((out, j + 1));
        } else if c == '\\' {
            if j + 1 >= chars.len() {
                proof {
                    assert(dec_str(s, j as int) is None);
                }
                return None;
            }
            let c2 = chars[j + 1];
            if c2 == '"' || c2 == '\\' {
                let ghost prev = out@;
                out.push(c2);
                proof {
                    if dec_str(s, j + 2) is Some {
                        let q = dec_str(s, j + 2)->Some_0;
                        assert(dec_str(s, j as int) == Some::<(Seq<char>, int)>(
                            (seq![s[j + 1]] + q.0, q.1),
                        ));
                        assert(prev + (seq![s[j + 1]] + q.0) =~= out@ + q.0);
                    } else {
                        assert(dec_str(s, j as int) is None);
                    }
                }
                j = j + 2;
            } else {
                proof {
                    assert(dec_str(s, j as int) is None);
                }
                return None;
            }
        } else {
            let ghost prev = out@;
            out.push(c);
            proof {
                if dec_str(s, j + 1) is Some {
                    let q = dec_str(s, j + 1)->Some_0;
                    assert(dec_str(s, j as int) == Some::<(Seq<char>, int)>(
                        (seq![s[j as int]] + q.0, q.1),
                    ));
                    assert(prev + (seq![s[j as int]] + q.0) =~= out@ + q.0);
                } else {
                    assert(dec_str(s, j as int) is None);
                }
            }
            j = j + 1;
        }
    }
    proof {
        assert(dec_str(s, j as int) is None);
    }
    None
}

/// The end of the run of completion-list characters starting at `k`.
fn scan_numlist_end(chars: &Vec<char>, k: usize) -> (e: usize)
    requires
        k <= chars@.len(),
    ensures
        e as int == numlist_end(chars@, k as int),
        k <= e <= chars@.len(),
{
    let mut e = k;
    while e < chars.len()
        invariant
            k <= e <= chars@.len(),
            numlist_end(chars@, k as int) == numlist_end(chars@, e as int),
        ensures
            k <= e <= chars@.len(),
            numlist_end(chars@, k as int) == numlist_end(chars@, e as int),
            e == chars@.len() || !is_numlist_char(chars@[e as int]),
        decreases chars@.len() - e,
    {
        let c = chars[e];
        let isnum = is_digit_exec(c) || c == '-' || c == '+' || c == ',';
        proof {
            assert(isnum == is_numlist_char(chars@[e as int]));
        }
        if !isnum {
            break;
        }
        e = e + 1;
    }
    proof {
        assert(numlist_end(chars@, e as int) == e as int);
    }
    e
}

/// Decimal digit test on one character.
fn is_digit_exec(c: char) -> (b: bool)
    ensures
        b == is_digit(c),
{
    let b = c == '0' || c == '1' || c == '2' || c == '3' || c == '4' || c == '5' || c
        == '6' || c == '7' || c == '8' || c == '9';
    proof {
        if 48 <= c as int && c as int <= 57 {
            assert(c as int == 48 ==> c == '0');
            assert(c as int == 49 ==> c == '1');
            assert(c as int == 50 ==> c == '2');
            assert(c as int == 51 ==> c == '3');
            assert(c as int == 52 ==> c == '4');
            assert(c as int == 53 ==> c == '5');
            assert(c as int == 54 ==> c == '6');
            assert(c as int == 55 ==> c == '7');
            assert(c as int == 56 ==> c == '8');
            assert(c as int == 57 ==> c == '9');
        }
    }
    b
}

/// How an in-progress number-list scan relates to the whole list.
spec fn nums_rel(s: Seq<char>, k: int, e: int, pos: int, acc: Seq<i64>) -> bool {
    match parse_num_list(s.subrange(pos, e)) {
        Some(r) => parse_num_list(s.subrange(k, e)) == Some::<Seq<i64>>(acc + r),
        None => parse_num_list(s.subrange(k, e)) is None,
    }
}

/// Reads the comma-separated numerals lying between positions `k` and `e`.
fn parse_nums(chars: &Vec<char>, k: usize, e: usize) -> (r: Option<Vec<i64>>)
    requires
        k < e <= chars@.len(),
    ensures
        match r {
            Some(vs) => parse_num_list(chars@.subrange(k as int, e as int))
                == Some::<Seq<i64>>(vs@),
            None => parse_num_list(chars@.subrange(k as int, e as int)) is None,
        },
{
    let ghost s = chars@;
    let mut vs: Vec<i64> = Vec::new();
    let mut pos = k;
    proof {
        if parse_num_list(s.subrange(k as int, e as int)) is Some {
            let r0 = parse_num_list(s.subrange(k as int, e as int))->Some_0;
            assert(Seq::<i64>::empty() + r0 =~= r0);
        }
    }
    loop
        invariant
            k <= pos <= e <= chars@.len(),
            chars@ == s,
            nums_rel(s, k as int, e as int, pos as int, vs@),
        decreases e - pos,
    {
        let mut cp = pos;
        while cp < e
            invariant
                pos <= cp <= e <= chars@.len(),
                chars@ == s,
                forall|q: int| pos <= q < cp ==> s[q] != ',',
            ensures
                pos <= cp <= e <= chars@.len(),
                forall|q: int| pos <= q < cp ==> s[q] != ',',
                cp < e ==> s[cp as int] == ',',
            decreases e - cp,
        {
            if chars[cp] == ',' {
                break;
            }
            cp = cp + 1;
        }
        let piece = chars_to_string(chars, pos, cp);
        let parsed = parse_i64(piece.as_str());
        let ghost sub = s.subrange(pos as int, e as int);
        proof {
            assert(forall|q: int| 0 <= q < sub.len() ==> sub[q] == s[q + pos]);
            lemma_comma_pos(sub, cp - pos);
            assert(piece@ =~= sub.take(cp - pos));
        }
        match parsed {
            None => {
                proof {
                    if cp == e {
                        assert(sub.take(cp - pos) =~= sub);
                    }
                    assert(parse_num_list(sub) is None);
                }
                return None;
            },
            Some(v) => {
                let ghost prev = vs@;
                vs.push(v);
                if cp == e {
                    proof {
                        assert(sub.take(cp - pos) =~= sub);
                        assert(parse_num_list(sub) == Some::<Seq<i64>>(seq![v]));
                        assert(prev + seq![v] =~= vs@);
                    }
                    return Some(vs);
                }
                proof {
                    assert(sub.skip(cp - pos + 1) =~= s.subrange(cp + 1, e as int));
                    if parse_num_list(s.subrange(cp + 1, e as int)) is Some {
                        let r2 = parse_num_list(s.subrange(cp + 1, e as int))->Some_0;
                        assert(parse_num_list(sub) == Some::<Seq<i64>>(
                            seq![v] + r2,
                        ));
                        assert(prev + (seq![v] + r2) =~= vs@ + r2);
                    } else {
                        assert(parse_num_list(sub) is None);
                    }
                }
                pos = cp + 1;
            },
        }
    }
}

} // verus!

verus! {

/// Reads one habit object beginning at `i`.
fn dec_habit_exec(chars: &Vec<char>, i: usize) -> (r: Option<(Habit, usize)>)
    requires
        i <= chars@.len(),
    ensures
        match r {
            Some(p) => dec_habit(chars@, i as int) == Some::<(HabitView, int)>(
                (p.0@, p.1 as int),
            ) && i < p.1 <= chars@.len(),
            None => dec_habit(chars@, i as int) is None,
        },
{
    let ghost s = chars@;
    let n = chars.len();
    if !expect_lit(chars, i, "{\"name\":\"") {
        return None;
    }
    let l1 = "{\"name\":\"".unicode_len();
    proof {
        reveal_strlit("{\"name\":\"");
        assert(i + l1 <= n);
    }
    let (name, j) = match scan_string(chars, i + l1) {
        None => {
            return None;
        },
        Some(p) => p,
    };
    if !expect_lit(chars, j, ",\"completions\":[") {
        return None;
    }
    let l2 = ",\"completions\":[".unicode_len();
    proof {
        reveal_strlit(",\"completions\":[");
        assert(j + l2 <= n);
    }
    let k = j + l2;
    let e = scan_numlist_end(chars, k);
    if !(n - e > 1 && chars[e] == ']' && chars[e + 1] == '}') {
        return None;
    }
    if k == e {
        let habit = Habit { name, completions: Vec::new() };
        proof {
            assert(habit@ == HabitView { name: name@, completions: Seq::<i64>::empty() });
        }
        return Some((habit, e + 2));
    }
    match parse_nums(chars, k, e) {
        None => None,
        Some(vs) => {
            let habit = Habit { name, completions: vs };
            Some((habit, e + 2))
        },
    }
}

/// How an in-progress habit-list scan relates to the whole list.
spec fn habits_rel(s: Seq<char>, i0: int, i: int, acc: Seq<HabitView>) -> bool {
    match dec_habits(s, i) {
        Some(q) => dec_habits(s, i0) == Some::<(Seq<HabitView>, int)>(
            (acc + q.0, q.1),
        ),
        None => dec_habits(s, i0) is None,
    }
}

/// The collection read back from its JSON document. Succeeds exactly on
/// the documents that `spec_decode` accepts, and returns the collection
/// that document denotes.
pub fn from_json(s: &str) -> (r: Result<Storage, DbError>)
    ensures
        r matches Ok(st) ==> spec_decode(s@) == Some(st@),
        r matches Err(e) ==> (e matches DbError::Json(m) && m@
            == "invalid storage document"@ && spec_decode(s@) is None),
{
    let chars = str_chars(s);
    let ghost sv = s@;
    proof {
        reveal_strlit("{\"habits\":[");
        reveal_strlit("]}");
        reveal_strlit("{\"habits\":[]}");
        assert(("{\"habits\":["@ + "]}"@) =~= "{\"habits\":[]}"@);
    }
    if expect_lit(&chars, 0, "{\"habits\":[]}") && chars.len() == 13 {
        let st = Storage::new();
        proof {
            assert(chars@.subrange(0, 13) =~= sv);
            assert(sv =~= "{\"habits\":["@ + "]}"@);
        }
        return Ok(st);
    }
    if !expect_lit(&chars, 0, "{\"habits\":[") {
        proof {
            if sv == "{\"habits\":["@ + "]}"@ {
                assert(sv.subrange(0, 11) =~= "{\"habits\":["@);
                assert(false);
            }
        }
        return Err(DbError::Json(String::from_str("invalid storage document")));
    }
    proof {
        if sv == "{\"habits\":["@ + "]}"@ {
            assert(sv.len() == 13);
            assert(chars@.subrange(0, 13) =~= sv);
            assert(false);
        }
    }
    let mut habits: Vec<Habit> = Vec::new();
    let mut i: usize = 11;
    let ghost i0 = 11int;
    proof {
        assert(i0 == "{\"habits\":["@.len());
        if dec_habits(sv, i0) is Some {
            let q = dec_habits(sv, i0)->Some_0;
            assert(Seq::<HabitView>::empty() + q.0 =~= q.0);
        }
    }
    loop
        invariant
            11 <= i <= chars@.len(),
            chars@ == sv,
            sv == s@,
            habits_rel(sv, 11, i as int, habits@.map_values(|h: Habit| h@)),
            sv.subrange(0, 11) == "{\"habits\":["@,
            sv != "{\"habits\":["@ + "]}"@,
            "{\"habits\":["@.len() == 11,
        decreases chars@.len() - i,
    {
        let ghost prev = habits@.map_values(|h: Habit| h@);
        let (habit, j) = match dec_habit_exec(&chars, i) {
            None => {
                proof {
                    reveal_strlit("{\"habits\":[");
                    reveal_strlit("]}");
                    assert(dec_habits(sv, i as int) is None);
                    assert(dec_habits(sv, 11) is None);
                    assert(spec_decode(sv) is None);
                }
                return Err(DbError::Json(String::from_str("invalid storage document")));
            },
            Some(p) => p,
        };
        habits.push(habit);
        proof {
            assert(habits@.map_values(|h: Habit| h@) =~= prev.push(habit@));
        }
        if j < chars.len() && chars[j] == ',' {
            proof {
                reveal_strlit("{\"habits\":[");
                if dec_habits(sv, j + 1) is Some {
                    let q = dec_habits(sv, j + 1)->Some_0;
                    assert(dec_habits(sv, i as int) == Some::<(Seq<HabitView>, int)>(
                        (seq![habit@] + q.0, q.1),
                    ));
                    assert(prev + (seq![habit@] + q.0) =~= prev.push(habit@) + q.0);
                } else {
                    assert(dec_habits(sv, i as int) is None);
                }
            }
            i = j + 1;
        } else {
            proof {
                assert(dec_habits(sv, i as int) == Some::<(Seq<HabitView>, int)>(
                    (seq![habit@], j as int),
                ));
                assert(prev + seq![habit@] =~= prev.push(habit@));
            }
            // end of the habit list: expect the closing frame
            let n = chars.len();
            if !(n - j == 2 && chars[j] == ']' && chars[j + 1] == '}') {
                proof {
                    reveal_strlit("{\"habits\":[");
                    reveal_strlit("]}");
                    if dec_habits(sv, 11) is Some {
                        let q = dec_habits(sv, 11)->Some_0;
                        assert(q.1 == j as int);
                    }
                    assert(spec_decode(sv) is None);
                }
                return Err(DbError::Json(String::from_str("invalid storage document")));
            }
            let st = Storage::from_habits(habits);
            proof {
                reveal_strlit("{\"habits\":[");
                reveal_strlit("]}");
                if dec_habits(sv, 11) is Some {
                    let q = dec_habits(sv, 11)->Some_0;
                    assert(q.1 == j as int);
                    assert(st@ =~= q.0);
                }
            }
            return Ok(st);
        }
    }
}

} // verus!

verus! {

/// Escaping works character by character from the front as well.
proof fn lemma_esc_front(x: Seq<char>)
    requires
        x.len() > 0,
    ensures
        esc(x) == esc_char(x[0]) + esc(x.drop_first()),
    decreases x.len(),
{
    if x.len() == 1 {
        assert(x.drop_last().len() == 0);
        assert(x.drop_first().len() == 0);
        assert(esc(x) == esc(x.drop_last()) + esc_char(x.last()));
        assert(esc_char(x[0]) + esc(x.drop_first()) =~= esc(x));
    } else {
        let d = x.drop_last();
        lemma_esc_front(d);
        assert(d[0] == x[0]);
        assert(x.drop_first().drop_last() =~= d.drop_first());
        assert(x.drop_first().last() == x.last());
        assert(esc(x) == esc(d) + esc_char(x.last()));
        assert(esc(x.drop_first()) == esc(x.drop_first().drop_last()) + esc_char(
            x.drop_first().last(),
        ));
        assert(esc(x) =~= esc_char(x[0]) + esc(x.drop_first()));
    }
}

/// A decoded string over an escaped name, closed by a quote, yields the
/// name back and stops right after the quote.
proof fn lemma_dec_str_of_esc(s: Seq<char>, i: int, x: Seq<char>)
    requires
        0 <= i,
        i + esc(x).len() + 1 <= s.len(),
        s.subrange(i, i + esc(x).len()) == esc(x),
        s[i + esc(x).len()] == '"',
    ensures
        dec_str(s, i) == Some::<(Seq<char>, int)>((x, i + esc(x).len() + 1)),
    decreases x.len(),
{
    if x.len() == 0 {
        assert(s[i] == '"');
    } else {
        let c = x[0];
        let rest = x.drop_first();
        lemma_esc_front(x);
        assert(esc(x) == esc_char(c) + esc(rest));
        assert(forall|q: int|
            0 <= q < esc(x).len() ==> s[i + q] == #[trigger] esc(x)[q]);
        if c == '"' || c == '\\' {
            assert(esc(x)[0] == '\\');
            assert(esc(x)[1] == c);
            assert(s[i] == '\\');
            assert(s[i + 1] == c);
            assert(s.subrange(i + 2, i + 2 + esc(rest).len()) =~= esc(rest)) by {
                assert(forall|q: int|
                    0 <= q < esc(rest).len() ==> #[trigger] esc(rest)[q] == esc(x)[q
                        + 2]);
            }
            lemma_dec_str_of_esc(s, i + 2, rest);
            assert(seq![c] + rest =~= x);
        } else {
            assert(esc(x)[0] == c);
            assert(s[i] == c);
            assert(s.subrange(i + 1, i + 1 + esc(rest).len()) =~= esc(rest)) by {
                assert(forall|q: int|
                    0 <= q < esc(rest).len() ==> #[trigger] esc(rest)[q] == esc(x)[q
                        + 1]);
            }
            lemma_dec_str_of_esc(s, i + 1, rest);
            assert(seq![c] + rest =~= x);
        }
    }
}

/// The decimal form of a value holds only digits and a possible leading
/// minus sign: list characters, none of them a comma.
proof fn lemma_i64_chars_shape(v: int)
    ensures
        spec_i64_chars(v).len() >= 1,
        forall|k: int|
            0 <= k < spec_i64_chars(v).len() ==> is_numlist_char(
                #[trigger] spec_i64_chars(v)[k],
            ) && spec_i64_chars(v)[k] != ',',
{
    if v < 0 {
        lemma_dec_digits_val((-v) as nat);
        let d = dec_digits((-v) as nat);
        assert(spec_i64_chars(v) == seq!['-'] + d);
        assert(forall|k: int|
            1 <= k < spec_i64_chars(v).len() ==> #[trigger] spec_i64_chars(v)[k] == d[k
                - 1]);
        assert(spec_i64_chars(v)[0] == '-');
    } else {
        lemma_dec_digits_val(v as nat);
    }
}

/// Parsing the decimal form of a value gives the value back.
proof fn lemma_parse_i64_chars(v: i64)
    ensures
        spec_parse_i64(spec_i64_chars(v as int)) == Some(v),
{
    let s = spec_i64_chars(v as int);
    if v >= 0 {
        lemma_dec_digits_val(v as nat);
        assert(s == dec_digits(v as nat));
        assert(is_digit(s[0]));
        assert(s[0] != '-' && s[0] != '+');
        assert(sign_len(s) == 0);
        assert(parse_mag(s) =~= s);
        assert(digits_val(s) == v);
    } else {
        let d = dec_digits((-(v as int)) as nat);
        lemma_dec_digits_val((-(v as int)) as nat);
        assert(s == seq!['-'] + d);
        assert(s[0] == '-');
        assert(sign_len(s) == 1);
        assert(parse_mag(s) =~= d);
        assert(forall|k: int| 1 <= k < s.len() ==> #[trigger] s[k] == d[k - 1]);
        assert(parse_val(s) == -digits_val(d));
        assert(digits_val(d) == -(v as int));
    }
}

/// A nonempty completion list encodes value by value from the front.
proof fn lemma_enc_nums_front(vs: Seq<i64>)
    requires
        vs.len() >= 1,
    ensures
        vs.len() == 1 ==> enc_nums(vs) == spec_i64_chars(vs[0] as int),
        vs.len() > 1 ==> enc_nums(vs) == spec_i64_chars(vs[0] as int) + seq![',']
            + enc_nums(vs.drop_first()),
    decreases vs.len(),
{
    if vs.len() == 2 {
        assert(vs.drop_last().len() == 1);
        assert(vs.drop_last()[0] == vs[0]);
        assert(vs.drop_first().len() == 1);
        assert(vs.drop_first()[0] == vs.last());
        assert(enc_nums(vs) == enc_nums(vs.drop_last()) + seq![','] + spec_i64_chars(
            vs.last() as int,
        ));
        assert(enc_nums(vs) =~= spec_i64_chars(vs[0] as int) + seq![','] + enc_nums(
            vs.drop_first(),
        ));
    } else if vs.len() > 2 {
        let d = vs.drop_last();
        lemma_enc_nums_front(d);
        assert(d[0] == vs[0]);
        assert(vs.drop_first().drop_last() =~= d.drop_first());
        assert(vs.drop_first().last() == vs.last());
        assert(enc_nums(vs) == enc_nums(d) + seq![','] + spec_i64_chars(
            vs.last() as int,
        ));
        assert(enc_nums(vs.drop_first()) == enc_nums(vs.drop_first().drop_last())
            + seq![','] + spec_i64_chars(vs.drop_first().last() as int));
        assert(enc_nums(vs) =~= spec_i64_chars(vs[0] as int) + seq![','] + enc_nums(
            vs.drop_first(),
        ));
    }
}

} // verus!

verus! {

/// Every character of an encoded completion list may lie between the
/// brackets: digits, minus signs and commas only.
proof fn lemma_enc_nums_shape(vs: Seq<i64>)
    ensures
        forall|k: int|
            0 <= k < enc_nums(vs).len() ==> is_numlist_char(#[trigger] enc_nums(vs)[k]),
    decreases vs.len(),
{
    if vs.len() == 1 {
        lemma_i64_chars_shape(vs[0] as int);
    } else if vs.len() > 1 {
        lemma_enc_nums_shape(vs.drop_last());
        lemma_i64_chars_shape(vs.last() as int);
        let a = enc_nums(vs.drop_last());
        let b = spec_i64_chars(vs.last() as int);
        assert(enc_nums(vs) == a + seq![','] + b);
        assert(forall|k: int| 0 <= k < a.len() ==> #[trigger] enc_nums(vs)[k] == a[k]);
        assert(enc_nums(vs)[a.len() as int] == ',');
        assert(forall|k: int|
            a.len() + 1 <= k < enc_nums(vs).len() ==> #[trigger] enc_nums(vs)[k] == b[k
                - a.len() - 1]);
    }
}

/// The run of list characters starting at `k` ends exactly at `m`.
proof fn lemma_numlist_end_at(s: Seq<char>, k: int, m: int)
    requires
        0 <= k <= m <= s.len(),
        forall|q: int| k <= q < m ==> is_numlist_char(#[trigger] s[q]),
        m == s.len() || !is_numlist_char(s[m]),
    ensures
        numlist_end(s, k) == m,
    decreases m - k,
{
    if k < m {
        lemma_numlist_end_at(s, k + 1, m);
    }
}

/// Parsing an encoded completion list gives the completions back.
proof fn lemma_parse_num_list_of_enc(vs: Seq<i64>)
    requires
        vs.len() >= 1,
    ensures
        parse_num_list(enc_nums(vs)) == Some(vs),
    decreases vs.len(),
{
    let t = enc_nums(vs);
    lemma_enc_nums_front(vs);
    lemma_i64_chars_shape(vs[0] as int);
    let a = spec_i64_chars(vs[0] as int);
    if vs.len() == 1 {
        assert(t == a);
        assert(forall|q: int| 0 <= q < t.len() ==> t[q] != ',');
        lemma_comma_pos(t, t.len() as int);
        lemma_parse_i64_chars(vs[0]);
        assert(seq![vs[0]] =~= vs);
    } else {
        let rest = enc_nums(vs.drop_first());
        assert(t == a + seq![','] + rest);
        assert(forall|q: int| 0 <= q < a.len() ==> #[trigger] t[q] == a[q]);
        assert(t[a.len() as int] == ',');
        lemma_comma_pos(t, a.len() as int);
        assert(t.take(a.len() as int) =~= a);
        lemma_parse_i64_chars(vs[0]);
        assert(forall|q: int|
            a.len() + 1 <= q < t.len() ==> #[trigger] t[q] == rest[q - a.len() - 1]);
        assert(t.skip((a.len() + 1) as int) =~= rest);
        lemma_parse_num_list_of_enc(vs.drop_first());
        assert(seq![vs[0]] + vs.drop_first() =~= vs);
    }
}

/// Decoding an encoded habit yields the habit, ending right after it.
proof fn lemma_dec_habit_of_enc(s: Seq<char>, i: int, h: HabitView)
    requires
        0 <= i,
        i + enc_habit(h).len() <= s.len(),
        s.subrange(i, i + enc_habit(h).len()) == enc_habit(h),
    ensures
        dec_habit(s, i) == Some::<(HabitView, int)>((h, i + enc_habit(h).len())),
{
    let l1 = "{\"name\":\""@;
    let l2 = ",\"completions\":["@;
    let mid = "\",\"completions\":["@;
    let tail = "]}"@;
    reveal_strlit("{\"name\":\"");
    reveal_strlit(",\"completions\":[");
    reveal_strlit("\",\"completions\":[");
    reveal_strlit("]}");
    assert(mid =~= seq!['"'] + l2);
    let eh = enc_habit(h);
    let en = esc(h.name);
    let ec = enc_nums(h.completions);
    assert(eh == l1 + en + mid + ec + tail);
    assert(forall|q: int| 0 <= q < eh.len() ==> s[i + q] == #[trigger] eh[q]);
    assert(forall|q: int| 0 <= q < l1.len() ==> #[trigger] eh[q] == l1[q]);
    assert(forall|q: int|
        0 <= q < en.len() ==> #[trigger] en[q] == eh[q + l1.len()]);
    assert(forall|q: int|
        0 <= q < mid.len() ==> #[trigger] mid[q] == eh[q + l1.len() + en.len()]);
    assert(forall|q: int|
        0 <= q < ec.len() ==> #[trigger] ec[q] == eh[q + l1.len() + en.len()
            + mid.len()]);
    assert(forall|q: int|
        0 <= q < tail.len() ==> #[trigger] tail[q] == eh[q + l1.len() + en.len()
            + mid.len() + ec.len()]);
    // the opening literal
    assert(s.subrange(i, i + l1.len()) =~= l1);
    // the escaped name, closed by its quote
    assert(s.subrange(i + l1.len(), i + l1.len() + en.len()) =~= en);
    assert(eh[(l1.len() + en.len()) as int] == mid[0]);
    assert(s[i + l1.len() + en.len()] == '"');
    lemma_dec_str_of_esc(s, i + l1.len(), h.name);
    let j = i + l1.len() + en.len() + 1;
    // the middle literal, without the quote already consumed
    assert(s.subrange(j, j + l2.len()) =~= l2) by {
        assert(forall|q: int|
            0 <= q < l2.len() ==> #[trigger] l2[q] == mid[q + 1]);
    }
    let k = j + l2.len();
    // the completion region ends exactly at the closing bracket
    assert(forall|q: int| 0 <= q < ec.len() ==> s[k + q] == #[trigger] ec[q]);
    lemma_enc_nums_shape(h.completions);
    assert(k == i + l1.len() + en.len() + mid.len());
    assert(eh[(l1.len() + en.len() + mid.len() + ec.len()) as int] == tail[0]);
    assert(eh[(l1.len() + en.len() + mid.len() + ec.len() + 1) as int] == tail[1]);
    assert(s[k + ec.len()] == ']');
    assert(s[k + ec.len() + 1] == '}');
    assert(!is_numlist_char(']'));
    assert forall|q: int| k <= q < k + ec.len() implies is_numlist_char(
        #[trigger] s[q],
    ) by {
        assert(s[q] == ec[q - k]);
    }
    lemma_numlist_end_at(s, k, k + ec.len());
    let e = k + ec.len();
    if h.completions.len() == 0 {
        assert(k == e);
        assert(dec_habit(s, i) == Some::<(HabitView, int)>(
            (HabitView { name: h.name, completions: Seq::empty() }, e + 2),
        ));
        assert(HabitView { name: h.name, completions: Seq::<i64>::empty() } == h);
    } else {
        assert(s.subrange(k, e) =~= ec);
        lemma_parse_num_list_of_enc(h.completions);
        assert(HabitView { name: h.name, completions: h.completions } == h);
    }
    assert(e + 2 == i + eh.len());
}

} // verus!

verus! {

/// A nonempty habit list encodes habit by habit from the front.
proof fn lemma_enc_habits_front(x: Seq<HabitView>)
    requires
        x.len() >= 1,
    ensures
        x.len() == 1 ==> enc_habits(x) == enc_habit(x[0]),
        x.len() > 1 ==> enc_habits(x) == enc_habit(x[0]) + seq![','] + enc_habits(
            x.drop_first(),
        ),
    decreases x.len(),
{
    if x.len() == 2 {
        assert(x.drop_last().len() == 1);
        assert(x.drop_last()[0] == x[0]);
        assert(x.drop_first().len() == 1);
        assert(x.drop_first()[0] == x.last());
        assert(enc_habits(x) == enc_habits(x.drop_last()) + seq![','] + enc_habit(
            x.last(),
        ));
        assert(enc_habits(x) =~= enc_habit(x[0]) + seq![','] + enc_habits(
            x.drop_first(),
        ));
    } else if x.len() > 2 {
        let d = x.drop_last();
        lemma_enc_habits_front(d);
        assert(d[0] == x[0]);
        assert(x.drop_first().drop_last() =~= d.drop_first());
        assert(x.drop_first().last() == x.last());
        assert(enc_habits(x) == enc_habits(d) + seq![','] + enc_habit(x.last()));
        assert(enc_habits(x.drop_first()) == enc_habits(x.drop_first().drop_last())
            + seq![','] + enc_habit(x.drop_first().last()));
        assert(enc_habits(x) =~= enc_habit(x[0]) + seq![','] + enc_habits(
            x.drop_first(),
        ));
    }
}

/// Decoding an encoded habit list yields the habits, provided the list is
/// followed by something other than a comma.
proof fn lemma_dec_habits_of_enc(s: Seq<char>, i: int, x: Seq<HabitView>)
    requires
        x.len() >= 1,
        0 <= i,
        i + enc_habits(x).len() < s.len(),
        s.subrange(i, i + enc_habits(x).len()) == enc_habits(x),
        s[i + enc_habits(x).len()] != ',',
    ensures
        dec_habits(s, i) == Some::<(Seq<HabitView>, int)>((x, i + enc_habits(x).len())),
    decreases x.len(),
{
    let ex = enc_habits(x);
    let e0 = enc_habit(x[0]);
    lemma_enc_habits_front(x);
    assert(forall|q: int| 0 <= q < ex.len() ==> s[i + q] == #[trigger] ex[q]);
    if x.len() == 1 {
        lemma_dec_habit_of_enc(s, i, x[0]);
        assert(seq![x[0]] =~= x);
    } else {
        let rest = enc_habits(x.drop_first());
        assert(ex == e0 + seq![','] + rest);
        assert(forall|q: int| 0 <= q < e0.len() ==> #[trigger] ex[q] == e0[q]);
        assert(s.subrange(i, i + e0.len()) =~= e0);
        lemma_dec_habit_of_enc(s, i, x[0]);
        let j = i + e0.len();
        assert(ex[e0.len() as int] == ',');
        assert(s[j] == ',');
        assert(forall|q: int|
            0 <= q < rest.len() ==> #[trigger] rest[q] == ex[q + e0.len() + 1]);
        assert(s.subrange(j + 1, j + 1 + rest.len()) =~= rest);
        lemma_dec_habits_of_enc(s, j + 1, x.drop_first());
        assert(seq![x[0]] + x.drop_first() =~= x);
    }
}

/// Round trip: the document written for a collection reads back as
/// exactly that collection, entry for entry, in the same order.
pub proof fn lemma_decode_encode(x: Seq<HabitView>)
    ensures
        spec_decode(spec_encode(x)) == Some(x),
{
    let l1 = "{\"habits\":["@;
    let tail = "]}"@;
    reveal_strlit("{\"habits\":[");
    reveal_strlit("]}");
    let s = spec_encode(x);
    let ex = enc_habits(x);
    assert(s == l1 + ex + tail);
    assert(forall|q: int| 0 <= q < l1.len() ==> #[trigger] s[q] == l1[q]);
    assert(forall|q: int|
        0 <= q < ex.len() ==> #[trigger] ex[q] == s[q + l1.len()]);
    assert(forall|q: int|
        0 <= q < tail.len() ==> #[trigger] tail[q] == s[q + l1.len() + ex.len()]);
    if x.len() == 0 {
        assert(s =~= l1 + tail);
    } else {
        lemma_enc_habits_front(x);
        reveal_strlit("{\"name\":\"");
        assert(enc_habit(x[0]).len() >= 1) by {
            assert(enc_habit(x[0])[0] == "{\"name\":\""@[0]);
        }
        assert(ex.len() >= 1);
        assert(s.len() > 13);
        assert((l1 + tail).len() == 13);
        assert(s != l1 + tail);
        assert(s.subrange(0, 11) =~= l1);
        assert(s.subrange(11, (11 + ex.len()) as int) =~= ex);
        assert(s[(11 + ex.len()) as int] == tail[0]);
        assert(s[(11 + ex.len() + 1) as int] == tail[1]);
        lemma_dec_habits_of_enc(s, 11, x);
    }
}

} // verus!
