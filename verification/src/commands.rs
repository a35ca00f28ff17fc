//! The command parser: one line of whitespace-separated tokens becomes a
//! typed command, or an error naming what was expected.

use vstd::prelude::*;
use vstd::string::*;
use crate::numerals::{dec_digits, parse_i64, spec_parse_i64, u64_to_string};
use crate::storage::HabitPointer;

verus! {

/// ASCII whitespace, as `str::split_ascii_whitespace` understands it.
pub open spec fn is_space(c: char) -> bool {
    c == ' ' || c == '\t' || c == '\n' || c == '\r' || c == '\x0c'
}

/// The length of the leading run of non-space characters.
pub open spec fn first_token_len(s: Seq<char>) -> nat
    decreases s.len(),
{
    if s.len() == 0 || is_space(s[0]) {
        0
    } else {
        (1 + first_token_len(s.drop_first())) as nat
    }
}

/// The whitespace-separated tokens of a line, in order, each nonempty.
pub open spec fn spec_tokens(s: Seq<char>) -> Seq<Seq<char>>
    decreases s.len(),
{
    if s.len() == 0 {
        Seq::empty()
    } else if is_space(s[0]) {
        spec_tokens(s.drop_first())
    } else {
        let k = if first_token_len(s) <= s.len() {
            first_token_len(s) as int
        } else {
            s.len() as int
        };
        seq![s.take(k)] + spec_tokens(s.skip(k))
    }
}

/// The leading token ends at the first space or at the end of the line.
pub proof fn lemma_first_token_len(s: Seq<char>, m: int)
    requires
        0 <= m <= s.len(),
        forall|k: int| 0 <= k < m ==> !is_space(#[trigger] s[k]),
        m == s.len() || is_space(s[m]),
    ensures
        first_token_len(s) == m,
    decreases m,
{
    if m > 0 {
        let d = s.drop_first();
        assert(forall|k: int| 0 <= k < d.len() ==> d[k] == s[k + 1]);
        lemma_first_token_len(d, m - 1);
    }
}

/// A typed command, parsed from one input line.
pub enum Command {
    New(Vec<String>),
    Complete(HabitPointer),
    Analytics(HabitPointer),
    Delete(HabitPointer),
    List,
    Quit,
}

/// How a name-or-index token turns into a pointer: a token that parses as
/// an `i64` becomes a position, any other becomes a name, verbatim.
pub open spec fn pointer_of(p: HabitPointer, t: Seq<char>) -> bool {
    match spec_parse_i64(t) {
        Some(v) => p matches HabitPointer::Number(k) && k == v,
        None => p matches HabitPointer::Name(n) && n@ == t,
    }
}

/// The message reporting a wrong argument count.
pub open spec fn arity_msg(expected: nat, got: nat) -> Seq<char> {
    if expected == 2 {
        "Expected 2 arguments, got "@ + dec_digits(got)
    } else {
        "Expected 1 argument, got "@ + dec_digits(got)
    }
}

/// Everything `Command::parse` promises: which command each line maps to,
/// and the exact error for every rejected line.
pub open spec fn parse_post(s: Seq<char>, r: Result<Command, String>) -> bool {
    let toks = spec_tokens(s);
    if toks.len() == 0 {
        r matches Err(m) && m@ == "Void input"@
    } else if toks[0] == "new"@ {
        if toks.len() != 3 {
            r matches Err(m) && m@ == arity_msg(2, (toks.len() - 1) as nat)
        } else {
            r matches Ok(c) && c matches Command::New(args) && args.deep_view()
                =~= seq![toks[1], toks[2]]
        }
    } else if toks[0] == "complete"@ {
        if toks.len() != 2 {
            r matches Err(m) && m@ == arity_msg(1, (toks.len() - 1) as nat)
        } else {
            r matches Ok(c) && c matches Command::Complete(p) && pointer_of(p, toks[1])
        }
    } else if toks[0] == "delete"@ {
        if toks.len() != 2 {
            r matches Err(m) && m@ == arity_msg(1, (toks.len() - 1) as nat)
        } else {
            r matches Ok(c) && c matches Command::Delete(p) && pointer_of(p, toks[1])
        }
    } else if toks[0] == "analytics"@ {
        if toks.len() != 2 {
            r matches Err(m) && m@ == arity_msg(1, (toks.len() - 1) as nat)
        } else {
            r matches Ok(c) && c matches Command::Analytics(p) && pointer_of(p, toks[1])
        }
    } else if toks[0] == "list"@ {
        r matches Ok(c) && c matches Command::List
    } else if toks[0] == "quit"@ {
        r matches Ok(c) && c matches Command::Quit
    } else {
        r matches Err(m) && m@ == "Unexpected command"@
    }
}

/// The characters of `s`, in order.
pub(crate) fn str_chars(s: &str) -> (v: Vec<char>)
    ensures
        v@ == s@,
{
    let n = s.unicode_len();
    let mut v: Vec<char> = Vec::new();
    let mut i: usize = 0;
    while i < n
        invariant
            i <= n,
            n == s@.len(),
            v@ =~= s@.subrange(0, i as int),
        decreases n - i,
    {
        v.push(s.get_char(i));
        i = i + 1;
    }
    proof {
        assert(v@ =~= s@);
    }
    v
}

/// The substring `v[from..to]` as an owned string.
pub(crate) fn chars_to_string(v: &Vec<char>, from: usize, to: usize) -> (r: String)
    requires
        from <= to <= v@.len(),
    ensures
        r@ == v@.subrange(from as int, to as int),
{
    let mut r = String::new();
    let mut i = from;
    while i < to
        invariant
            from <= i <= to <= v@.len(),
            r@ =~= v@.subrange(from as int, i as int),
        decreases to - i,
    {
        r.push(v[i]);
        proof {
            assert(r@ =~= v@.subrange(from as int, i + 1));
        }
        i = i + 1;
    }
    proof {
        assert(r@ =~= v@.subrange(from as int, to as int));
    }
    r
}

fn is_space_exec(c: char) -> (b: bool)
    ensures
        b == is_space(c),
{
    c == ' ' || c == '\t' || c == '\n' || c == '\r' || c == '\x0c'
}

/// Splits a line into its whitespace-separated tokens.
fn tokenize(s: &str) -> (toks: Vec<String>)
    ensures
        toks.deep_view() == spec_tokens(s@),
{
    let chars = str_chars(s);
    let n = chars.len();
    let mut toks: Vec<String> = Vec::new();
    proof {
        assert(s@.skip(0) =~= s@);
        assert(toks.deep_view() =~= Seq::<Seq<char>>::empty());
    }
    let mut i: usize = 0;
    while i < n
        invariant
            i <= n,
            n == chars@.len(),
            chars@ == s@,
            toks.deep_view() + spec_tokens(s@.skip(i as int)) == spec_tokens(s@),
        decreases n - i,
    {
        if is_space_exec(chars[i]) {
            proof {
                assert(s@.skip(i as int).drop_first() =~= s@.skip(i + 1));
            }
            i = i + 1;
        } else {
            let mut j = i + 1;
            while j < n
                invariant
                    i < j <= n,
                    n == chars@.len(),
                    chars@ == s@,
                    forall|k: int| i <= k < j ==> !is_space(#[trigger] s@[k]),
                ensures
                    i < j <= n,
                    forall|k: int| i <= k < j ==> !is_space(#[trigger] s@[k]),
                    j < n ==> is_space(s@[j as int]),
                decreases n - j,
            {
                if is_space_exec(chars[j]) {
                    break;
                }
                j = j + 1;
            }
            let tok = chars_to_string(&chars, i, j);
            let ghost prev = toks.deep_view();
            toks.push(tok);
            proof {
                let rest = s@.skip(i as int);
                assert(forall|k: int| 0 <= k < rest.len() ==> rest[k] == s@[k + i]);
                lemma_first_token_len(rest, (j - i) as int);
                assert(rest.take((j - i) as int) =~= s@.subrange(i as int, j as int));
                assert(rest.skip((j - i) as int) =~= s@.skip(j as int));
                assert(spec_tokens(rest) == seq![tok@] + spec_tokens(s@.skip(j as int)));
                assert forall|q: int| 0 <= q < toks.deep_view().len() implies #[trigger] toks
                    .deep_view()[q] == prev.push(tok@)[q] by {
                }
                assert(toks.deep_view() =~= prev.push(tok@));
                assert(toks.deep_view() + spec_tokens(s@.skip(j as int)) =~= prev
                    + spec_tokens(s@.skip(i as int)));
            }
            i = j;
        }
    }
    proof {
        assert(s@.skip(n as int) =~= Seq::<char>::empty());
        assert(toks.deep_view() + spec_tokens(s@.skip(n as int)) =~= toks.deep_view());
    }
    toks
}

/// The message for a wrong number of arguments to a command that expects
/// one or two of them.
fn arity_error(expected: usize, got: usize) -> (r: String)
    requires
        expected == 1 || expected == 2,
    ensures
        r@ == arity_msg(expected as nat, got as nat),
{
    let mut r = if expected == 2 {
        String::from_str("Expected 2 arguments, got ")
    } else {
        String::from_str("Expected 1 argument, got ")
    };
    let digits = u64_to_string(got as u64);
    r.append(digits.as_str());
    r
}

/// A pointer from one token: a position when the token is an integer, a
/// name otherwise.
fn pointer_from(word: String) -> (p: HabitPointer)
    ensures
        pointer_of(p, word@),
{
    match parse_i64(word.as_str()) {
        Some(v) => HabitPointer::Number(v),
        None => HabitPointer::Name(word),
    }
}

impl Command {
    /// Parses one input line: the first token picks the command, the rest
    /// are its arguments, checked for arity.
    pub fn parse(s: &str) -> (r: Result<Command, String>)
        ensures
            parse_post(s@, r),
    {
        let words = tokenize(s);
        let ghost toks = spec_tokens(s@);
        proof {
            assert(words.deep_view().len() == words@.len());
        }
        if words.len() == 0 {
            return Err(String::from_str("Void input"));
        }
        proof {
            assert(words.deep_view()[0] == words@[0]@);
        }
        let w0 = words[0].clone();
        if w0 == String::from_str("new") {
            if words.len() != 3 {
                return Err(arity_error(2, words.len() - 1));
            }
            proof {
                assert(words.deep_view()[1] == words@[1]@);
                assert(words.deep_view()[2] == words@[2]@);
            }
            let args = vec![words[1].clone(), words[2].clone()];
            proof {
                assert(args.deep_view() =~= seq![toks[1], toks[2]]);
            }
            Ok(Command::New(args))
        } else if w0 == String::from_str("complete") {
            if words.len() != 2 {
                return Err(arity_error(1, words.len() - 1));
            }
            proof {
                assert(words.deep_view()[1] == words@[1]@);
            }
            Ok(Command::Complete(pointer_from(words[1].clone())))
        } else if w0 == String::from_str("delete") {
            if words.len() != 2 {
                return Err(arity_error(1, words.len() - 1));
            }
            proof {
                assert(words.deep_view()[1] == words@[1]@);
            }
            Ok(Command::Delete(pointer_from(words[1].clone())))
        } else if w0 == String::from_str("analytics") {
            if words.len() != 2 {
                return Err(arity_error(1, words.len() - 1));
            }
            proof {
                assert(words.deep_view()[1] == words@[1]@);
            }
            Ok(Command::Analytics(pointer_from(words[1].clone())))
        } else if w0 == String::from_str("list") {
            Ok(Command::List)
        } else if w0 == String::from_str("quit") {
            Ok(Command::Quit)
        } else {
            Err(String::from_str("Unexpected command"))
        }
    }
}

} // verus!
