//! Token classification and quoted-string payload extraction.
//!
//! A token is classified as a quoted string, a number, an identifier, or
//! unknown; the checks are ordered and mutually exclusive by that precedence.

use vstd::prelude::*;
use vstd::string::StrSliceExecFns;

verus! {

/// The dynamic type of a token, computed from its text on demand.
#[derive(PartialEq, Eq, Structural, Clone, Copy, Debug)]
pub enum Types {
    Str,
    Number,
    Identifier,
    Unknown,
}

pub open spec fn is_digit(c: char) -> bool {
    '0' <= c && c <= '9'
}

pub open spec fn is_ident_start(c: char) -> bool {
    ('a' <= c && c <= 'z') || ('A' <= c && c <= 'Z') || c == '_'
}

pub open spec fn is_ident_char(c: char) -> bool {
    is_ident_start(c) || is_digit(c)
}

pub open spec fn all_digits(s: Seq<char>) -> bool {
    forall|i: int| 0 <= i < s.len() ==> is_digit(#[trigger] s[i])
}

/// One or more digits, optionally followed by a dot and one or more digits.
pub open spec fn is_number_seq(s: Seq<char>) -> bool {
    (s.len() > 0 && all_digits(s)) || (exists|i: int|
        1 <= i && i + 1 < s.len() && #[trigger] s[i] == '.' && all_digits(s.subrange(0, i))
            && all_digits(s.subrange(i + 1, s.len() as int)))
}

/// A letter or underscore followed by letters, digits and underscores.
pub open spec fn is_ident_seq(s: Seq<char>) -> bool {
    s.len() > 0 && is_ident_start(s[0]) && (forall|i: int|
        1 <= i < s.len() ==> is_ident_char(#[trigger] s[i]))
}

/// The token both starts and ends with a double quote.
pub open spec fn is_quoted(s: Seq<char>) -> bool {
    s.len() >= 1 && s[0] == '"' && s[s.len() - 1] == '"'
}

pub open spec fn spec_classify(s: Seq<char>) -> Types {
    if is_quoted(s) {
        Types::Str
    } else if is_number_seq(s) {
        Types::Number
    } else if is_ident_seq(s) {
        Types::Identifier
    } else {
        Types::Unknown
    }
}

/// Replace each two-character `\n` escape with a newline, left to right.
pub open spec fn spec_unescape(s: Seq<char>) -> Seq<char>
    decreases s.len(),
{
    if s.len() >= 2 && s[0] == '\\' && s[1] == 'n' {
        seq!['\n'] + spec_unescape(s.subrange(2, s.len() as int))
    } else if s.len() >= 1 {
        seq![s[0]] + spec_unescape(s.subrange(1, s.len() as int))
    } else {
        Seq::empty()
    }
}

/// Drop the first and the last character; empty when fewer than two remain.
pub open spec fn spec_strip_ends(s: Seq<char>) -> Seq<char> {
    if s.len() >= 2 {
        s.subrange(1, s.len() - 1)
    } else {
        Seq::empty()
    }
}

/// The text a quoted token stands for: quotes stripped and escapes replaced.
/// An unquoted token stands for itself.
pub open spec fn spec_payload(s: Seq<char>) -> Seq<char> {
    if is_quoted(s) {
        spec_unescape(spec_strip_ends(s))
    } else {
        s
    }
}

/// The characters of `s`, in order, as a vector.
pub fn str_to_chars(s: &str) -> (v: Vec<char>)
    ensures
        v@ == s@,
{
    let n = s.unicode_len();
    let mut v: Vec<char> = Vec::new();
    let mut i: usize = 0;
    while i < n
        invariant
            n == s@.len(),
            i <= n,
            v@ == s@.subrange(0, i as int),
        decreases n - i,
    {
        v.push(s.get_char(i));
        i = i + 1;
        proof {
            assert(v@ =~= s@.subrange(0, i as int));
        }
    }
    proof {
        assert(v@ =~= s@);
    }
    v
}

/// Relies on `String`'s `FromIterator<char>` impl: collecting an iterator of
/// characters yields the string of exactly those characters in order.
#[verifier::external_body]
pub(crate) fn chars_to_string(v: &Vec<char>) -> (s: String)
    ensures
        s@ == v@,
{
    v.iter().collect()
}

/// Character-by-character string equality.
pub fn str_eq(a: &str, b: &str) -> (r: bool)
    ensures
        r == (a@ == b@),
{
    let na = a.unicode_len();
    let nb = b.unicode_len();
    if na != nb {
        proof {
            assert(a@ != b@);
        }
        return false;
    }
    let mut i: usize = 0;
    while i < na
        invariant
            na == a@.len(),
            na == b@.len(),
            i <= na,
            forall|j: int| 0 <= j < i ==> a@[j] == b@[j],
        decreases na - i,
    {
        if a.get_char(i) != b.get_char(i) {
            return false;
        }
        i = i + 1;
    }
    proof {
        assert(a@ =~= b@);
    }
    true
}

fn is_digit_exec(c: char) -> (r: bool)
    ensures
        r == is_digit(c),
{
    '0' <= c && c <= '9'
}

fn is_ident_start_exec(c: char) -> (r: bool)
    ensures
        r == is_ident_start(c),
{
    ('a' <= c && c <= 'z') || ('A' <= c && c <= 'Z') || c == '_'
}

fn is_ident_char_exec(c: char) -> (r: bool)
    ensures
        r == is_ident_char(c),
{
    is_ident_start_exec(c) || is_digit_exec(c)
}

/// Decide whether the token matches the number shape: digits, optionally a
/// dot and more digits.
pub fn is_number_token(s: &str) -> (r: bool)
    ensures
        r == is_number_seq(s@),
{
    let v = str_to_chars(s);
    let n = v.len();
    if n == 0 {
        return false;
    }
    let mut j: usize = 0;
    while j < n && is_digit_exec(v[j])
        invariant
            n == v@.len(),
            j <= n,
            forall|k: int| 0 <= k < j ==> is_digit(#[trigger] v@[k]),
        decreases n - j,
    {
        j = j + 1;
    }
    if j == n {
        return true;
    }
    // v[j] is the first non-digit character.
    if !(v[j] == '.') || j == 0 || j + 1 == n {
        proof {
            assert(!is_number_seq(v@)) by {
                assert(!is_digit(v@[j as int]));
                if exists|i: int|
                    1 <= i && i + 1 < v@.len() && #[trigger] v@[i] == '.' && all_digits(
                        v@.subrange(0, i),
                    ) && all_digits(v@.subrange(i + 1, v@.len() as int)) {
                    let i = choose|i: int|
                        1 <= i && i + 1 < v@.len() && #[trigger] v@[i] == '.' && all_digits(
                            v@.subrange(0, i),
                        ) && all_digits(v@.subrange(i + 1, v@.len() as int));
                    if i < j {
                        assert(v@.subrange(i + 1, v@.len() as int)[j - i - 1] == v@[j as int]);
                        assert(is_digit(v@[j as int]));
                    } else if i > j {
                        assert(v@.subrange(0, i)[j as int] == v@[j as int]);
                        assert(is_digit(v@[j as int]));
                    } else {
                        // i == j, so v[j] == '.', 1 <= j, and j + 1 < n.
                        assert(v@[j as int] == '.');
                        assert(1 <= j && j + 1 < v@.len());
                    }
                }
            }
        }
        return false;
    }
    let mut k: usize = j + 1;
    while k < n && is_digit_exec(v[k])
        invariant
            n == v@.len(),
            j + 1 <= k <= n,
            forall|m: int| j + 1 <= m < k ==> is_digit(#[trigger] v@[m]),
        decreases n - k,
    {
        k = k + 1;
    }
    if k == n {
        proof {
            assert(v@[j as int] == '.');
            assert(all_digits(v@.subrange(0, j as int)));
            assert(all_digits(v@.subrange(j + 1, v@.len() as int)));
            assert(is_number_seq(v@));
        }
        return true;
    }
    proof {
        assert(!is_number_seq(v@)) by {
            assert(!is_digit(v@[k as int]));
            assert(!is_digit(v@[j as int]) || v@[j as int] == '.');
            assert(j < k);
            if v@.len() > 0 && all_digits(v@) {
                assert(is_digit(v@[k as int]));
            }
            if exists|i: int|
                1 <= i && i + 1 < v@.len() && #[trigger] v@[i] == '.' && all_digits(
                    v@.subrange(0, i),
                ) && all_digits(v@.subrange(i + 1, v@.len() as int)) {
                let i = choose|i: int|
                    1 <= i && i + 1 < v@.len() && #[trigger] v@[i] == '.' && all_digits(
                        v@.subrange(0, i),
                    ) && all_digits(v@.subrange(i + 1, v@.len() as int));
                if i < j {
                    assert(v@.subrange(i + 1, v@.len() as int)[j - i - 1] == v@[j as int]);
                    assert(is_digit(v@[j as int]));
                    assert(v@[j as int] != '.');
                } else if i > j {
                    assert(v@.subrange(0, i)[j as int] == v@[j as int]);
                    assert(is_digit(v@[j as int]));
                } else {
                    // i == j: everything after the dot is a digit, yet v[k] is not.
                    assert(v@.subrange(i + 1, v@.len() as int)[k - i - 1] == v@[k as int]);
                    assert(is_digit(v@[k as int]));
                }
            }
        }
    }
    false
}

/// Decide whether the token matches the identifier shape.
pub fn is_ident_token(s: &str) -> (r: bool)
    ensures
        r == is_ident_seq(s@),
{
    let v = str_to_chars(s);
    let n = v.len();
    if n == 0 {
        return false;
    }
    if !is_ident_start_exec(v[0]) {
        return false;
    }
    let mut i: usize = 1;
    while i < n
        invariant
            v@ == s@,
            n == v@.len(),
            1 <= i <= n,
            forall|k: int| 1 <= k < i ==> is_ident_char(#[trigger] v@[k]),
        decreases n - i,
    {
        if !is_ident_char_exec(v[i]) {
            proof {
                assert(!is_ident_char(s@[i as int]));
            }
            return false;
        }
        i = i + 1;
    }
    true
}

/// Classify a token by its text: quoted string, then number, then
/// identifier, then unknown.
pub fn get_type(token: String) -> (t: Types)
    ensures
        t == spec_classify(token@),
{
    let s = token.as_str();
    let n = s.unicode_len();
    if n >= 1 && s.get_char(0) == '"' && s.get_char(n - 1) == '"' {
        return Types::Str;
    }
    if is_number_token(s) {
        return Types::Number;
    }
    if is_ident_token(s) {
        return Types::Identifier;
    }
    Types::Unknown
}

/// Drop the first and the last character of the text.
pub fn rem_first_and_last(value: &str) -> (r: String)
    ensures
        r@ == spec_strip_ends(value@),
{
    let n = value.unicode_len();
    if n < 2 {
        let empty: Vec<char> = Vec::new();
        return chars_to_string(&empty);
    }
    let mut out: Vec<char> = Vec::new();
    let mut i: usize = 1;
    while i < n - 1
        invariant
            n == value@.len(),
            n >= 2,
            1 <= i <= n - 1,
            out@ == value@.subrange(1, i as int),
        decreases n - i,
    {
        out.push(value.get_char(i));
        i = i + 1;
        proof {
            assert(out@ =~= value@.subrange(1, i as int));
        }
    }
    chars_to_string(&out)
}

/// Replace each two-character `\n` escape in the vector with a newline.
fn unescape_chars(v: &Vec<char>) -> (out: Vec<char>)
    ensures
        out@ == spec_unescape(v@),
{
    let n = v.len();
    let mut out: Vec<char> = Vec::new();
    let mut i: usize = 0;
    proof {
        assert(v@.subrange(0, n as int) =~= v@);
        assert(out@ + spec_unescape(v@) =~= spec_unescape(v@));
    }
    while i < n
        invariant
            n == v@.len(),
            i <= n,
            spec_unescape(v@) == out@ + spec_unescape(v@.subrange(i as int, n as int)),
        decreases n - i,
    {
        let ghost rest = v@.subrange(i as int, n as int);
        if i + 1 < n && v[i] == '\\' && v[i + 1] == 'n' {
            out.push('\n');
            i = i + 2;
            proof {
                assert(rest.len() >= 2 && rest[0] == '\\' && rest[1] == 'n');
                assert(rest.subrange(2, rest.len() as int) =~= v@.subrange(i as int, n as int));
                assert(spec_unescape(rest) == seq!['\n'] + spec_unescape(
                    v@.subrange(i as int, n as int),
                ));
            }
        } else {
            out.push(v[i]);
            i = i + 1;
            proof {
                assert(rest.len() >= 1);
                assert(!(rest.len() >= 2 && rest[0] == '\\' && rest[1] == 'n'));
                assert(rest[0] == v@[i - 1]);
                assert(rest.subrange(1, rest.len() as int) =~= v@.subrange(i as int, n as int));
                assert(spec_unescape(rest) == seq![v@[i - 1]] + spec_unescape(
                    v@.subrange(i as int, n as int),
                ));
            }
        }
    }
    proof {
        assert(v@.subrange(n as int, n as int) =~= Seq::<char>::empty());
        assert(spec_unescape(v@) =~= out@);
    }
    out
}

/// The payload of a token: a quoted token loses its surrounding quotes and
/// has each `\n` escape replaced by a newline; any other token is returned
/// unchanged.
pub fn get_string_content(string: String) -> (r: String)
    ensures
        r@ == spec_payload(string@),
{
    let s = string.as_str();
    let n = s.unicode_len();
    if n >= 1 && s.get_char(0) == '"' && s.get_char(n - 1) == '"' {
        let stripped = rem_first_and_last(s);
        let chars = str_to_chars(stripped.as_str());
        let out = unescape_chars(&chars);
        chars_to_string(&out)
    } else {
        string
    }
}

} // verus!
