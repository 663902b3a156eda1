//! The tokenizer: raw source text to lines of string tokens.
//!
//! Carriage returns and tabs are removed, the whole text is trimmed of
//! leading and trailing blanks and newlines, and each line is split on
//! unquoted spaces. A double-quoted literal is one token and keeps both
//! quote characters; a line that ends inside an open literal is a fault.

use vstd::prelude::*;

use crate::error::Error;
use crate::error::ErrV;
use crate::token::chars_to_string;
use crate::token::str_to_chars;

verus! {

/// One source line as an ordered sequence of tokens.
#[derive(Debug, Clone, PartialEq, Eq)]
pub struct Line(pub Vec<String>);

impl View for Line {
    type V = Seq<Seq<char>>;

    open spec fn view(&self) -> Seq<Seq<char>> {
        self.0.deep_view()
    }
}

impl DeepView for Line {
    type V = Seq<Seq<char>>;

    open spec fn deep_view(&self) -> Seq<Seq<char>> {
        self.view()
    }
}

pub open spec fn is_blank(c: char) -> bool {
    c == ' ' || c == '\n'
}

/// The text with every carriage return and tab removed.
pub open spec fn sans_cr_tab(s: Seq<char>) -> Seq<char>
    decreases s.len(),
{
    if s.len() == 0 {
        Seq::empty()
    } else if s[0] == '\r' || s[0] == '\t' {
        sans_cr_tab(s.subrange(1, s.len() as int))
    } else {
        seq![s[0]] + sans_cr_tab(s.subrange(1, s.len() as int))
    }
}

pub open spec fn trim_front(s: Seq<char>) -> Seq<char>
    decreases s.len(),
{
    if s.len() > 0 && is_blank(s[0]) {
        trim_front(s.subrange(1, s.len() as int))
    } else {
        s
    }
}

pub open spec fn trim_back(s: Seq<char>) -> Seq<char>
    decreases s.len(),
{
    if s.len() > 0 && is_blank(s.last()) {
        trim_back(s.drop_last())
    } else {
        s
    }
}

pub open spec fn spec_trim(s: Seq<char>) -> Seq<char> {
    trim_back(trim_front(s))
}

/// Split on newlines; even the empty text yields one (empty) line.
pub open spec fn split_from(
    s: Seq<char>,
    i: int,
    cur: Seq<char>,
    acc: Seq<Seq<char>>,
) -> Seq<Seq<char>>
    decreases s.len() - i,
{
    if i < 0 || i >= s.len() {
        acc.push(cur)
    } else if s[i] == '\n' {
        split_from(s, i + 1, Seq::empty(), acc.push(cur))
    } else {
        split_from(s, i + 1, cur.push(s[i]), acc)
    }
}

pub open spec fn split_lines(s: Seq<char>) -> Seq<Seq<char>> {
    split_from(s, 0, Seq::empty(), Seq::empty())
}

/// Tokenize from position `i` outside a quoted literal. `cur` is the
/// pending token, `acc` the tokens finished so far. `None` means the line
/// ended inside an open literal.
pub open spec fn tok_norm(
    s: Seq<char>,
    i: int,
    cur: Seq<char>,
    acc: Seq<Seq<char>>,
) -> Option<Seq<Seq<char>>>
    decreases s.len() - i,
{
    if i < 0 || i >= s.len() {
        Some(
            if cur.len() > 0 {
                acc.push(cur)
            } else {
                acc
            },
        )
    } else if s[i] == '"' {
        tok_str(
            s,
            i + 1,
            seq!['"'],
            if cur.len() > 0 {
                acc.push(cur)
            } else {
                acc
            },
        )
    } else if s[i] == ' ' {
        tok_norm(
            s,
            i + 1,
            Seq::empty(),
            if cur.len() > 0 {
                acc.push(cur)
            } else {
                acc
            },
        )
    } else {
        tok_norm(s, i + 1, cur.push(s[i]), acc)
    }
}

/// Tokenize from position `i` inside a quoted literal; `cur` holds the
/// opening quote and the characters seen so far.
pub open spec fn tok_str(
    s: Seq<char>,
    i: int,
    cur: Seq<char>,
    acc: Seq<Seq<char>>,
) -> Option<Seq<Seq<char>>>
    decreases s.len() - i,
{
    if i < 0 || i >= s.len() {
        None
    } else if s[i] == '"' {
        tok_norm(s, i + 1, Seq::empty(), acc.push(cur.push('"')))
    } else {
        tok_str(s, i + 1, cur.push(s[i]), acc)
    }
}

/// The tokens of one line, or `None` on an unterminated literal.
pub open spec fn spec_tokenize_line(line: Seq<char>) -> Option<Seq<Seq<char>>> {
    tok_norm(line, 0, Seq::empty(), Seq::empty())
}

/// Tokenize the lines from index `i` on, keeping `acc`; the first
/// unterminated literal wins.
pub open spec fn lex_lines_from(
    lines: Seq<Seq<char>>,
    i: int,
    acc: Seq<Seq<Seq<char>>>,
) -> Result<Seq<Seq<Seq<char>>>, ErrV>
    decreases lines.len() - i,
{
    if i < 0 || i >= lines.len() {
        Ok(acc)
    } else {
        match spec_tokenize_line(lines[i]) {
            Option::None => Err(
                ErrV::UnterminatedString { line_number: (i + 1) as nat, line: lines[i] },
            ),
            Option::Some(toks) => lex_lines_from(lines, i + 1, acc.push(toks)),
        }
    }
}

/// What [`lex`] yields on the given source text.
pub open spec fn spec_lex(s: Seq<char>) -> Result<Seq<Seq<Seq<char>>>, ErrV> {
    if s.len() == 0 {
        Err(ErrV::EmptySource)
    } else {
        lex_lines_from(split_lines(spec_trim(sans_cr_tab(s))), 0, Seq::empty())
    }
}

fn sans_cr_tab_exec(v: &Vec<char>) -> (out: Vec<char>)
    ensures
        out@ == sans_cr_tab(v@),
{
    let n = v.len();
    let mut out: Vec<char> = Vec::new();
    let mut i: usize = 0;
    proof {
        assert(v@.subrange(0, n as int) =~= v@);
        assert(out@ + sans_cr_tab(v@) =~= sans_cr_tab(v@));
    }
    while i < n
        invariant
            n == v@.len(),
            i <= n,
            sans_cr_tab(v@) == out@ + sans_cr_tab(v@.subrange(i as int, n as int)),
        decreases n - i,
    {
        let ghost rest = v@.subrange(i as int, n as int);
        let ghost out0 = out@;
        let c = v[i];
        proof {
            assert(rest[0] == c);
            assert(rest.subrange(1, rest.len() as int) =~= v@.subrange(i + 1, n as int));
        }
        if c == '\r' || c == '\t' {
        } else {
            out.push(c);
            proof {
                assert(sans_cr_tab(rest) == seq![c] + sans_cr_tab(v@.subrange(i + 1, n as int)));
                assert(out@ + sans_cr_tab(v@.subrange(i + 1, n as int)) =~= out0 + sans_cr_tab(
                    rest,
                ));
            }
        }
        i = i + 1;
    }
    proof {
        assert(v@.subrange(n as int, n as int) =~= Seq::<char>::empty());
        assert(sans_cr_tab(v@) =~= out@);
    }
    out
}

fn last_is_blank(v: &Vec<char>) -> (b: bool)
    ensures
        b == (v@.len() > 0 && is_blank(v@.last())),
{
    let m = v.len();
    if m == 0 {
        false
    } else {
        let c = v[m - 1];
        c == ' ' || c == '\n'
    }
}

fn trim_exec(v: Vec<char>) -> (out: Vec<char>)
    ensures
        out@ == spec_trim(v@),
{
    let n = v.len();
    let mut lo: usize = 0;
    proof {
        assert(v@.subrange(0, n as int) =~= v@);
    }
    while lo < n && (v[lo] == ' ' || v[lo] == '\n')
        invariant
            n == v@.len(),
            lo <= n,
            trim_front(v@) == trim_front(v@.subrange(lo as int, n as int)),
        decreases n - lo,
    {
        proof {
            let rest = v@.subrange(lo as int, n as int);
            assert(rest[0] == v@[lo as int]);
            assert(rest.subrange(1, rest.len() as int) =~= v@.subrange(lo + 1, n as int));
        }
        lo = lo + 1;
    }
    proof {
        let rest = v@.subrange(lo as int, n as int);
        if lo < n {
            assert(rest[0] == v@[lo as int]);
            assert(!is_blank(rest[0]));
        }
        assert(trim_front(v@) == rest);
    }
    let mut out: Vec<char> = Vec::new();
    let mut i: usize = lo;
    while i < n
        invariant
            n == v@.len(),
            lo <= i <= n,
            out@ == v@.subrange(lo as int, i as int),
        decreases n - i,
    {
        out.push(v[i]);
        i = i + 1;
        proof {
            assert(out@ =~= v@.subrange(lo as int, i as int));
        }
    }
    proof {
        assert(out@ == trim_front(v@));
    }
    let ghost fronted = out@;
    while last_is_blank(&out)
        invariant
            trim_back(fronted) == trim_back(out@),
        decreases out@.len(),
    {
        let ghost before = out@;
        let _ = out.pop();
        proof {
            assert(out@ =~= before.drop_last());
            assert(trim_back(before) == trim_back(before.drop_last()));
        }
    }
    proof {
        assert(trim_back(out@) == out@);
    }
    out
}

fn split_lines_exec(v: &Vec<char>) -> (out: Vec<Vec<char>>)
    ensures
        out.deep_view() == split_lines(v@),
{
    let n = v.len();
    let mut out: Vec<Vec<char>> = Vec::new();
    let mut cur: Vec<char> = Vec::new();
    let mut i: usize = 0;
    proof {
        assert(out.deep_view() =~= Seq::<Seq<char>>::empty());
    }
    while i < n
        invariant
            n == v@.len(),
            i <= n,
            split_lines(v@) == split_from(v@, i as int, cur@, out.deep_view()),
        decreases n - i,
    {
        let c = v[i];
        let ghost curv = cur@;
        let ghost dv = out.deep_view();
        if c == '\n' {
            out.push(cur);
            cur = Vec::new();
            proof {
                assert(out.deep_view() =~~= dv.push(curv));
            }
        } else {
            cur.push(c);
        }
        i = i + 1;
    }
    let ghost curv = cur@;
    let ghost dv = out.deep_view();
    out.push(cur);
    proof {
        assert(out.deep_view() =~~= dv.push(curv));
    }
    out
}

fn tokenize_line_exec(line: &Vec<char>) -> (r: Option<Line>)
    ensures
        match r {
            Option::Some(l) => spec_tokenize_line(line@) == Option::Some(l@),
            Option::None => spec_tokenize_line(line@) == Option::<Seq<Seq<char>>>::None,
        },
{
    let n = line.len();
    let mut toks: Vec<String> = Vec::new();
    let mut cur: Vec<char> = Vec::new();
    let mut in_str = false;
    let mut i: usize = 0;
    proof {
        assert(toks.deep_view() =~= Seq::<Seq<char>>::empty());
    }
    while i < n
        invariant
            n == line@.len(),
            i <= n,
            spec_tokenize_line(line@) == if in_str {
                tok_str(line@, i as int, cur@, toks.deep_view())
            } else {
                tok_norm(line@, i as int, cur@, toks.deep_view())
            },
        decreases n - i,
    {
        let c = line[i];
        let ghost curv = cur@;
        let ghost dv = toks.deep_view();
        if in_str {
            if c == '"' {
                cur.push('"');
                let t = chars_to_string(&cur);
                toks.push(t);
                cur = Vec::new();
                in_str = false;
                proof {
                    assert(toks.deep_view() =~= dv.push(curv.push('"')));
                }
            } else {
                cur.push(c);
            }
        } else {
            if c == '"' {
                if cur.len() > 0 {
                    let t = chars_to_string(&cur);
                    toks.push(t);
                    proof {
                        assert(toks.deep_view() =~= dv.push(curv));
                    }
                }
                cur = Vec::new();
                cur.push('"');
                in_str = true;
                proof {
                    assert(cur@ =~= seq!['"']);
                }
            } else if c == ' ' {
                if cur.len() > 0 {
                    let t = chars_to_string(&cur);
                    toks.push(t);
                    proof {
                        assert(toks.deep_view() =~= dv.push(curv));
                    }
                }
                cur = Vec::new();
                proof {
                    assert(cur@ =~= Seq::<char>::empty());
                }
            } else {
                cur.push(c);
            }
        }
        i = i + 1;
    }
    if in_str {
        return None;
    }
    let ghost curv = cur@;
    let ghost dv = toks.deep_view();
    if cur.len() > 0 {
        let t = chars_to_string(&cur);
        toks.push(t);
        proof {
            assert(toks.deep_view() =~= dv.push(curv));
        }
    }
    let l = Line(toks);
    Some(l)
}

/// Tokenize the whole source text: one entry per input line, each a
/// sequence of tokens; blank lines stay as empty-token lines.
pub fn lex(code: String) -> (r: Result<Vec<Line>, Error>)
    ensures
        match r {
            Result::Ok(lines) => spec_lex(code@) == Result::<_, ErrV>::Ok(lines.deep_view()),
            Result::Err(e) => spec_lex(code@) == Result::<Seq<Seq<Seq<char>>>, ErrV>::Err(e@),
        },
{
    let raw = str_to_chars(code.as_str());
    if raw.len() == 0 {
        return Err(Error::EmptySource);
    }
    let cleaned = sans_cr_tab_exec(&raw);
    let trimmed = trim_exec(cleaned);
    let lines = split_lines_exec(&trimmed);
    let ghost linesv = lines.deep_view();
    let mut out: Vec<Line> = Vec::new();
    let mut i: usize = 0;
    let nl = lines.len();
    proof {
        assert(out.deep_view() =~= Seq::<Seq<Seq<char>>>::empty());
    }
    while i < nl
        invariant
            nl == lines@.len(),
            linesv == lines.deep_view(),
            nl == linesv.len(),
            i <= nl,
            spec_lex(code@) == lex_lines_from(linesv, i as int, out.deep_view()),
        decreases nl - i,
    {
        proof {
            assert(linesv[i as int] == lines@[i as int]@);
        }
        let ghost dv = out.deep_view();
        match tokenize_line_exec(&lines[i]) {
            Option::Some(l) => {
                let ghost lv = l@;
                out.push(l);
                proof {
                    assert(out.deep_view() =~= dv.push(lv));
                }
            },
            Option::None => {
                let text = chars_to_string(&lines[i]);
                return Err(Error::UnterminatedString { line_number: i + 1, line: text });
            },
        }
        i = i + 1;
    }
    Ok(out)
}

} // verus!
