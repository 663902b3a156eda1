//! The command interpreter.
//!
//! Execution starts at the `.ENTRY` label. Each line's first token names a
//! command and the rest are its arguments. A `jmp` is a call: the named
//! label's body runs to completion and control returns to the line after
//! the jump. Nesting is bounded by a fuel so that a jump cycle ends in a
//! defined fault instead of unbounded native recursion; variable
//! indirection is bounded by the store's size for the same reason.
//!
//! In the two-operand comparison commands and in `cmd_eq`, the second
//! operand's resolution is gated on the classification of the *first*
//! argument and, when it fires, resolves the first argument again. This
//! asymmetry is deliberate, kept for fidelity with the language it
//! implements.

use vstd::prelude::*;

use crate::ast::spec_code_of;
use crate::ast::spec_has_label;
use crate::ast::Label;
use crate::ast::LabelV;
use crate::error::Error;
use crate::error::ErrV;
use crate::lexer::Line;
use crate::numeric::compare_numbers;
use crate::numeric::num_lt;
use crate::numeric::Cmp;
use crate::token::get_string_content;
use crate::token::get_type;
use crate::token::is_number_seq;
use crate::token::spec_classify;
use crate::token::spec_payload;
use crate::token::str_eq;
use crate::token::Types;
use vstd::string::StringExecFns;

verus! {

broadcast use vstd::string::group_string_axioms;

/// How deep label calls may nest before the run fails.
pub const CALL_DEPTH_LIMIT: usize = 1000;

/// The variable store as a mathematical map; later entries win.
pub open spec fn assoc_map(s: Seq<(String, String)>) -> Map<Seq<char>, Seq<char>>
    decreases s.len(),
{
    if s.len() == 0 {
        Map::empty()
    } else {
        assoc_map(s.drop_last()).insert(s.last().0@, s.last().1@)
    }
}

pub open spec fn unique_keys(s: Seq<(String, String)>) -> bool {
    forall|i: int, j: int| 0 <= i < j < s.len() ==> (#[trigger] s[i]).0@ != (#[trigger] s[j]).0@
}

/// Every line of every block has at least a command token.
pub open spec fn labels_wf(labels: Seq<LabelV>) -> bool {
    forall|k: int, j: int|
        0 <= k < labels.len() && 0 <= j < (#[trigger] labels[k]).code.len() ==> (
        #[trigger] labels[k].code[j]).1.len() > 0
}

/// The interpreter's observable state: the variable store and the output
/// lines produced so far.
#[verifier::ext_equal]
pub struct StateV {
    pub vars: Map<Seq<char>, Seq<char>>,
    pub out: Seq<Seq<char>>,
}

/// Read a variable, chasing identifier chains. A stored value that
/// classifies as an identifier names another variable; a stored quoted
/// string resolves to its payload; anything else resolves to itself. The
/// chase is bounded by `fuel` lookups beyond the first.
pub open spec fn spec_resolve(
    vars: Map<Seq<char>, Seq<char>>,
    name: Seq<char>,
    fuel: nat,
    line_no: nat,
) -> Result<(Seq<char>, Types), ErrV>
    decreases fuel,
{
    if !vars.contains_key(name) {
        Err(ErrV::UndefinedVariable { line_number: line_no, name })
    } else {
        let v = vars[name];
        if spec_classify(v) == Types::Identifier {
            if fuel == 0 {
                Err(ErrV::CyclicVariable { line_number: line_no, name })
            } else {
                spec_resolve(vars, v, (fuel - 1) as nat, line_no)
            }
        } else if spec_classify(v) == Types::Str {
            Ok((spec_payload(v), Types::Str))
        } else {
            Ok((v, spec_classify(v)))
        }
    }
}

/// An operand of a two-operand command: when the *first* argument
/// classifies as an identifier, the first argument is resolved, whichever
/// operand this is; otherwise the operand's own literal text is used.
pub open spec fn spec_operand(
    vars: Map<Seq<char>, Seq<char>>,
    arg0: Seq<char>,
    argk: Seq<char>,
    fuel: nat,
    line_no: nat,
) -> Result<Seq<char>, ErrV> {
    if spec_classify(arg0) == Types::Identifier {
        match spec_resolve(vars, arg0, fuel, line_no) {
            Ok(p) => Ok(p.0),
            Err(e) => Err(e),
        }
    } else {
        Ok(argk)
    }
}

/// The `test_*` comparison answer written into `TEMP`.
pub open spec fn flag_of(b: bool) -> Seq<char> {
    if b {
        "1"@
    } else {
        "0"@
    }
}

/// One command dispatch: the resulting state, and the fault that stopped
/// the run, if one did.
pub open spec fn spec_command(
    labels: Seq<LabelV>,
    st: StateV,
    cmd: Seq<char>,
    args: Seq<Seq<char>>,
    label_name: Seq<char>,
    line_no: nat,
    fuel: nat,
) -> (StateV, Option<ErrV>)
    decreases fuel, 0int, args.len(),
{
    let rfuel = st.vars.dom().len();
    if cmd == "cmt"@ {
        (st, None)
    } else if cmd == "var"@ {
        if args.len() != 2 {
            (
                st,
                Some(
                    ErrV::WrongArgCount {
                        line_number: line_no,
                        command: cmd,
                        expected: 2,
                        found: args.len(),
                    },
                ),
            )
        } else {
            (StateV { vars: st.vars.insert(args[0], args[1]), out: st.out }, None)
        }
    } else if cmd == "jmp"@ {
        if args.len() != 1 {
            (
                st,
                Some(
                    ErrV::WrongArgCount {
                        line_number: line_no,
                        command: cmd,
                        expected: 1,
                        found: args.len(),
                    },
                ),
            )
        } else if !spec_has_label(labels, args[0]) {
            (st, Some(ErrV::UnknownLabel { line_number: line_no, name: args[0] }))
        } else if fuel == 0 {
            (st, Some(ErrV::CallDepthExceeded { line_number: line_no, name: args[0] }))
        } else {
            spec_run_label(labels, st, args[0], (fuel - 1) as nat)
        }
    } else if cmd == "require"@ {
        if args.len() != 1 {
            (
                st,
                Some(
                    ErrV::WrongArgCount {
                        line_number: line_no,
                        command: cmd,
                        expected: 1,
                        found: args.len(),
                    },
                ),
            )
        } else if !st.vars.contains_key(args[0]) {
            (
                st,
                Some(ErrV::RequireFailed { line_number: line_no, name: args[0], label: label_name }),
            )
        } else {
            (st, None)
        }
    } else if cmd == "test_gt_eq"@ || cmd == "test_gt"@ || cmd == "test_lt_eq"@ || cmd
        == "test_lt"@ {
        if args.len() != 2 {
            (
                st,
                Some(
                    ErrV::WrongArgCount {
                        line_number: line_no,
                        command: cmd,
                        expected: 2,
                        found: args.len(),
                    },
                ),
            )
        } else {
            match spec_operand(st.vars, args[0], args[0], rfuel, line_no) {
                Err(e) => (st, Some(e)),
                Ok(n1) => match spec_operand(st.vars, args[0], args[1], rfuel, line_no) {
                    Err(e) => (st, Some(e)),
                    Ok(n2) => if spec_classify(n1) != Types::Number {
                        (st, Some(ErrV::NotNumber { line_number: line_no, value: n1 }))
                    } else if spec_classify(n2) != Types::Number {
                        (st, Some(ErrV::NotNumber { line_number: line_no, value: n2 }))
                    } else {
                        let b = if cmd == "test_gt_eq"@ {
                            !num_lt(n1, n2)
                        } else if cmd == "test_gt"@ {
                            num_lt(n2, n1)
                        } else if cmd == "test_lt_eq"@ {
                            !num_lt(n2, n1)
                        } else {
                            num_lt(n1, n2)
                        };
                        (StateV { vars: st.vars.insert("TEMP"@, flag_of(b)), out: st.out }, None)
                    },
                },
            }
        }
    } else if cmd == "test_eq"@ {
        if args.len() != 2 {
            (
                st,
                Some(
                    ErrV::WrongArgCount {
                        line_number: line_no,
                        command: cmd,
                        expected: 2,
                        found: args.len(),
                    },
                ),
            )
        } else {
            match spec_operand(st.vars, args[0], args[0], rfuel, line_no) {
                Err(e) => (st, Some(e)),
                Ok(n1) => match spec_operand(st.vars, args[0], args[1], rfuel, line_no) {
                    Err(e) => (st, Some(e)),
                    Ok(n2) => (
                        StateV { vars: st.vars.insert("TEMP"@, flag_of(n1 == n2)), out: st.out },
                        None,
                    ),
                },
            }
        }
    } else if cmd == "cmd_eq"@ {
        if args.len() < 4 {
            (
                st,
                Some(
                    ErrV::WrongArgCount {
                        line_number: line_no,
                        command: cmd,
                        expected: 4,
                        found: args.len(),
                    },
                ),
            )
        } else {
            match spec_operand(st.vars, args[0], args[0], rfuel, line_no) {
                Err(e) => (st, Some(e)),
                Ok(x1) => match spec_operand(st.vars, args[0], args[1], rfuel, line_no) {
                    Err(e) => (st, Some(e)),
                    Ok(x2) => if x1 == x2 {
                        spec_command(
                            labels,
                            st,
                            args[2],
                            args.subrange(3, args.len() as int),
                            label_name,
                            line_no,
                            fuel,
                        )
                    } else {
                        (st, None)
                    },
                },
            }
        }
    } else if cmd == "print"@ {
        if args.len() != 1 {
            (
                st,
                Some(
                    ErrV::WrongArgCount {
                        line_number: line_no,
                        command: cmd,
                        expected: 1,
                        found: args.len(),
                    },
                ),
            )
        } else {
            match spec_operand(st.vars, args[0], args[0], rfuel, line_no) {
                Err(e) => (st, Some(e)),
                Ok(x1) => (StateV { vars: st.vars, out: st.out.push(spec_payload(x1)) }, None),
            }
        }
    } else {
        (st, Some(ErrV::UnknownCommand { line_number: line_no, command: cmd }))
    }
}

/// Run a block's lines from index `i` on, stopping at the first fault.
pub open spec fn spec_run_lines(
    labels: Seq<LabelV>,
    st: StateV,
    code: Seq<(nat, Seq<Seq<char>>)>,
    i: int,
    label_name: Seq<char>,
    fuel: nat,
) -> (StateV, Option<ErrV>)
    decreases fuel, 1int, code.len() - i,
{
    if i < 0 || i >= code.len() {
        (st, None)
    } else {
        let line = code[i].1;
        if line.len() == 0 {
            spec_run_lines(labels, st, code, i + 1, label_name, fuel)
        } else {
            let r = spec_command(
                labels,
                st,
                line[0],
                line.subrange(1, line.len() as int),
                label_name,
                code[i].0,
                fuel,
            );
            match r.1 {
                Some(e) => (r.0, Some(e)),
                None => spec_run_lines(labels, r.0, code, i + 1, label_name, fuel),
            }
        }
    }
}

/// Run the named label's body; a name no label carries runs nothing.
pub open spec fn spec_run_label(
    labels: Seq<LabelV>,
    st: StateV,
    name: Seq<char>,
    fuel: nat,
) -> (StateV, Option<ErrV>)
    decreases fuel, 2int, 0int,
{
    spec_run_lines(labels, st, spec_code_of(labels, name), 0, name, fuel)
}

/// What a whole run does: seed `TEMP` with the empty string, then run the
/// entry label.
pub open spec fn spec_interpret(labels: Seq<LabelV>, st: StateV) -> (StateV, Option<ErrV>) {
    spec_run_label(
        labels,
        StateV { vars: st.vars.insert("TEMP"@, Seq::empty()), out: st.out },
        ".ENTRY"@,
        CALL_DEPTH_LIMIT as nat,
    )
}

proof fn lemma_assoc_contains(s: Seq<(String, String)>, k: Seq<char>)
    ensures
        assoc_map(s).contains_key(k) <==> exists|i: int| 0 <= i < s.len() && (#[trigger] s[i]).0@
            == k,
    decreases s.len(),
{
    if s.len() == 0 {
    } else {
        let s1 = s.drop_last();
        lemma_assoc_contains(s1, k);
        if s.last().0@ == k {
            assert(s[s.len() - 1].0@ == k);
        } else {
            if assoc_map(s).contains_key(k) {
                let i = choose|i: int| 0 <= i < s1.len() && (#[trigger] s1[i]).0@ == k;
                assert(s[i].0@ == k);
            }
            if exists|i: int| 0 <= i < s.len() && (#[trigger] s[i]).0@ == k {
                let i = choose|i: int| 0 <= i < s.len() && (#[trigger] s[i]).0@ == k;
                assert(i < s.len() - 1);
                assert(s1[i].0@ == k);
            }
        }
    }
}

proof fn lemma_assoc_get(s: Seq<(String, String)>, i: int, k: Seq<char>)
    requires
        unique_keys(s),
        0 <= i < s.len(),
        s[i].0@ == k,
    ensures
        assoc_map(s).contains_key(k),
        assoc_map(s)[k] == s[i].1@,
    decreases s.len(),
{
    let s1 = s.drop_last();
    if i == s.len() - 1 {
    } else {
        assert(s.last().0@ != k);
        assert(s1[i] == s[i]);
        lemma_assoc_get(s1, i, k);
    }
}

proof fn lemma_assoc_update(s: Seq<(String, String)>, i: int, p: (String, String))
    requires
        unique_keys(s),
        0 <= i < s.len(),
        p.0@ == s[i].0@,
    ensures
        assoc_map(s.update(i, p)) == assoc_map(s).insert(p.0@, p.1@),
        unique_keys(s.update(i, p)),
    decreases s.len(),
{
    let t = s.update(i, p);
    assert(unique_keys(t)) by {
        assert forall|a: int, b: int| 0 <= a < b < t.len() implies (#[trigger] t[a]).0@ != (
        #[trigger] t[b]).0@ by {
            assert(t[a].0@ == s[a].0@);
            assert(t[b].0@ == s[b].0@);
        }
    }
    if i == s.len() - 1 {
        assert(t.drop_last() =~= s.drop_last());
        assert(t.last() == p);
        assert(assoc_map(t) == assoc_map(s.drop_last()).insert(p.0@, p.1@));
        assert(assoc_map(s) == assoc_map(s.drop_last()).insert(s.last().0@, s.last().1@));
        assert(assoc_map(s.drop_last()).insert(p.0@, p.1@) =~= assoc_map(s).insert(p.0@, p.1@));
    } else {
        let s1 = s.drop_last();
        assert(t.drop_last() =~= s1.update(i, p));
        assert(s1[i] == s[i]);
        lemma_assoc_update(s1, i, p);
        assert(t.last() == s.last());
        assert(assoc_map(t) == assoc_map(s1).insert(p.0@, p.1@).insert(s.last().0@, s.last().1@));
        assert(s.last().0@ != p.0@);
        assert(assoc_map(s1).insert(p.0@, p.1@).insert(s.last().0@, s.last().1@) =~= assoc_map(
            s1,
        ).insert(s.last().0@, s.last().1@).insert(p.0@, p.1@));
    }
}

proof fn lemma_assoc_size(s: Seq<(String, String)>)
    requires
        unique_keys(s),
    ensures
        assoc_map(s).dom().finite(),
        assoc_map(s).dom().len() == s.len(),
    decreases s.len(),
{
    if s.len() == 0 {
        assert(assoc_map(s).dom() =~= Set::<Seq<char>>::empty());
    } else {
        let s1 = s.drop_last();
        lemma_assoc_size(s1);
        lemma_assoc_contains(s1, s.last().0@);
        assert(!assoc_map(s1).contains_key(s.last().0@)) by {
            if exists|i: int| 0 <= i < s1.len() && (#[trigger] s1[i]).0@ == s.last().0@ {
                let i = choose|i: int| 0 <= i < s1.len() && (#[trigger] s1[i]).0@ == s.last().0@;
                assert(s[i].0@ == s[s.len() - 1].0@);
            }
        }
        assert(assoc_map(s).dom() =~= assoc_map(s1).dom().insert(s.last().0@));
    }
}

/// The exec outcome `r` and the state after the call agree with what the
/// specification `pre` prescribes.
pub open spec fn outcome_matches(
    r: Result<(), Error>,
    pre: (StateV, Option<ErrV>),
    post: StateV,
) -> bool {
    post == pre.0 && match r {
        Result::Ok(_) => pre.1 is None,
        Result::Err(e) => pre.1 == Some(e@),
    }
}

/// The execution engine: the loaded labels, the global variable store,
/// and the output lines produced so far.
pub struct Interpreter {
    labels: Vec<Label>,
    variables: Vec<(String, String)>,
    pub output: Vec<String>,
}

fn assoc_get<'a>(vars: &'a Vec<(String, String)>, name: &str) -> (r: Option<&'a String>)
    requires
        unique_keys(vars@),
    ensures
        match r {
            Option::Some(v) => assoc_map(vars@).contains_key(name@) && v@ == assoc_map(
                vars@,
            ).index(name@),
            Option::None => !assoc_map(vars@).contains_key(name@),
        },
{
    let n = vars.len();
    let mut i: usize = 0;
    while i < n
        invariant
            unique_keys(vars@),
            n == vars@.len(),
            i <= n,
            forall|k: int| 0 <= k < i ==> (#[trigger] vars@[k]).0@ != name@,
        decreases n - i,
    {
        if str_eq(vars[i].0.as_str(), name) {
            proof {
                lemma_assoc_get(vars@, i as int, name@);
            }
            return Some(&vars[i].1);
        }
        i = i + 1;
    }
    proof {
        lemma_assoc_contains(vars@, name@);
        if assoc_map(vars@).contains_key(name@) {
            let k = choose|k: int| 0 <= k < vars@.len() && (#[trigger] vars@[k]).0@ == name@;
            assert(vars@[k].0@ != name@);
        }
    }
    None
}

impl Interpreter {
    pub closed spec fn labels_view(self) -> Seq<LabelV> {
        self.labels.deep_view()
    }

    pub closed spec fn state_view(self) -> StateV {
        StateV { vars: assoc_map(self.variables@), out: self.output.deep_view() }
    }

    /// The store's keys are unique and every loaded line is non-empty.
    pub closed spec fn wf(self) -> bool {
        unique_keys(self.variables@) && labels_wf(self.labels.deep_view())
    }

    /// A fresh engine over the given labels: empty store, empty output.
    #[must_use]
    pub fn new(labels: Vec<Label>) -> (s: Self)
        ensures
            s.labels_view() == labels.deep_view(),
            s.state_view().vars == Map::<Seq<char>, Seq<char>>::empty(),
            s.state_view().out == Seq::<Seq<char>>::empty(),
            labels_wf(labels.deep_view()) ==> s.wf(),
    {
        let s = Self { labels, variables: Vec::new(), output: Vec::new() };
        proof {
            assert(s.state_view().out =~= Seq::<Seq<char>>::empty());
        }
        s
    }

    /// Bind `name` to `value`, overwriting any earlier binding.
    fn set_var(&mut self, name: String, value: String)
        requires
            unique_keys(old(self).variables@),
        ensures
            unique_keys(final(self).variables@),
            final(self).labels == old(self).labels,
            final(self).output == old(self).output,
            assoc_map(final(self).variables@) == assoc_map(old(self).variables@).insert(
                name@,
                value@,
            ),
    {
        let n = self.variables.len();
        let mut i: usize = 0;
        while i < n
            invariant
                unique_keys(self.variables@),
                self.variables@ == old(self).variables@,
                self.labels == old(self).labels,
                self.output == old(self).output,
                n == self.variables@.len(),
                i <= n,
                forall|k: int| 0 <= k < i ==> (#[trigger] self.variables@[k]).0@ != name@,
            decreases n - i,
        {
            if str_eq(self.variables[i].0.as_str(), name.as_str()) {
                proof {
                    assert(self.variables@[i as int].0@ == name@);
                }
                let ghost vs = self.variables@;
                let p = (name, value);
                self.variables.set(i, p);
                proof {
                    lemma_assoc_update(vs, i as int, (p.0, p.1));
                }
                return ;
            }
            i = i + 1;
        }
        let ghost vs = self.variables@;
        proof {
            lemma_assoc_contains(vs, name@);
            if assoc_map(vs).contains_key(name@) {
                let k = choose|k: int| 0 <= k < vs.len() && (#[trigger] vs[k]).0@ == name@;
                assert(vs[k].0@ != name@);
            }
        }
        let ghost namev = name@;
        self.variables.push((name, value));
        proof {
            assert(self.variables@.drop_last() =~= vs);
            assert(unique_keys(self.variables@)) by {
                assert forall|a: int, b: int|
                    0 <= a < b < self.variables@.len() implies (#[trigger] self.variables@[a]).0@
                    != (#[trigger] self.variables@[b]).0@ by {
                    if b == self.variables@.len() - 1 {
                        assert(self.variables@[a] == vs[a]);
                        assert(self.variables@[b].0@ == namev);
                    } else {
                        assert(self.variables@[a] == vs[a]);
                        assert(self.variables@[b] == vs[b]);
                    }
                }
            }
        }
    }

    /// Look a variable up and chase identifier indirection, at most `fuel`
    /// steps past the first lookup.
    fn get_variable(&self, variable_name: &String, fuel: usize, line_number: usize) -> (r: Result<
        (String, Types),
        Error,
    >)
        requires
            unique_keys(self.variables@),
        ensures
            ({
                let s = spec_resolve(
                    assoc_map(self.variables@),
                    variable_name@,
                    fuel as nat,
                    line_number as nat,
                );
                match r {
                    Result::Ok(p) => s == Result::<(Seq<char>, Types), ErrV>::Ok((p.0@, p.1)),
                    Result::Err(e) => s == Result::<(Seq<char>, Types), ErrV>::Err(e@),
                }
            }),
        decreases fuel,
    {
        match assoc_get(&self.variables, variable_name.as_str()) {
            Option::None => Err(
                Error::UndefinedVariable { line_number, name: variable_name.clone() },
            ),
            Option::Some(stored) => {
                let value = stored.clone();
                let t = get_type(value.clone());
                if t == Types::Identifier {
                    if fuel == 0 {
                        Err(Error::CyclicVariable { line_number, name: variable_name.clone() })
                    } else {
                        self.get_variable(&value, fuel - 1, line_number)
                    }
                } else if t == Types::Str {
                    Ok((get_string_content(value), Types::Str))
                } else {
                    Ok((value, t))
                }
            },
        }
    }

    /// One operand of a two-operand command; see [`spec_operand`] for the
    /// deliberate first-argument gate.
    fn resolve_operand(
        &self,
        arg0: &String,
        argk: &String,
        fuel: usize,
        line_number: usize,
    ) -> (r: Result<String, Error>)
        requires
            unique_keys(self.variables@),
        ensures
            ({
                let s = spec_operand(
                    assoc_map(self.variables@),
                    arg0@,
                    argk@,
                    fuel as nat,
                    line_number as nat,
                );
                match r {
                    Result::Ok(v) => s == Result::<Seq<char>, ErrV>::Ok(v@),
                    Result::Err(e) => s == Result::<Seq<char>, ErrV>::Err(e@),
                }
            }),
    {
        let t = get_type(arg0.clone());
        if t == Types::Identifier {
            match self.get_variable(arg0, fuel, line_number) {
                Result::Ok(p) => Ok(p.0),
                Result::Err(e) => Err(e),
            }
        } else {
            Ok(argk.clone())
        }
    }
    /// Dispatch one command. `label_name` is the block being run, used
    /// only in the `require` diagnostic; `line_number` is the line's
    /// 1-based source position; `fuel` bounds further label calls.
    #[verifier::rlimit(100)]
    pub fn interpret_command(
        &mut self,
        command: &str,
        arguments: Vec<String>,
        label_name: String,
        line_number: usize,
        fuel: usize,
    ) -> (r: Result<(), Error>)
        requires
            old(self).wf(),
        ensures
            final(self).wf(),
            final(self).labels_view() == old(self).labels_view(),
            outcome_matches(
                r,
                spec_command(
                    old(self).labels_view(),
                    old(self).state_view(),
                    command@,
                    arguments.deep_view(),
                    label_name@,
                    line_number as nat,
                    fuel as nat,
                ),
                final(self).state_view(),
            ),
        decreases fuel, 0int, arguments@.len(),
    {
        let no_of_args = arguments.len();
        let ghost argsv = arguments.deep_view();
        proof {
            assert(argsv.len() == no_of_args);
        }
        if str_eq(command, "cmt") {
            return Ok(());
        }
        if str_eq(command, "var") {
            if no_of_args != 2 {
                return Err(
                    Error::WrongArgCount {
                        line_number,
                        command: String::from_str(command),
                        expected: 2,
                        found: no_of_args,
                    },
                );
            }
            let name = arguments[0].clone();
            let value = arguments[1].clone();
            proof {
                assert(name@ == argsv[0]);
                assert(value@ == argsv[1]);
            }
            self.set_var(name, value);
            return Ok(());
        }
        if str_eq(command, "jmp") {
            if no_of_args != 1 {
                return Err(
                    Error::WrongArgCount {
                        line_number,
                        command: String::from_str(command),
                        expected: 1,
                        found: no_of_args,
                    },
                );
            }
            let target = arguments[0].clone();
            proof {
                assert(target@ == argsv[0]);
            }
            let known = match crate::ast::find_label(&self.labels, target.as_str()) {
                Option::Some(_) => true,
                Option::None => false,
            };
            if !known {
                return Err(Error::UnknownLabel { line_number, name: target });
            }
            if fuel == 0 {
                return Err(Error::CallDepthExceeded { line_number, name: target });
            }
            return self.interpret_label(target, fuel - 1);
        }
        if str_eq(command, "require") {
            if no_of_args != 1 {
                return Err(
                    Error::WrongArgCount {
                        line_number,
                        command: String::from_str(command),
                        expected: 1,
                        found: no_of_args,
                    },
                );
            }
            proof {
                assert(arguments@[0]@ == argsv[0]);
            }
            let missing = match assoc_get(&self.variables, arguments[0].as_str()) {
                Option::Some(_) => false,
                Option::None => true,
            };
            if missing {
                return Err(
                    Error::RequireFailed {
                        line_number,
                        name: arguments[0].clone(),
                        label: label_name,
                    },
                );
            }
            return Ok(());
        }
        let is_ge = str_eq(command, "test_gt_eq");
        let is_gt = str_eq(command, "test_gt");
        let is_le = str_eq(command, "test_lt_eq");
        let is_lt = str_eq(command, "test_lt");
        if is_ge || is_gt || is_le || is_lt {
            if no_of_args != 2 {
                return Err(
                    Error::WrongArgCount {
                        line_number,
                        command: String::from_str(command),
                        expected: 2,
                        found: no_of_args,
                    },
                );
            }
            proof {
                assert(arguments@[0]@ == argsv[0]);
                assert(arguments@[1]@ == argsv[1]);
                lemma_assoc_size(self.variables@);
            }
            let rfuel = self.variables.len();
            let n1 = match self.resolve_operand(&arguments[0], &arguments[0], rfuel, line_number) {
                Result::Ok(v) => v,
                Result::Err(e) => {
                    return Err(e);
                },
            };
            let n2 = match self.resolve_operand(&arguments[0], &arguments[1], rfuel, line_number) {
                Result::Ok(v) => v,
                Result::Err(e) => {
                    return Err(e);
                },
            };
            if !(get_type(n1.clone()) == Types::Number) {
                return Err(Error::NotNumber { line_number, value: n1 });
            }
            if !(get_type(n2.clone()) == Types::Number) {
                return Err(Error::NotNumber { line_number, value: n2 });
            }
            proof {
                assert(is_number_seq(n1@));
                assert(is_number_seq(n2@));
            }
            let ord = compare_numbers(n1.as_str(), n2.as_str());
            let flag = if is_ge {
                !(ord == Cmp::Lt)
            } else if is_gt {
                ord == Cmp::Gt
            } else if is_le {
                !(ord == Cmp::Gt)
            } else {
                ord == Cmp::Lt
            };
            let flag_str = if flag {
                String::from_str("1")
            } else {
                String::from_str("0")
            };
            self.set_var(String::from_str("TEMP"), flag_str);
            return Ok(());
        }
        if str_eq(command, "test_eq") {
            if no_of_args != 2 {
                return Err(
                    Error::WrongArgCount {
                        line_number,
                        command: String::from_str(command),
                        expected: 2,
                        found: no_of_args,
                    },
                );
            }
            proof {
                assert(arguments@[0]@ == argsv[0]);
                assert(arguments@[1]@ == argsv[1]);
                lemma_assoc_size(self.variables@);
            }
            let rfuel = self.variables.len();
            let n1 = match self.resolve_operand(&arguments[0], &arguments[0], rfuel, line_number) {
                Result::Ok(v) => v,
                Result::Err(e) => {
                    return Err(e);
                },
            };
            let n2 = match self.resolve_operand(&arguments[0], &arguments[1], rfuel, line_number) {
                Result::Ok(v) => v,
                Result::Err(e) => {
                    return Err(e);
                },
            };
            let eq = str_eq(n1.as_str(), n2.as_str());
            let flag_str = if eq {
                String::from_str("1")
            } else {
                String::from_str("0")
            };
            self.set_var(String::from_str("TEMP"), flag_str);
            return Ok(());
        }
        if str_eq(command, "cmd_eq") {
            if no_of_args < 4 {
                return Err(
                    Error::WrongArgCount {
                        line_number,
                        command: String::from_str(command),
                        expected: 4,
                        found: no_of_args,
                    },
                );
            }
            proof {
                assert(arguments@[0]@ == argsv[0]);
                assert(arguments@[1]@ == argsv[1]);
                assert(arguments@[2]@ == argsv[2]);
                lemma_assoc_size(self.variables@);
            }
            let rfuel = self.variables.len();
            let x1 = match self.resolve_operand(&arguments[0], &arguments[0], rfuel, line_number) {
                Result::Ok(v) => v,
                Result::Err(e) => {
                    return Err(e);
                },
            };
            let x2 = match self.resolve_operand(&arguments[0], &arguments[1], rfuel, line_number) {
                Result::Ok(v) => v,
                Result::Err(e) => {
                    return Err(e);
                },
            };
            if str_eq(x1.as_str(), x2.as_str()) {
                let sub = clone_from_index(&arguments, 3);
                let cmd2 = arguments[2].clone();
                proof {
                    assert(sub.deep_view().len() < arguments@.len());
                }
                return self.interpret_command(cmd2.as_str(), sub, label_name, line_number, fuel);
            }
            return Ok(());
        }
        if str_eq(command, "print") {
            if no_of_args != 1 {
                return Err(
                    Error::WrongArgCount {
                        line_number,
                        command: String::from_str(command),
                        expected: 1,
                        found: no_of_args,
                    },
                );
            }
            proof {
                assert(arguments@[0]@ == argsv[0]);
                lemma_assoc_size(self.variables@);
            }
            let rfuel = self.variables.len();
            let x1 = match self.resolve_operand(&arguments[0], &arguments[0], rfuel, line_number) {
                Result::Ok(v) => v,
                Result::Err(e) => {
                    return Err(e);
                },
            };
            let printed = get_string_content(x1);
            let ghost outv = self.output.deep_view();
            self.output.push(printed);
            proof {
                assert(self.output.deep_view() =~~= outv.push(printed@));
            }
            return Ok(());
        }
        Err(Error::UnknownCommand { line_number, command: String::from_str(command) })
    }

    /// Run the named label's lines in order; the first fault stops the
    /// whole run. A name no label carries runs nothing.
    pub fn interpret_label(&mut self, label_name: String, fuel: usize) -> (r: Result<(), Error>)
        requires
            old(self).wf(),
        ensures
            final(self).wf(),
            final(self).labels_view() == old(self).labels_view(),
            outcome_matches(
                r,
                spec_run_label(
                    old(self).labels_view(),
                    old(self).state_view(),
                    label_name@,
                    fuel as nat,
                ),
                final(self).state_view(),
            ),
        decreases fuel, 2int, 0int,
    {
        let ghost labelsv = self.labels.deep_view();
        let code: Vec<(usize, Line)> = match crate::ast::find_label(
            &self.labels,
            label_name.as_str(),
        ) {
            Option::Some(l) => crate::ast::clone_code(&l.label_code),
            Option::None => {
                proof {
                    crate::ast::lemma_code_of_absent(labelsv, label_name@);
                }
                Vec::new()
            },
        };
        let ghost codev = crate::ast::code_view(code@);
        proof {
            assert(codev == spec_code_of(labelsv, label_name@)) by {
                if code@.len() == 0 {
                    assert(codev =~= Seq::<(nat, Seq<Seq<char>>)>::empty());
                }
            }
            assert(forall|j: int| 0 <= j < codev.len() ==> (#[trigger] codev[j]).1.len() > 0) by {
                if spec_has_label(labelsv, label_name@) {
                    let k = choose|k: int|
                        0 <= k < labelsv.len() && codev == (#[trigger] labelsv[k]).code;
                    assert forall|j: int|
                        0 <= j < codev.len() implies (#[trigger] codev[j]).1.len() > 0 by {
                        assert(labelsv[k].code[j].1.len() > 0);
                    }
                }
            }
        }
        let n = code.len();
        let ghost st0 = self.state_view();
        let mut i: usize = 0;
        while i < n
            invariant
                self.wf(),
                self.labels.deep_view() == labelsv,
                labelsv == old(self).labels_view(),
                st0 == old(self).state_view(),
                codev == spec_code_of(labelsv, label_name@),
                n == code@.len(),
                codev == crate::ast::code_view(code@),
                codev.len() == n,
                i <= n,
                forall|j: int| 0 <= j < codev.len() ==> (#[trigger] codev[j]).1.len() > 0,
                spec_run_label(labelsv, st0, label_name@, fuel as nat) == spec_run_lines(
                    labelsv,
                    self.state_view(),
                    codev,
                    i as int,
                    label_name@,
                    fuel as nat,
                ),
            decreases n - i,
        {
            let line_no = code[i].0;
            let ghost linev = codev[i as int].1;
            proof {
                assert(codev[i as int] == (code@[i as int].0 as nat, code@[i as int].1@));
                assert(linev.len() > 0);
            }
            let cmd_s = code[i].1.0[0].clone();
            let args = clone_from_index(&code[i].1.0, 1);
            proof {
                assert(cmd_s@ == code@[i as int].1.0@[0]@);
                assert(code@[i as int].1.0@[0]@ == linev[0]);
                assert(args.deep_view() == linev.subrange(1, linev.len() as int));
            }
            let res = self.interpret_command(cmd_s.as_str(), args, label_name.clone(), line_no, fuel);
            match res {
                Result::Ok(_) => {},
                Result::Err(e) => {
                    return Err(e);
                },
            }
            i = i + 1;
        }
        Ok(())
    }

    /// Seed the reserved `TEMP` variable with the empty string, then run
    /// the `.ENTRY` label to completion.
    pub fn interpret(&mut self) -> (r: Result<(), Error>)
        requires
            old(self).wf(),
        ensures
            final(self).wf(),
            final(self).labels_view() == old(self).labels_view(),
            outcome_matches(
                r,
                spec_interpret(old(self).labels_view(), old(self).state_view()),
                final(self).state_view(),
            ),
    {
        let temp_name = String::from_str("TEMP");
        let empty_val = String::new();
        self.set_var(temp_name, empty_val);
        self.interpret_label(String::from_str(".ENTRY"), CALL_DEPTH_LIMIT)
    }
}

/// The characters of the tokens from index `from` on, cloned.
fn clone_from_index(v: &Vec<String>, from: usize) -> (r: Vec<String>)
    requires
        from <= v@.len(),
    ensures
        r.deep_view() == v.deep_view().subrange(from as int, v.deep_view().len() as int),
{
    let n = v.len();
    let mut r: Vec<String> = Vec::new();
    let mut i: usize = from;
    while i < n
        invariant
            n == v@.len(),
            from <= i <= n,
            r@.len() == i - from,
            forall|k: int| 0 <= k < r@.len() ==> #[trigger] r@[k]@ == v@[k + from]@,
        decreases n - i,
    {
        r.push(v[i].clone());
        i = i + 1;
    }
    proof {
        assert(r.deep_view() =~~= v.deep_view().subrange(from as int, v.deep_view().len() as int));
    }
    r
}

/// Decide whether every line of every block still has a command token, as
/// [`Interpreter::interpret`] requires of hand-built labels.
pub fn labels_well_formed(labels: &Vec<Label>) -> (b: bool)
    ensures
        b == labels_wf(labels.deep_view()),
{
    let ghost lv = labels.deep_view();
    let nk = labels.len();
    let mut k: usize = 0;
    while k < nk
        invariant
            lv == labels.deep_view(),
            nk == labels@.len(),
            nk == lv.len(),
            k <= nk,
            forall|a: int, j: int|
                0 <= a < k && 0 <= j < (#[trigger] lv[a]).code.len() ==> (
                #[trigger] lv[a].code[j]).1.len() > 0,
        decreases nk - k,
    {
        proof {
            assert(lv[k as int] == labels@[k as int]@);
        }
        let nj = labels[k].label_code.len();
        let mut j: usize = 0;
        while j < nj
            invariant
                lv == labels.deep_view(),
                nk == labels@.len(),
                k < nk,
                lv[k as int] == labels@[k as int]@,
                nj == labels@[k as int].label_code@.len(),
                j <= nj,
                forall|b: int|
                    0 <= b < j ==> (#[trigger] lv[k as int].code[b]).1.len() > 0,
            decreases nj - j,
        {
            proof {
                assert(lv[k as int].code[j as int] == (
                    labels@[k as int].label_code@[j as int].0 as nat,
                    labels@[k as int].label_code@[j as int].1@,
                ));
            }
            if labels[k].label_code[j].1.0.len() == 0 {
                return false;
            }
            j = j + 1;
        }
        k = k + 1;
    }
    true
}

/// The command names are pairwise distinct texts; the dispatch order in
/// [`spec_command`] never confuses one for another.
proof fn lemma_command_names_distinct()
    ensures
        "var"@ != "cmt"@,
        "jmp"@ != "cmt"@,
        "jmp"@ != "var"@,
        "print"@ != "cmt"@,
        "print"@ != "var"@,
        "print"@ != "jmp"@,
        "print"@ != "require"@,
        "print"@ != "test_gt_eq"@,
        "print"@ != "test_gt"@,
        "print"@ != "test_lt_eq"@,
        "print"@ != "test_lt"@,
        "print"@ != "test_eq"@,
        "print"@ != "cmd_eq"@,
        "cmd_eq"@ != "cmt"@,
        "cmd_eq"@ != "var"@,
        "cmd_eq"@ != "jmp"@,
        "cmd_eq"@ != "require"@,
        "cmd_eq"@ != "test_gt_eq"@,
        "cmd_eq"@ != "test_gt"@,
        "cmd_eq"@ != "test_lt_eq"@,
        "cmd_eq"@ != "test_lt"@,
        "cmd_eq"@ != "test_eq"@,
{
    reveal_strlit("cmt");
    reveal_strlit("var");
    reveal_strlit("jmp");
    reveal_strlit("require");
    reveal_strlit("test_gt_eq");
    reveal_strlit("test_gt");
    reveal_strlit("test_lt_eq");
    reveal_strlit("test_lt");
    reveal_strlit("test_eq");
    reveal_strlit("cmd_eq");
    reveal_strlit("print");
    assert("cmt"@.len() == 3);
    assert("var"@.len() == 3);
    assert("jmp"@.len() == 3);
    assert("require"@.len() == 7);
    assert("test_gt_eq"@.len() == 10);
    assert("test_gt"@.len() == 7);
    assert("test_lt_eq"@.len() == 10);
    assert("test_lt"@.len() == 7);
    assert("test_eq"@.len() == 7);
    assert("cmd_eq"@.len() == 6);
    assert("print"@.len() == 5);
    assert("var"@[0] == 'v');
    assert("cmt"@[0] == 'c');
    assert("jmp"@[0] == 'j');
}

/// Binding a variable and printing it immediately outputs the unquoted,
/// unescaped payload of the bound value: `var x v` followed by `print x`
/// appends exactly `spec_payload(v)` to the output and changes nothing
/// else beyond the binding. The value must not itself classify as an
/// identifier (that would chase a further variable), and a quoted value's
/// payload must not again be quote-delimited (printing strips quotes once
/// more).
pub proof fn lemma_var_then_print(
    labels: Seq<LabelV>,
    st: StateV,
    x: Seq<char>,
    v: Seq<char>,
    label_name: Seq<char>,
    no1: nat,
    no2: nat,
    fuel: nat,
)
    requires
        spec_classify(x) == Types::Identifier,
        spec_classify(v) != Types::Identifier,
        spec_classify(v) == Types::Str ==> !crate::token::is_quoted(spec_payload(v)),
    ensures
        ({
            let r1 = spec_command(labels, st, "var"@, seq![x, v], label_name, no1, fuel);
            let r2 = spec_command(labels, r1.0, "print"@, seq![x], label_name, no2, fuel);
            r1.1 is None && r2.1 is None && r1.0.vars == st.vars.insert(x, v) && r2.0.vars
                == r1.0.vars && r2.0.out == st.out.push(spec_payload(v))
        }),
{
    lemma_command_names_distinct();
    let args1 = seq![x, v];
    assert(args1.len() == 2);
    let r1 = spec_command(labels, st, "var"@, args1, label_name, no1, fuel);
    assert(r1.0.vars == st.vars.insert(x, v));
    let vars1 = r1.0.vars;
    assert(vars1.contains_key(x));
    assert(vars1[x] == v);
    let args2 = seq![x];
    assert(args2.len() == 1);
    let rfuel = vars1.dom().len();
    let res = spec_resolve(vars1, x, rfuel, no2);
    assert(res == Result::<(Seq<char>, Types), ErrV>::Ok(
        (
            if spec_classify(v) == Types::Str {
                spec_payload(v)
            } else {
                v
            },
            spec_classify(v),
        ),
    ));
    let r2 = spec_command(labels, r1.0, "print"@, args2, label_name, no2, fuel);
    if spec_classify(v) == Types::Str {
        assert(spec_payload(spec_payload(v)) == spec_payload(v));
    }
    assert(r2.0.out == st.out.push(spec_payload(v)));
}

/// `jmp` has call semantics: a line `jmp target` inside a block first runs
/// the target label's whole body, and when that body completes without a
/// fault, execution continues with the line after the jump, carrying the
/// called body's state.
pub proof fn lemma_jmp_is_call(
    labels: Seq<LabelV>,
    st: StateV,
    code: Seq<(nat, Seq<Seq<char>>)>,
    i: int,
    label_name: Seq<char>,
    fuel: nat,
    target: Seq<char>,
)
    requires
        0 <= i < code.len(),
        code[i].1 == seq!["jmp"@, target],
        spec_has_label(labels, target),
        fuel > 0,
    ensures
        ({
            let r = spec_run_label(labels, st, target, (fuel - 1) as nat);
            spec_run_lines(labels, st, code, i, label_name, fuel) == (match r.1 {
                Some(e) => (r.0, Some(e)),
                None => spec_run_lines(labels, r.0, code, i + 1, label_name, fuel),
            })
        }),
{
    lemma_command_names_distinct();
    let line = code[i].1;
    assert(line.len() == 2);
    assert(line[0] == "jmp"@);
    assert(line.subrange(1, 2) =~= seq![target]);
    let c = spec_command(labels, st, "jmp"@, seq![target], label_name, code[i].0, fuel);
    assert(c == spec_run_label(labels, st, target, (fuel - 1) as nat));
}

/// `cmd_eq` dispatches its trailing command exactly once when the two
/// resolved operands are equal, and does nothing at all when they differ.
pub proof fn lemma_cmd_eq_dispatch(
    labels: Seq<LabelV>,
    st: StateV,
    args: Seq<Seq<char>>,
    label_name: Seq<char>,
    no: nat,
    fuel: nat,
)
    requires
        args.len() >= 4,
        spec_operand(st.vars, args[0], args[0], st.vars.dom().len(), no) is Ok,
        spec_operand(st.vars, args[0], args[1], st.vars.dom().len(), no) is Ok,
    ensures
        ({
            let x1 = spec_operand(st.vars, args[0], args[0], st.vars.dom().len(), no)->Ok_0;
            let x2 = spec_operand(st.vars, args[0], args[1], st.vars.dom().len(), no)->Ok_0;
            &&& (x1 == x2 ==> spec_command(labels, st, "cmd_eq"@, args, label_name, no, fuel)
                == spec_command(
                labels,
                st,
                args[2],
                args.subrange(3, args.len() as int),
                label_name,
                no,
                fuel,
            ))
            &&& (x1 != x2 ==> spec_command(labels, st, "cmd_eq"@, args, label_name, no, fuel) == (
            st,
            Option::<ErrV>::None,
            ))
        }),
{
    lemma_command_names_distinct();
}

/// A line whose command is none of the known ones stops the run at once:
/// the state is exactly what it was, the fault names that command and
/// line, and no later line of the block has any effect.
pub proof fn lemma_unknown_command_stops(
    labels: Seq<LabelV>,
    st: StateV,
    code: Seq<(nat, Seq<Seq<char>>)>,
    i: int,
    label_name: Seq<char>,
    fuel: nat,
)
    requires
        0 <= i < code.len(),
        code[i].1.len() > 0,
        code[i].1[0] != "cmt"@,
        code[i].1[0] != "var"@,
        code[i].1[0] != "jmp"@,
        code[i].1[0] != "require"@,
        code[i].1[0] != "test_gt_eq"@,
        code[i].1[0] != "test_gt"@,
        code[i].1[0] != "test_lt_eq"@,
        code[i].1[0] != "test_lt"@,
        code[i].1[0] != "test_eq"@,
        code[i].1[0] != "cmd_eq"@,
        code[i].1[0] != "print"@,
    ensures
        spec_run_lines(labels, st, code, i, label_name, fuel) == (
            st,
            Option::Some(
                ErrV::UnknownCommand { line_number: code[i].0, command: code[i].1[0] },
            ),
        ),
{
    let line = code[i].1;
    let c = spec_command(
        labels,
        st,
        line[0],
        line.subrange(1, line.len() as int),
        label_name,
        code[i].0,
        fuel,
    );
    assert(c.0 == st);
    assert(c.1 == Option::Some(
        ErrV::UnknownCommand { line_number: code[i].0, command: line[0] },
    ));
}

/// Labels produced by the loader are well-formed: the loader never seals
/// an empty line into a block, so a loaded program satisfies what
/// [`Interpreter::interpret`] requires.
pub proof fn lemma_load_well_formed(lines: Seq<Seq<Seq<char>>>)
    ensures
        crate::ast::spec_load(lines) matches Ok(labels) ==> labels_wf(labels),
{
    lemma_load_from_wf(lines, 0, crate::ast::spec_load_init());
}

proof fn lemma_load_from_wf(lines: Seq<Seq<Seq<char>>>, i: int, st: crate::ast::LoadSt)
    requires
        labels_wf(st.sealed),
        forall|j: int| 0 <= j < st.cur_code.len() ==> (#[trigger] st.cur_code[j]).1.len() > 0,
    ensures
        crate::ast::load_from(lines, i, st) matches Ok(labels) ==> labels_wf(labels),
    decreases lines.len() - i,
{
    if i < 0 || i >= lines.len() {
        let sealed = st.sealed.push(LabelV { name: st.cur_name, code: st.cur_code });
        assert(labels_wf(sealed)) by {
            assert forall|k: int, j: int|
                0 <= k < sealed.len() && 0 <= j < (#[trigger] sealed[k]).code.len() implies (
            #[trigger] sealed[k].code[j]).1.len() > 0 by {
                if k < sealed.len() - 1 {
                    assert(sealed[k] == st.sealed[k]);
                } else {
                    assert(sealed[k].code == st.cur_code);
                }
            }
        }
    } else {
        let line = lines[i];
        if line.len() == 0 {
            lemma_load_from_wf(lines, i + 1, st);
        } else if line[0] == "label"@ {
            if line.len() == 2 {
                let sealed = st.sealed.push(LabelV { name: st.cur_name, code: st.cur_code });
                let new_name = line[1];
                if !spec_has_label(sealed, new_name) {
                    assert(labels_wf(sealed)) by {
                        assert forall|k: int, j: int|
                            0 <= k < sealed.len() && 0 <= j < (#[trigger] sealed[k]).code.len()
                            implies (#[trigger] sealed[k].code[j]).1.len() > 0 by {
                            if k < sealed.len() - 1 {
                                assert(sealed[k] == st.sealed[k]);
                            } else {
                                assert(sealed[k].code == st.cur_code);
                            }
                        }
                    }
                    lemma_load_from_wf(
                        lines,
                        i + 1,
                        crate::ast::LoadSt {
                            sealed,
                            cur_name: new_name,
                            cur_code: Seq::empty(),
                        },
                    );
                }
            }
        } else {
            let cur2 = st.cur_code.push((((i + 1) as nat), line));
            assert(forall|j: int| 0 <= j < cur2.len() ==> (#[trigger] cur2[j]).1.len() > 0);
            lemma_load_from_wf(
                lines,
                i + 1,
                crate::ast::LoadSt {
                    sealed: st.sealed,
                    cur_name: st.cur_name,
                    cur_code: cur2,
                },
            );
        }
    }
}

} // verus!
