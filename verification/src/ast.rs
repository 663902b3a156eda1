//! Labeled blocks and the program loader.
//!
//! The loader partitions tokenized lines into labels. A running label name
//! starts as the empty string; each `label <name>` directive seals the
//! lines gathered so far under the previous name and opens a new block.
//! Content before the first directive is sealed under the empty name and
//! never executed. Loading fails on a malformed directive, on a duplicate
//! name, and when no `.ENTRY` label exists.

use vstd::prelude::*;

use crate::error::Error;
use crate::error::ErrV;
use crate::lexer::Line;
use crate::token::str_eq;

verus! {

/// A named, ordered block of instruction lines, each tagged with its
/// 1-based line number in the original source.
#[derive(PartialEq, Eq, Debug, Clone)]
pub struct Label {
    pub label_name: String,
    pub label_code: Vec<(usize, Line)>,
}

/// The mathematical shape of a [`Label`].
#[verifier::ext_equal]
pub struct LabelV {
    pub name: Seq<char>,
    pub code: Seq<(nat, Seq<Seq<char>>)>,
}

/// The shape of a block body: 1-based line numbers with token sequences.
pub open spec fn code_view(code: Seq<(usize, Line)>) -> Seq<(nat, Seq<Seq<char>>)> {
    code.map_values(|p: (usize, Line)| (p.0 as nat, p.1@))
}

impl View for Label {
    type V = LabelV;

    open spec fn view(&self) -> LabelV {
        LabelV { name: self.label_name@, code: code_view(self.label_code@) }
    }
}

impl DeepView for Label {
    type V = LabelV;

    open spec fn deep_view(&self) -> LabelV {
        self.view()
    }
}

pub open spec fn spec_has_label(labels: Seq<LabelV>, name: Seq<char>) -> bool {
    exists|i: int| 0 <= i < labels.len() && (#[trigger] labels[i]).name == name
}

/// The body of the first label with the given name; empty when none has it.
pub open spec fn spec_code_of(labels: Seq<LabelV>, name: Seq<char>) -> Seq<(nat, Seq<Seq<char>>)>
    decreases labels.len(),
{
    if labels.len() == 0 {
        Seq::empty()
    } else if labels[0].name == name {
        labels[0].code
    } else {
        spec_code_of(labels.subrange(1, labels.len() as int), name)
    }
}

pub(crate) fn find_label<'a>(labels: &'a Vec<Label>, name: &str) -> (r: Option<&'a Label>)
    ensures
        match r {
            Option::Some(l) => spec_has_label(labels.deep_view(), name@) && l@.code == spec_code_of(
                labels.deep_view(),
                name@,
            ) && (exists|k: int|
                0 <= k < labels.deep_view().len() && l@ == (#[trigger] labels.deep_view()[k])),
            Option::None => !spec_has_label(labels.deep_view(), name@),
        },
{
    let n = labels.len();
    let ghost lv = labels.deep_view();
    let mut i: usize = 0;
    proof {
        assert(lv.subrange(0, n as int) =~= lv);
    }
    while i < n
        invariant
            lv == labels.deep_view(),
            n == lv.len(),
            n == labels@.len(),
            i <= n,
            forall|k: int| 0 <= k < i ==> (#[trigger] lv[k]).name != name@,
            spec_code_of(lv, name@) == spec_code_of(lv.subrange(i as int, n as int), name@),
        decreases n - i,
    {
        proof {
            assert(lv[i as int] == labels@[i as int]@);
        }
        if str_eq(labels[i].label_name.as_str(), name) {
            proof {
                let rest = lv.subrange(i as int, n as int);
                assert(rest[0] == lv[i as int]);
                assert(spec_code_of(rest, name@) == lv[i as int].code);
                assert(labels@[i as int]@ == lv[i as int]);
            }
            return Some(&labels[i]);
        }
        proof {
            let rest = lv.subrange(i as int, n as int);
            assert(rest[0] == lv[i as int]);
            assert(rest.subrange(1, rest.len() as int) =~= lv.subrange(i + 1, n as int));
        }
        i = i + 1;
    }
    proof {
        assert(lv.subrange(n as int, n as int) =~= Seq::<LabelV>::empty());
        if spec_has_label(lv, name@) {
            let k = choose|k: int| 0 <= k < lv.len() && (#[trigger] lv[k]).name == name@;
            assert(lv[k].name != name@);
        }
    }
    None
}

/// Whether some label carries the given name.
#[must_use]
pub fn has_label(labels: Vec<Label>, label_name: String) -> (r: bool)
    ensures
        r == spec_has_label(labels.deep_view(), label_name@),
{
    match find_label(&labels, label_name.as_str()) {
        Option::Some(_) => true,
        Option::None => false,
    }
}

pub(crate) fn clone_string_vec(v: &Vec<String>) -> (r: Vec<String>)
    ensures
        r.deep_view() == v.deep_view(),
{
    let n = v.len();
    let mut r: Vec<String> = Vec::new();
    let mut i: usize = 0;
    while i < n
        invariant
            n == v@.len(),
            i <= n,
            r@.len() == i,
            forall|k: int| 0 <= k < i ==> #[trigger] r@[k]@ == v@[k]@,
        decreases n - i,
    {
        r.push(v[i].clone());
        i = i + 1;
    }
    proof {
        assert(r.deep_view() =~~= v.deep_view());
    }
    r
}

pub(crate) fn clone_line(l: &Line) -> (r: Line)
    ensures
        r@ == l@,
{
    Line(clone_string_vec(&l.0))
}

pub(crate) fn clone_code(v: &Vec<(usize, Line)>) -> (r: Vec<(usize, Line)>)
    ensures
        code_view(r@) == code_view(v@),
{
    let n = v.len();
    let mut r: Vec<(usize, Line)> = Vec::new();
    let mut i: usize = 0;
    while i < n
        invariant
            n == v@.len(),
            i <= n,
            r@.len() == i,
            forall|k: int|
                0 <= k < i ==> (#[trigger] r@[k]).0 == v@[k].0 && r@[k].1@ == v@[k].1@,
        decreases n - i,
    {
        let num = v[i].0;
        let line = clone_line(&v[i].1);
        r.push((num, line));
        i = i + 1;
    }
    proof {
        assert(code_view(r@) =~~= code_view(v@));
    }
    r
}

/// The body of the first label with the given name; empty when none has it.
#[must_use]
pub fn get_code_from(labels: Vec<Label>, label_name: String) -> (r: Vec<(usize, Line)>)
    ensures
        code_view(r@) == spec_code_of(labels.deep_view(), label_name@),
{
    match find_label(&labels, label_name.as_str()) {
        Option::Some(l) => clone_code(&l.label_code),
        Option::None => {
            let r: Vec<(usize, Line)> = Vec::new();
            proof {
                assert(code_view(r@) =~~= Seq::<(nat, Seq<Seq<char>>)>::empty());
                lemma_code_of_absent(labels.deep_view(), label_name@);
            }
            r
        },
    }
}

pub(crate) proof fn lemma_code_of_absent(labels: Seq<LabelV>, name: Seq<char>)
    requires
        !spec_has_label(labels, name),
    ensures
        spec_code_of(labels, name) == Seq::<(nat, Seq<Seq<char>>)>::empty(),
    decreases labels.len(),
{
    if labels.len() > 0 {
        assert(labels[0].name != name);
        let rest = labels.subrange(1, labels.len() as int);
        assert(!spec_has_label(rest, name)) by {
            if spec_has_label(rest, name) {
                let k = choose|k: int| 0 <= k < rest.len() && (#[trigger] rest[k]).name == name;
                assert(labels[k + 1].name == name);
            }
        }
        lemma_code_of_absent(rest, name);
    }
}

/// The loader's running state: sealed labels, the current name, and the
/// lines gathered for it so far.
#[verifier::ext_equal]
pub struct LoadSt {
    pub sealed: Seq<LabelV>,
    pub cur_name: Seq<char>,
    pub cur_code: Seq<(nat, Seq<Seq<char>>)>,
}

/// Process the tokenized lines from index `i` on. Empty lines are
/// dropped; a `label` directive seals the current block; any other line
/// joins the current block, tagged with its 1-based number. At the end the
/// last block is sealed unconditionally and `.ENTRY` must exist.
pub open spec fn load_from(lines: Seq<Seq<Seq<char>>>, i: int, st: LoadSt) -> Result<
    Seq<LabelV>,
    ErrV,
>
    decreases lines.len() - i,
{
    if i < 0 || i >= lines.len() {
        let sealed = st.sealed.push(LabelV { name: st.cur_name, code: st.cur_code });
        if spec_has_label(sealed, ".ENTRY"@) {
            Ok(sealed)
        } else {
            Err(ErrV::MissingEntry)
        }
    } else {
        let line = lines[i];
        let no = (i + 1) as nat;
        if line.len() == 0 {
            load_from(lines, i + 1, st)
        } else if line[0] == "label"@ {
            if line.len() != 2 {
                Err(ErrV::LabelUsage { line_number: no, found: (line.len() - 1) as nat })
            } else {
                let sealed = st.sealed.push(LabelV { name: st.cur_name, code: st.cur_code });
                let new_name = line[1];
                if spec_has_label(sealed, new_name) {
                    Err(ErrV::DuplicateLabel { line_number: no, name: new_name })
                } else {
                    load_from(
                        lines,
                        i + 1,
                        LoadSt { sealed, cur_name: new_name, cur_code: Seq::empty() },
                    )
                }
            }
        } else {
            load_from(
                lines,
                i + 1,
                LoadSt {
                    sealed: st.sealed,
                    cur_name: st.cur_name,
                    cur_code: st.cur_code.push((no, line)),
                },
            )
        }
    }
}

pub open spec fn spec_load_init() -> LoadSt {
    LoadSt { sealed: Seq::empty(), cur_name: Seq::empty(), cur_code: Seq::empty() }
}

/// What [`load`] yields on the given tokenized lines.
pub open spec fn spec_load(lines: Seq<Seq<Seq<char>>>) -> Result<Seq<LabelV>, ErrV> {
    load_from(lines, 0, spec_load_init())
}

/// Group tokenized lines into labeled blocks.
pub fn load(lines: Vec<Line>) -> (r: Result<Vec<Label>, Error>)
    ensures
        match r {
            Result::Ok(labels) => spec_load(lines.deep_view()) == Result::<_, ErrV>::Ok(
                labels.deep_view(),
            ),
            Result::Err(e) => spec_load(lines.deep_view()) == Result::<Seq<LabelV>, ErrV>::Err(e@),
        },
{
    let ghost linesv = lines.deep_view();
    let n = lines.len();
    let mut labels: Vec<Label> = Vec::new();
    let mut cur_name = String::new();
    let mut cur_code: Vec<(usize, Line)> = Vec::new();
    let mut i: usize = 0;
    proof {
        assert(labels.deep_view() =~= Seq::<LabelV>::empty());
        assert(code_view(cur_code@) =~~= Seq::<(nat, Seq<Seq<char>>)>::empty());
        let st0 = LoadSt {
            sealed: labels.deep_view(),
            cur_name: cur_name@,
            cur_code: code_view(cur_code@),
        };
        assert(st0 =~~= spec_load_init());
    }
    while i < n
        invariant
            linesv == lines.deep_view(),
            n == linesv.len(),
            n == lines@.len(),
            i <= n,
            spec_load(linesv) == load_from(
                linesv,
                i as int,
                LoadSt {
                    sealed: labels.deep_view(),
                    cur_name: cur_name@,
                    cur_code: code_view(cur_code@),
                },
            ),
        decreases n - i,
    {
        proof {
            assert(linesv[i as int] == lines@[i as int]@);
        }
        let ghost st = LoadSt {
            sealed: labels.deep_view(),
            cur_name: cur_name@,
            cur_code: code_view(cur_code@),
        };
        let line_len = lines[i].0.len();
        if line_len == 0 {
            i = i + 1;
            continue ;
        }
        proof {
            assert(lines@[i as int]@[0] == lines@[i as int].0@[0]@);
        }
        if str_eq(lines[i].0[0].as_str(), "label") {
            proof {
                reveal_strlit("label");
            }
            if line_len != 2 {
                return Err(Error::LabelUsage { line_number: i + 1, found: line_len - 1 });
            }
            let ghost dv = labels.deep_view();
            labels.push(Label { label_name: cur_name, label_code: cur_code });
            proof {
                assert(labels.deep_view() =~~= dv.push(
                    LabelV { name: st.cur_name, code: st.cur_code },
                ));
            }
            let new_name = lines[i].0[1].clone();
            proof {
                assert(new_name@ == lines@[i as int]@[1]);
            }
            match find_label(&labels, new_name.as_str()) {
                Option::Some(_) => {
                    return Err(Error::DuplicateLabel { line_number: i + 1, name: new_name });
                },
                Option::None => {},
            }
            cur_name = new_name;
            cur_code = Vec::new();
            proof {
                assert(code_view(cur_code@) =~~= Seq::<(nat, Seq<Seq<char>>)>::empty());
            }
        } else {
            proof {
                reveal_strlit("label");
            }
            let copied = clone_line(&lines[i]);
            let ghost cv = code_view(cur_code@);
            cur_code.push((i + 1, copied));
            proof {
                assert(code_view(cur_code@) =~~= cv.push(((i + 1) as nat, linesv[i as int])));
            }
        }
        i = i + 1;
    }
    let ghost st = LoadSt {
        sealed: labels.deep_view(),
        cur_name: cur_name@,
        cur_code: code_view(cur_code@),
    };
    let ghost dv = labels.deep_view();
    labels.push(Label { label_name: cur_name, label_code: cur_code });
    proof {
        assert(labels.deep_view() =~~= dv.push(LabelV { name: st.cur_name, code: st.cur_code }));
    }
    match find_label(&labels, ".ENTRY") {
        Option::Some(_) => {
            proof {
                reveal_strlit(".ENTRY");
            }
            Ok(labels)
        },
        Option::None => {
            proof {
                reveal_strlit(".ENTRY");
            }
            Err(Error::MissingEntry)
        },
    }
}

/// A loaded program always contains the `.ENTRY` label: when loading
/// succeeds, the entry block exists; a source that declares no `.ENTRY`
/// cannot load, so none of its instructions can ever run.
pub proof fn lemma_load_requires_entry(lines: Seq<Seq<Seq<char>>>)
    ensures
        spec_load(lines) matches Ok(labels) ==> spec_has_label(labels, ".ENTRY"@),
{
    lemma_load_from_entry(lines, 0, spec_load_init());
}

proof fn lemma_load_from_entry(lines: Seq<Seq<Seq<char>>>, i: int, st: LoadSt)
    ensures
        load_from(lines, i, st) matches Ok(labels) ==> spec_has_label(labels, ".ENTRY"@),
    decreases lines.len() - i,
{
    if i < 0 || i >= lines.len() {
    } else {
        let line = lines[i];
        if line.len() == 0 {
            lemma_load_from_entry(lines, i + 1, st);
        } else if line[0] == "label"@ {
            if line.len() == 2 {
                let sealed = st.sealed.push(LabelV { name: st.cur_name, code: st.cur_code });
                let new_name = line[1];
                if !spec_has_label(sealed, new_name) {
                    lemma_load_from_entry(
                        lines,
                        i + 1,
                        LoadSt { sealed, cur_name: new_name, cur_code: Seq::empty() },
                    );
                }
            }
        } else {
            lemma_load_from_entry(
                lines,
                i + 1,
                LoadSt {
                    sealed: st.sealed,
                    cur_name: st.cur_name,
                    cur_code: st.cur_code.push((((i + 1) as nat), line)),
                },
            );
        }
    }
}

pub open spec fn distinct_names(labels: Seq<LabelV>) -> bool {
    forall|i: int, j: int|
        0 <= i < j < labels.len() ==> (#[trigger] labels[i]).name != (#[trigger] labels[j]).name
}

/// Loaded label names are unique: a source that declares the same label
/// name twice cannot load, so none of its instructions can ever run.
pub proof fn lemma_load_labels_unique(lines: Seq<Seq<Seq<char>>>)
    ensures
        spec_load(lines) matches Ok(labels) ==> distinct_names(labels),
{
    assert(distinct_names(Seq::empty()));
    lemma_load_from_unique(lines, 0, spec_load_init());
}

proof fn lemma_load_from_unique(lines: Seq<Seq<Seq<char>>>, i: int, st: LoadSt)
    requires
        distinct_names(st.sealed),
        forall|k: int| 0 <= k < st.sealed.len() ==> (#[trigger] st.sealed[k]).name != st.cur_name,
    ensures
        load_from(lines, i, st) matches Ok(labels) ==> distinct_names(labels),
    decreases lines.len() - i,
{
    if i < 0 || i >= lines.len() {
        let sealed = st.sealed.push(LabelV { name: st.cur_name, code: st.cur_code });
        assert(distinct_names(sealed));
    } else {
        let line = lines[i];
        if line.len() == 0 {
            lemma_load_from_unique(lines, i + 1, st);
        } else if line[0] == "label"@ {
            if line.len() == 2 {
                let sealed = st.sealed.push(LabelV { name: st.cur_name, code: st.cur_code });
                let new_name = line[1];
                if !spec_has_label(sealed, new_name) {
                    assert(distinct_names(sealed));
                    assert(forall|k: int|
                        0 <= k < sealed.len() ==> (#[trigger] sealed[k]).name != new_name);
                    lemma_load_from_unique(
                        lines,
                        i + 1,
                        LoadSt { sealed, cur_name: new_name, cur_code: Seq::empty() },
                    );
                }
            }
        } else {
            lemma_load_from_unique(
                lines,
                i + 1,
                LoadSt {
                    sealed: st.sealed,
                    cur_name: st.cur_name,
                    cur_code: st.cur_code.push((((i + 1) as nat), line)),
                },
            );
        }
    }
}

} // verus!
