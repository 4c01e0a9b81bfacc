//! The statement model: one parsed unit per input line (label, directive,
//! instruction, unrecognized line, or blank), its ghost view, the
//! line-classification function that gives the parser its meaning, and the
//! canonical textual rendering of a statement.

use vstd::prelude::*;

use crate::text::{
    digit_run, dec_val, dec_str, is_ws, is_label_char, scan_to, trim, trim_start,
};

verus! {

/// How a label identifier is classified, by naming convention.
#[derive(Clone, Copy, Debug, PartialEq, Eq, Structural)]
pub enum LabelKind {
    Global,
    Local,
    Temp,
    Unknown,
}

#[derive(Clone, Debug)]
pub struct Label {
    pub id: String,
    pub kind: LabelKind,
}

#[derive(Clone, Debug)]
pub struct Instruction {
    pub mnemonic: String,
    pub args: Option<String>,
}

#[derive(Clone, Debug)]
pub struct FileDirective {
    pub index: u64,
    pub path: String,
}

/// A debug-location directive; `column == 0` means "no column recorded",
/// `line == 0` means "no associated source line".  `extra` preserves any
/// trailing annotation tokens verbatim.
#[derive(Clone, Debug)]
pub struct Loc {
    pub file: u64,
    pub line: u32,
    pub column: u32,
    pub extra: String,
}

#[derive(Clone, Debug)]
pub struct SetDirective {
    pub name: String,
    pub value: String,
}

#[derive(Clone, Debug)]
pub enum Directive {
    File(FileDirective),
    Loc(Loc),
    SectionStart(String),
    SetDir(SetDirective),
    SubsectionsViaSym,
    Generic(String),
}

#[derive(Clone, Debug)]
pub enum Statement {
    Label(Label),
    Directive(Directive),
    Instruction(Instruction),
    Nothing,
    Dunno(String),
}

/// Ghost view of a statement, over character sequences.
#[verifier::ext_equal]
pub ghost enum StmtView {
    Nothing,
    Dunno { text: Seq<char> },
    Lab { id: Seq<char>, kind: LabelKind },
    Inst { mnemonic: Seq<char>, args: Option<Seq<char>> },
    FileDir { index: int, path: Seq<char> },
    LocDir { file: int, line: int, column: int, extra: Seq<char> },
    Section { name: Seq<char> },
    SetD { name: Seq<char>, value: Seq<char> },
    Svs,
    Dir { text: Seq<char> },
}

impl View for Statement {
    type V = StmtView;

    open spec fn view(&self) -> StmtView {
        match self {
            Statement::Nothing => StmtView::Nothing,
            Statement::Dunno(text) => StmtView::Dunno { text: text@ },
            Statement::Label(l) => StmtView::Lab { id: l.id@, kind: l.kind },
            Statement::Instruction(i) => StmtView::Inst {
                mnemonic: i.mnemonic@,
                args: match &i.args {
                    Option::Some(a) => Option::Some(a@),
                    Option::None => Option::None,
                },
            },
            Statement::Directive(d) => match d {
                Directive::File(f) => StmtView::FileDir { index: f.index as int, path: f.path@ },
                Directive::Loc(l) => StmtView::LocDir {
                    file: l.file as int,
                    line: l.line as int,
                    column: l.column as int,
                    extra: l.extra@,
                },
                Directive::SectionStart(name) => StmtView::Section { name: name@ },
                Directive::SetDir(s) => StmtView::SetD { name: s.name@, value: s.value@ },
                Directive::SubsectionsViaSym => StmtView::Svs,
                Directive::Generic(text) => StmtView::Dir { text: text@ },
            },
        }
    }
}

pub open spec fn starts_with(s: Seq<char>, p: Seq<char>) -> bool {
    s.len() >= p.len() && s.subrange(0, p.len() as int) == p
}

pub open spec fn no_nl(s: Seq<char>) -> bool {
    forall|i: int| 0 <= i < s.len() ==> s[i] != '\n'
}

pub open spec fn valid_label_id(id: Seq<char>) -> bool {
    id.len() > 0 && forall|i: int| 0 <= i < id.len() ==> is_label_char(id[i])
}

/// Classifies a label identifier by its compiler naming convention.
pub open spec fn label_kind_of(id: Seq<char>) -> LabelKind {
    if starts_with(id, seq!['.', 'L']) {
        LabelKind::Local
    } else if starts_with(id, seq!['L']) {
        LabelKind::Temp
    } else if starts_with(id, seq!['_', '_', 'Z']) || starts_with(id, seq!['_', 'Z'])
        || starts_with(id, seq!['Z', 'N']) || starts_with(id, seq!['_', '_', 'R'])
        || starts_with(id, seq!['_', 'R']) {
        LabelKind::Global
    } else {
        LabelKind::Unknown
    }
}

pub open spec fn file_kw() -> Seq<char> {
    seq!['.', 'f', 'i', 'l', 'e']
}

pub open spec fn loc_kw() -> Seq<char> {
    seq!['.', 'l', 'o', 'c']
}

pub open spec fn section_kw() -> Seq<char> {
    seq!['.', 's', 'e', 'c', 't', 'i', 'o', 'n']
}

pub open spec fn set_kw() -> Seq<char> {
    seq!['.', 's', 'e', 't']
}

pub open spec fn svs_kw() -> Seq<char> {
    seq!['.', 's', 'u', 'b', 's', 'e', 'c', 't', 'i', 'o', 'n', 's', '_', 'v', 'i', 'a', '_', 's',
        'y', 'm', 'b', 'o', 'l', 's']
}

/// If `t` starts with the directive keyword `kw` followed by whitespace,
/// the trimmed remainder of the line; otherwise `None`.
pub open spec fn kw_rest(t: Seq<char>, kw: Seq<char>) -> Option<Seq<char>> {
    if t.len() > kw.len() && t.subrange(0, kw.len() as int) == kw && is_ws(t[kw.len() as int]) {
        Option::Some(trim(t.subrange(kw.len() as int, t.len() as int)))
    } else {
        Option::None
    }
}

/// Arguments of a file directive: an index, then one or two quoted path
/// parts (two parts are a directory and a file name, joined with `/`).
pub open spec fn parse_file_args(a: Seq<char>) -> Option<(int, Seq<char>)> {
    let dl = digit_run(a);
    if dl <= 0 || dl >= a.len() {
        Option::None
    } else {
        let idx = dec_val(a.subrange(0, dl));
        if idx > u64::MAX as int || !is_ws(a[dl]) {
            Option::None
        } else {
            let r2 = trim_start(a.subrange(dl, a.len() as int));
            if r2.len() == 0 || r2[0] != '"' {
                Option::None
            } else {
                let q = scan_to(r2.subrange(1, r2.len() as int), '"');
                if 1 + q >= r2.len() {
                    Option::None
                } else {
                    let p1 = r2.subrange(1, 1 + q);
                    let r3 = r2.subrange(2 + q, r2.len() as int);
                    if r3.len() == 0 {
                        Option::Some((idx, p1))
                    } else if !is_ws(r3[0]) {
                        Option::None
                    } else {
                        let r4 = trim_start(r3);
                        if r4.len() == 0 || r4[0] != '"' {
                            Option::None
                        } else {
                            let q2 = scan_to(r4.subrange(1, r4.len() as int), '"');
                            if 1 + q2 >= r4.len() {
                                Option::None
                            } else {
                                let p2 = r4.subrange(1, 1 + q2);
                                let r5 = r4.subrange(2 + q2, r4.len() as int);
                                if r5.len() == 0 {
                                    Option::Some((idx, p1 + seq!['/'] + p2))
                                } else {
                                    Option::None
                                }
                            }
                        }
                    }
                }
            }
        }
    }
}

/// Arguments of a location directive: file index, line, optional column,
/// and any trailing annotation preserved verbatim.
pub open spec fn parse_loc_args(a: Seq<char>) -> Option<(int, int, int, Seq<char>)> {
    let d1 = digit_run(a);
    if d1 <= 0 || d1 >= a.len() {
        Option::None
    } else {
        let file = dec_val(a.subrange(0, d1));
        if file > u64::MAX as int || !is_ws(a[d1]) {
            Option::None
        } else {
            let r1 = trim_start(a.subrange(d1, a.len() as int));
            let d2 = digit_run(r1);
            if d2 <= 0 {
                Option::None
            } else {
                let line = dec_val(r1.subrange(0, d2));
                if line > u32::MAX as int {
                    Option::None
                } else if d2 == r1.len() {
                    Option::Some((file, line, 0, Seq::empty()))
                } else if !is_ws(r1[d2]) {
                    Option::None
                } else {
                    let r2 = trim_start(r1.subrange(d2, r1.len() as int));
                    let d3 = digit_run(r2);
                    if d3 > 0 && (d3 == r2.len() || is_ws(r2[d3])) {
                        let col = dec_val(r2.subrange(0, d3));
                        if col > u32::MAX as int {
                            Option::None
                        } else if d3 == r2.len() {
                            Option::Some((file, line, col, Seq::empty()))
                        } else {
                            Option::Some(
                                (file, line, col, trim_start(r2.subrange(d3, r2.len() as int))),
                            )
                        }
                    } else {
                        Option::Some((file, line, 0, r2))
                    }
                }
            }
        }
    }
}

/// Arguments of a set directive: a name (up to the first comma) and a value.
pub open spec fn parse_set_args(a: Seq<char>) -> Option<(Seq<char>, Seq<char>)> {
    let cl = scan_to(a, ',');
    if cl >= a.len() {
        Option::None
    } else {
        let name = trim(a.subrange(0, cl));
        if name.len() == 0 {
            Option::None
        } else {
            Option::Some((name, trim_start(a.subrange(cl + 1, a.len() as int))))
        }
    }
}

pub open spec fn is_label_stmt(t: Seq<char>) -> bool {
    t.len() >= 2 && t[t.len() - 1] == ':' && valid_label_id(t.subrange(0, t.len() - 1))
}

/// Classification of a directive line (`t` is trimmed and starts with `.`).
/// A malformed modeled directive falls back to `Dir`, preserving the line.
pub open spec fn classify_directive(t: Seq<char>) -> StmtView {
    if t == svs_kw() {
        StmtView::Svs
    } else {
        match kw_rest(t, file_kw()) {
            Option::Some(a) => match parse_file_args(a) {
                Option::Some((idx, path)) => StmtView::FileDir { index: idx, path },
                Option::None => StmtView::Dir { text: t.subrange(1, t.len() as int) },
            },
            Option::None => match kw_rest(t, loc_kw()) {
                Option::Some(a) => match parse_loc_args(a) {
                    Option::Some((file, line, column, extra)) => StmtView::LocDir {
                        file,
                        line,
                        column,
                        extra,
                    },
                    Option::None => StmtView::Dir { text: t.subrange(1, t.len() as int) },
                },
                Option::None => match kw_rest(t, section_kw()) {
                    Option::Some(a) => if a.len() > 0 {
                        StmtView::Section { name: a }
                    } else {
                        StmtView::Dir { text: t.subrange(1, t.len() as int) }
                    },
                    Option::None => match kw_rest(t, set_kw()) {
                        Option::Some(a) => match parse_set_args(a) {
                            Option::Some((name, value)) => StmtView::SetD { name, value },
                            Option::None => StmtView::Dir {
                                text: t.subrange(1, t.len() as int),
                            },
                        },
                        Option::None => if t.len() >= 2 {
                            StmtView::Dir { text: t.subrange(1, t.len() as int) }
                        } else {
                            StmtView::Dunno { text: t }
                        },
                    },
                },
            },
        }
    }
}

/// Classification of an instruction line (`t` is trimmed, nonempty, no
/// label, does not start with `.`).
pub open spec fn classify_instruction(t: Seq<char>) -> StmtView {
    let ml = crate::text::nonws_run(t);
    let m = t.subrange(0, ml);
    let rest = trim(t.subrange(ml, t.len() as int));
    if rest.len() == 0 {
        StmtView::Inst { mnemonic: m, args: Option::None }
    } else {
        StmtView::Inst { mnemonic: m, args: Option::Some(rest) }
    }
}

/// The meaning of one input line: what the parser returns for the trimmed
/// form `t` of the line.  Total: every line classifies as something.
pub open spec fn classify(t: Seq<char>) -> StmtView {
    if t.len() == 0 {
        StmtView::Nothing
    } else if is_label_stmt(t) {
        StmtView::Lab {
            id: t.subrange(0, t.len() - 1),
            kind: label_kind_of(t.subrange(0, t.len() - 1)),
        }
    } else if t[0] == '.' {
        classify_directive(t)
    } else {
        classify_instruction(t)
    }
}

/// The meaning of a raw (untrimmed) input line.
pub open spec fn classify_line(raw: Seq<char>) -> StmtView {
    classify(trim(raw))
}

/// Canonical textual rendering of a statement.  Concatenating the rendered
/// forms of a parse result, one per line, reproduces the input up to
/// whitespace normalization.
pub open spec fn render_stmt(v: StmtView) -> Seq<char> {
    match v {
        StmtView::Nothing => Seq::empty(),
        StmtView::Dunno { text } => text,
        StmtView::Lab { id, kind } => id.push(':'),
        StmtView::Inst { mnemonic, args } => match args {
            Option::None => seq!['\t'] + mnemonic,
            Option::Some(a) => seq!['\t'] + mnemonic + seq![' '] + a,
        },
        StmtView::FileDir { index, path } => seq!['\t'] + file_kw() + seq!['\t'] + dec_str(index)
            + seq![' ', '"'] + path + seq!['"'],
        StmtView::LocDir { file, line, column, extra } => {
            let head = seq!['\t'] + loc_kw() + seq!['\t'] + dec_str(file) + seq![' ']
                + dec_str(line);
            let with_col = if column > 0 || extra.len() > 0 {
                head + seq![' '] + dec_str(column)
            } else {
                head
            };
            if extra.len() > 0 {
                with_col + seq![' '] + extra
            } else {
                with_col
            }
        },
        StmtView::Section { name } => seq!['\t'] + section_kw() + seq![' '] + name,
        StmtView::SetD { name, value } => seq!['\t'] + set_kw() + seq![' '] + name
            + seq![',', ' '] + value,
        StmtView::Svs => seq!['\t'] + svs_kw(),
        StmtView::Dir { text } => seq!['\t', '.'] + text,
    }
}

/// Well-formedness of a statement view: exactly the shape facts that hold
/// of every parse result, and that make the canonical rendering re-parse
/// to the same statement.
pub open spec fn wf_stmt(v: StmtView) -> bool {
    match v {
        StmtView::Nothing => true,
        StmtView::Dunno { text } => text == seq!['.'],
        StmtView::Lab { id, kind } => valid_label_id(id) && kind == label_kind_of(id),
        StmtView::Inst { mnemonic, args } => mnemonic.len() > 0 && mnemonic[0] != '.' && (forall|
            i: int,
        |
            0 <= i < mnemonic.len() ==> !is_ws(mnemonic[i])) && match args {
            Option::None => !is_label_stmt(mnemonic),
            Option::Some(a) => a.len() > 0 && !is_ws(a[0]) && !is_ws(a[a.len() - 1]),
        },
        StmtView::FileDir { index, path } => 0 <= index <= u64::MAX as int && (forall|i: int|
            0 <= i < path.len() ==> path[i] != '"'),
        StmtView::LocDir { file, line, column, extra } => 0 <= file <= u64::MAX as int && 0 <= line
            <= u32::MAX as int && 0 <= column <= u32::MAX as int && (extra.len() > 0 ==> !is_ws(
            extra[0],
        ) && !is_ws(extra[extra.len() - 1])),
        StmtView::Section { name } => name.len() > 0 && !is_ws(name[0]) && !is_ws(
            name[name.len() - 1],
        ),
        StmtView::SetD { name, value } => name.len() > 0 && !is_ws(name[0]) && !is_ws(
            name[name.len() - 1],
        ) && (forall|i: int| 0 <= i < name.len() ==> name[i] != ',') && (value.len() > 0
            ==> !is_ws(value[0]) && !is_ws(value[value.len() - 1])),
        StmtView::Svs => true,
        StmtView::Dir { text } => text.len() > 0 && !is_ws(text[text.len() - 1]) && classify(
            seq!['.'] + text,
        ) == StmtView::Dir { text },
    }
}

/// All character data in the statement is free of newlines.
pub open spec fn stmt_no_nl(v: StmtView) -> bool {
    match v {
        StmtView::Nothing => true,
        StmtView::Dunno { text } => no_nl(text),
        StmtView::Lab { id, kind } => no_nl(id),
        StmtView::Inst { mnemonic, args } => no_nl(mnemonic) && match args {
            Option::None => true,
            Option::Some(a) => no_nl(a),
        },
        StmtView::FileDir { index, path } => no_nl(path),
        StmtView::LocDir { file, line, column, extra } => no_nl(extra),
        StmtView::Section { name } => no_nl(name),
        StmtView::SetD { name, value } => no_nl(name) && no_nl(value),
        StmtView::Svs => true,
        StmtView::Dir { text } => no_nl(text),
    }
}

/// A section-start statement.
pub open spec fn is_section_start_s(v: StmtView) -> bool {
    v is Section
}

/// A directive that declares a global symbol.
pub open spec fn is_global_s(v: StmtView) -> bool {
    match v {
        StmtView::Dir { text } => starts_with(text, seq!['g', 'l', 'o', 'b', 'l']),
        _ => false,
    }
}

/// An end-of-function marker: the label emitted after a function body.
pub open spec fn is_end_of_fn_s(v: StmtView) -> bool {
    match v {
        StmtView::Lab { id, kind } => starts_with(
            id,
            seq!['.', 'L', 'f', 'u', 'n', 'c', '_', 'e', 'n', 'd'],
        ) || starts_with(id, seq!['L', 'f', 'u', 'n', 'c', '_', 'e', 'n', 'd']),
        _ => false,
    }
}

impl Statement {
    pub fn is_section_start(&self) -> (r: bool)
        ensures
            r == is_section_start_s(self@),
    {
        match self {
            Statement::Directive(Directive::SectionStart(_)) => true,
            _ => false,
        }
    }

    pub fn is_global(&self) -> (r: bool)
        ensures
            r == is_global_s(self@),
    {
        match self {
            Statement::Directive(Directive::Generic(text)) => {
                let b = crate::text::str_has_prefix(text.as_str(), "globl");
                proof {
                    reveal_strlit("globl");
                    assert("globl"@ =~= seq!['g', 'l', 'o', 'b', 'l']);
                }
                b
            },
            _ => false,
        }
    }

    pub fn is_end_of_fn(&self) -> (r: bool)
        ensures
            r == is_end_of_fn_s(self@),
    {
        match self {
            Statement::Label(l) => {
                let b1 = crate::text::str_has_prefix(l.id.as_str(), ".Lfunc_end");
                let b2 = crate::text::str_has_prefix(l.id.as_str(), "Lfunc_end");
                proof {
                    reveal_strlit(".Lfunc_end");
                    reveal_strlit("Lfunc_end");
                    assert(".Lfunc_end"@ =~= seq![
                        '.',
                        'L',
                        'f',
                        'u',
                        'n',
                        'c',
                        '_',
                        'e',
                        'n',
                        'd',
                    ]);
                    assert("Lfunc_end"@ =~= seq!['L', 'f', 'u', 'n', 'c', '_', 'e', 'n', 'd']);
                }
                b1 || b2
            },
            _ => false,
        }
    }
}

/// Renders a statement in its canonical textual form.
pub fn render_statement(st: &Statement) -> (r: String)
    ensures
        r@ == render_stmt(st@),
{
    match st {
        Statement::Nothing => String::new(),
        Statement::Dunno(text) => text.clone(),
        Statement::Label(l) => {
            let mut v = crate::text::str_to_chars(l.id.as_str());
            v.push(':');
            proof {
                assert(v@ =~= l.id@.push(':'));
            }
            crate::text::chars_to_string(&v)
        },
        Statement::Instruction(i) => {
            let mut v: Vec<char> = Vec::new();
            v.push('\t');
            crate::text::append_str_chars(&mut v, i.mnemonic.as_str());
            match &i.args {
                Option::None => {
                    proof {
                        assert(v@ =~= seq!['\t'] + i.mnemonic@);
                    }
                },
                Option::Some(a) => {
                    v.push(' ');
                    crate::text::append_str_chars(&mut v, a.as_str());
                    proof {
                        assert(v@ =~= seq!['\t'] + i.mnemonic@ + seq![' '] + a@);
                    }
                },
            }
            crate::text::chars_to_string(&v)
        },
        Statement::Directive(d) => match d {
            Directive::File(f) => {
                let mut v: Vec<char> = Vec::new();
                v.push('\t');
                crate::text::append_str_chars(&mut v, ".file");
                v.push('\t');
                let num = crate::text::u64_to_chars(f.index);
                crate::text::append_chars(&mut v, &num);
                v.push(' ');
                v.push('"');
                crate::text::append_str_chars(&mut v, f.path.as_str());
                v.push('"');
                proof {
                    reveal_strlit(".file");
                    assert(".file"@ =~= file_kw());
                    assert(v@ =~= seq!['\t'] + file_kw() + seq!['\t'] + dec_str(f.index as int)
                        + seq![' ', '"'] + f.path@ + seq!['"']);
                }
                crate::text::chars_to_string(&v)
            },
            Directive::Loc(l) => {
                let mut v: Vec<char> = Vec::new();
                v.push('\t');
                crate::text::append_str_chars(&mut v, ".loc");
                v.push('\t');
                let nf = crate::text::u64_to_chars(l.file);
                crate::text::append_chars(&mut v, &nf);
                v.push(' ');
                let nl = crate::text::u64_to_chars(l.line as u64);
                crate::text::append_chars(&mut v, &nl);
                proof {
                    reveal_strlit(".loc");
                    assert(".loc"@ =~= loc_kw());
                    assert(v@ =~= seq!['\t'] + loc_kw() + seq!['\t'] + dec_str(l.file as int)
                        + seq![' '] + dec_str(l.line as int));
                }
                let has_extra = !l.extra.as_str().is_empty();
                if l.column > 0 || has_extra {
                    v.push(' ');
                    let nc = crate::text::u64_to_chars(l.column as u64);
                    crate::text::append_chars(&mut v, &nc);
                    proof {
                        assert(v@ =~= seq!['\t'] + loc_kw() + seq!['\t'] + dec_str(l.file as int)
                            + seq![' '] + dec_str(l.line as int) + seq![' '] + dec_str(
                            l.column as int,
                        ));
                    }
                }
                if has_extra {
                    v.push(' ');
                    crate::text::append_str_chars(&mut v, l.extra.as_str());
                }
                proof {
                    let head = seq!['\t'] + loc_kw() + seq!['\t'] + dec_str(l.file as int)
                        + seq![' '] + dec_str(l.line as int);
                    let with_col = if l.column as int > 0 || l.extra@.len() > 0 {
                        head + seq![' '] + dec_str(l.column as int)
                    } else {
                        head
                    };
                    if l.extra@.len() > 0 {
                        assert(v@ =~= with_col + seq![' '] + l.extra@);
                    } else {
                        assert(v@ =~= with_col);
                    }
                }
                crate::text::chars_to_string(&v)
            },
            Directive::SectionStart(name) => {
                let mut v: Vec<char> = Vec::new();
                v.push('\t');
                crate::text::append_str_chars(&mut v, ".section");
                v.push(' ');
                crate::text::append_str_chars(&mut v, name.as_str());
                proof {
                    reveal_strlit(".section");
                    assert(".section"@ =~= section_kw());
                    assert(v@ =~= seq!['\t'] + section_kw() + seq![' '] + name@);
                }
                crate::text::chars_to_string(&v)
            },
            Directive::SetDir(s) => {
                let mut v: Vec<char> = Vec::new();
                v.push('\t');
                crate::text::append_str_chars(&mut v, ".set");
                v.push(' ');
                crate::text::append_str_chars(&mut v, s.name.as_str());
                v.push(',');
                v.push(' ');
                crate::text::append_str_chars(&mut v, s.value.as_str());
                proof {
                    reveal_strlit(".set");
                    assert(".set"@ =~= set_kw());
                    assert(v@ =~= seq!['\t'] + set_kw() + seq![' '] + s.name@ + seq![',', ' ']
                        + s.value@);
                }
                crate::text::chars_to_string(&v)
            },
            Directive::SubsectionsViaSym => {
                let mut v: Vec<char> = Vec::new();
                v.push('\t');
                crate::text::append_str_chars(&mut v, ".subsections_via_symbols");
                proof {
                    reveal_strlit(".subsections_via_symbols");
                    assert(".subsections_via_symbols"@ =~= svs_kw());
                    assert(v@ =~= seq!['\t'] + svs_kw());
                }
                crate::text::chars_to_string(&v)
            },
            Directive::Generic(text) => {
                let mut v: Vec<char> = Vec::new();
                v.push('\t');
                v.push('.');
                crate::text::append_str_chars(&mut v, text.as_str());
                proof {
                    assert(v@ =~= seq!['\t', '.'] + text@);
                }
                crate::text::chars_to_string(&v)
            },
        },
    }
}

} // verus!
