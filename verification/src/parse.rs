//! The assembler-text parser: turns raw compiler output into the ordered
//! statement sequence, one statement per input line.  Parsing fails only
//! when the input is not newline-terminated; every line classifies as some
//! statement, so no input syntax is ever dropped.

use vstd::prelude::*;

use crate::statements::{
    classify, classify_directive, classify_instruction, classify_line, file_kw, is_label_stmt,
    kw_rest, label_kind_of, loc_kw, parse_file_args, parse_loc_args, parse_set_args, section_kw,
    set_kw, starts_with, svs_kw, valid_label_id, Directive, FileDirective, Label, LabelKind, Loc,
    SetDirective, Statement, StmtView,
};
use crate::text::{
    char_is_ws, chars_eq, chars_to_string, chars_to_u64, copy_range, digit_run, digit_run_from,
    is_digit, is_label_char, is_ws, lemma_digit_run, lemma_scan_to, nonws_run_from, scan_to,
    scan_to_from, str_to_chars, trim, trim_chars, trim_start_chars, char_is_label,
};

verus! {

/// A parse failure: the input was not fully consumed.  `leftover` holds
/// the unconsumed remainder, or a bounded prefix of it when the remainder
/// is too long to be printable.
#[derive(Clone, Debug)]
pub struct ParseError {
    pub leftover: String,
}

/// The unconsumed trailing line: the maximal run of characters after the
/// last newline.
pub open spec fn trailing_line(s: Seq<char>) -> Seq<char>
    decreases s.len(),
{
    if s.len() == 0 {
        s
    } else if s[s.len() - 1] == '\n' {
        Seq::empty()
    } else {
        trailing_line(s.subrange(0, s.len() - 1)).push(s[s.len() - 1])
    }
}

/// What a parse failure reports: the whole trailing line when it is short,
/// else its first 200 characters.
pub open spec fn leftover_of(s: Seq<char>) -> Seq<char> {
    if trailing_line(s).len() < 1000 {
        trailing_line(s)
    } else {
        trailing_line(s).subrange(0, 200)
    }
}

pub proof fn lemma_trailing_line_is(s: Seq<char>, st: int)
    requires
        0 <= st <= s.len(),
        forall|k: int| st <= k < s.len() ==> s[k] != '\n',
        st > 0 ==> s[st - 1] == '\n',
    ensures
        trailing_line(s) == s.subrange(st, s.len() as int),
    decreases s.len(),
{
    if s.len() == 0 {
        assert(trailing_line(s) =~= s.subrange(st, s.len() as int));
    } else if st == s.len() {
        if st > 0 {
            assert(s[s.len() - 1] == '\n');
        }
        assert(trailing_line(s) =~= s.subrange(st, s.len() as int));
    } else {
        let p = s.subrange(0, s.len() - 1);
        lemma_trailing_line_is(p, st);
        assert(p.subrange(st, p.len() as int) =~= s.subrange(st, s.len() - 1));
        assert(trailing_line(s) =~= s.subrange(st, s.len() as int));
    }
}

/// The input split at newlines; a final unterminated segment is kept.
pub open spec fn split_lines(s: Seq<char>) -> Seq<Seq<char>>
    decreases s.len(),
{
    if s.len() == 0 {
        Seq::empty()
    } else {
        let k = scan_to(s, '\n');
        if k < 0 || k >= s.len() {
            seq![s]
        } else {
            seq![s.subrange(0, k)] + split_lines(s.subrange(k + 1, s.len() as int))
        }
    }
}

/// The meaning of the whole input: each line classified in order.
pub open spec fn parse_lines(s: Seq<char>) -> Seq<StmtView> {
    split_lines(s).map(|i: int, l: Seq<char>| classify_line(l))
}

/// The views of a statement sequence.
pub open spec fn views_of(v: Seq<Statement>) -> Seq<StmtView> {
    v.map(|i: int, st: Statement| st@)
}

fn all_label_chars(t: &Vec<char>, end: usize) -> (b: bool)
    requires
        end <= t@.len(),
    ensures
        b == (forall|i: int| 0 <= i < end ==> is_label_char(t@[i])),
{
    let mut i: usize = 0;
    while i < end
        invariant
            i <= end <= t@.len(),
            forall|k: int| 0 <= k < i ==> is_label_char(t@[k]),
        decreases end - i,
    {
        if !char_is_label(t[i]) {
            return false;
        }
        i = i + 1;
    }
    true
}

fn starts1(id: &Vec<char>, c0: char) -> (b: bool)
    ensures
        b == starts_with(id@, seq![c0]),
{
    let r = id.len() >= 1 && id[0] == c0;
    proof {
        if id@.len() >= 1 {
            if id@[0] == c0 {
                assert(id@.subrange(0, 1) =~= seq![c0]);
            } else {
                assert(id@.subrange(0, 1)[0] == id@[0]);
                assert(seq![c0][0] == c0);
            }
        }
    }
    r
}

fn starts2(id: &Vec<char>, c0: char, c1: char) -> (b: bool)
    ensures
        b == starts_with(id@, seq![c0, c1]),
{
    let r = id.len() >= 2 && id[0] == c0 && id[1] == c1;
    proof {
        if id@.len() >= 2 {
            if id@[0] == c0 && id@[1] == c1 {
                assert(id@.subrange(0, 2) =~= seq![c0, c1]);
            } else {
                assert(id@.subrange(0, 2)[0] == id@[0]);
                assert(id@.subrange(0, 2)[1] == id@[1]);
                assert(seq![c0, c1][0] == c0);
                assert(seq![c0, c1][1] == c1);
            }
        }
    }
    r
}

fn starts3(id: &Vec<char>, c0: char, c1: char, c2: char) -> (b: bool)
    ensures
        b == starts_with(id@, seq![c0, c1, c2]),
{
    let r = id.len() >= 3 && id[0] == c0 && id[1] == c1 && id[2] == c2;
    proof {
        if id@.len() >= 3 {
            if id@[0] == c0 && id@[1] == c1 && id@[2] == c2 {
                assert(id@.subrange(0, 3) =~= seq![c0, c1, c2]);
            } else {
                assert(id@.subrange(0, 3)[0] == id@[0]);
                assert(id@.subrange(0, 3)[1] == id@[1]);
                assert(id@.subrange(0, 3)[2] == id@[2]);
                assert(seq![c0, c1, c2][0] == c0);
                assert(seq![c0, c1, c2][1] == c1);
                assert(seq![c0, c1, c2][2] == c2);
            }
        }
    }
    r
}

fn label_kind_x(id: &Vec<char>) -> (k: LabelKind)
    ensures
        k == label_kind_of(id@),
{
    if starts2(id, '.', 'L') {
        LabelKind::Local
    } else if starts1(id, 'L') {
        LabelKind::Temp
    } else if starts3(id, '_', '_', 'Z') || starts2(id, '_', 'Z') || starts2(id, 'Z', 'N')
        || starts3(id, '_', '_', 'R') || starts2(id, '_', 'R') {
        LabelKind::Global
    } else {
        LabelKind::Unknown
    }
}

fn kw_rest_x(t: &Vec<char>, kw: &Vec<char>) -> (r: Option<Vec<char>>)
    ensures
        match r {
            Option::Some(a) => kw_rest(t@, kw@) == Option::Some(a@),
            Option::None => kw_rest(t@, kw@) is None,
        },
{
    let kl = kw.len();
    if t.len() <= kl {
        return Option::None;
    }
    let mut i: usize = 0;
    while i < kl
        invariant
            i <= kl == kw@.len() < t@.len(),
            forall|k: int| 0 <= k < i ==> t@[k] == kw@[k],
        decreases kl - i,
    {
        if t[i] != kw[i] {
            proof {
                assert(t@.subrange(0, kl as int)[i as int] != kw@[i as int]);
            }
            return Option::None;
        }
        i = i + 1;
    }
    proof {
        assert(t@.subrange(0, kl as int) =~= kw@);
    }
    if !char_is_ws(t[kl]) {
        return Option::None;
    }
    let rest = copy_range(t, kl, t.len());
    Option::Some(trim_chars(&rest))
}

fn parse_file_args_x(a: &Vec<char>) -> (r: Option<FileDirective>)
    ensures
        match r {
            Option::Some(f) => parse_file_args(a@) == Option::Some((f.index as int, f.path@)),
            Option::None => parse_file_args(a@) is None,
        },
{
    let n = a.len();
    proof {
        assert(a@.subrange(0, n as int) =~= a@);
    }
    let dl = digit_run_from(a, 0);
    if dl == 0 || dl >= n {
        return Option::None;
    }
    proof {
        lemma_digit_run(a@);
    }
    let idx = match chars_to_u64(a, 0, dl) {
        Option::Some(x) => x,
        Option::None => {
            return Option::None;
        },
    };
    if !char_is_ws(a[dl]) {
        return Option::None;
    }
    let tail1 = copy_range(a, dl, n);
    let r2 = trim_start_chars(&tail1);
    if r2.len() == 0 {
        return Option::None;
    }
    if r2[0] != '"' {
        return Option::None;
    }
    let q = scan_to_from(&r2, 1, '"');
    if 1 + q >= r2.len() {
        return Option::None;
    }
    let p1 = copy_range(&r2, 1, 1 + q);
    let r3 = copy_range(&r2, 2 + q, r2.len());
    if r3.len() == 0 {
        return Option::Some(FileDirective { index: idx, path: chars_to_string(&p1) });
    }
    if !char_is_ws(r3[0]) {
        return Option::None;
    }
    let r4 = trim_start_chars(&r3);
    if r4.len() == 0 {
        return Option::None;
    }
    if r4[0] != '"' {
        return Option::None;
    }
    let q2 = scan_to_from(&r4, 1, '"');
    if 1 + q2 >= r4.len() {
        return Option::None;
    }
    let p2 = copy_range(&r4, 1, 1 + q2);
    if r4.len() - (2 + q2) == 0 {
        let mut joined = p1;
        joined.push('/');
        append_path_tail(&mut joined, &p2);
        proof {
            assert(r4@.subrange(2 + q2 as int, r4@.len() as int) =~= Seq::<char>::empty());
        }
        return Option::Some(FileDirective { index: idx, path: chars_to_string(&joined) });
    }
    Option::None
}

fn append_path_tail(dst: &mut Vec<char>, src: &Vec<char>)
    ensures
        final(dst)@ == old(dst)@ + src@,
{
    crate::text::append_chars(dst, src);
}

fn parse_loc_args_x(a: &Vec<char>) -> (r: Option<Loc>)
    ensures
        match r {
            Option::Some(l) => parse_loc_args(a@) == Option::Some(
                (l.file as int, l.line as int, l.column as int, l.extra@),
            ),
            Option::None => parse_loc_args(a@) is None,
        },
{
    let n = a.len();
    proof {
        assert(a@.subrange(0, n as int) =~= a@);
    }
    let d1 = digit_run_from(a, 0);
    if d1 == 0 || d1 >= n {
        return Option::None;
    }
    proof {
        lemma_digit_run(a@);
    }
    let file = match chars_to_u64(a, 0, d1) {
        Option::Some(x) => x,
        Option::None => {
            return Option::None;
        },
    };
    if !char_is_ws(a[d1]) {
        return Option::None;
    }
    let tail1 = copy_range(a, d1, n);
    let r1 = trim_start_chars(&tail1);
    proof {
        assert(r1@.subrange(0, r1@.len() as int) =~= r1@);
    }
    let d2 = digit_run_from(&r1, 0);
    if d2 == 0 {
        return Option::None;
    }
    proof {
        lemma_digit_run(r1@);
    }
    let line64 = match chars_to_u64(&r1, 0, d2) {
        Option::Some(x) => x,
        Option::None => {
            return Option::None;
        },
    };
    if line64 > u32::MAX as u64 {
        return Option::None;
    }
    let line: u32 = line64 as u32;
    if d2 == r1.len() {
        return Option::Some(Loc { file, line, column: 0, extra: new_string() });
    }
    if !char_is_ws(r1[d2]) {
        return Option::None;
    }
    let tail2 = copy_range(&r1, d2, r1.len());
    let r2 = trim_start_chars(&tail2);
    proof {
        assert(r2@.subrange(0, r2@.len() as int) =~= r2@);
    }
    let d3 = digit_run_from(&r2, 0);
    proof {
        lemma_digit_run(r2@);
    }
    if d3 > 0 && (d3 == r2.len() || char_is_ws(r2[d3])) {
        let col64 = match chars_to_u64(&r2, 0, d3) {
            Option::Some(x) => x,
            Option::None => {
                return Option::None;
            },
        };
        if col64 > u32::MAX as u64 {
            return Option::None;
        }
        let column: u32 = col64 as u32;
        if d3 == r2.len() {
            return Option::Some(Loc { file, line, column, extra: new_string() });
        }
        let tail3 = copy_range(&r2, d3, r2.len());
        let ex = trim_start_chars(&tail3);
        return Option::Some(Loc { file, line, column, extra: chars_to_string(&ex) });
    }
    Option::Some(Loc { file, line, column: 0, extra: chars_to_string(&r2) })
}

fn new_string() -> (r: String)
    ensures
        r@ == Seq::<char>::empty(),
{
    String::new()
}

fn parse_set_args_x(a: &Vec<char>) -> (r: Option<SetDirective>)
    ensures
        match r {
            Option::Some(s) => parse_set_args(a@) == Option::Some((s.name@, s.value@)),
            Option::None => parse_set_args(a@) is None,
        },
{
    let n = a.len();
    proof {
        assert(a@.subrange(0, n as int) =~= a@);
    }
    let cl = scan_to_from(a, 0, ',');
    if cl >= n {
        return Option::None;
    }
    let head = copy_range(a, 0, cl);
    let name = trim_chars(&head);
    if name.len() == 0 {
        return Option::None;
    }
    let tail = copy_range(a, cl + 1, n);
    let value = trim_start_chars(&tail);
    Option::Some(SetDirective { name: chars_to_string(&name), value: chars_to_string(&value) })
}

fn generic_of_x(t: &Vec<char>) -> (st: Statement)
    requires
        t@.len() >= 1,
    ensures
        st@ == (StmtView::Dir { text: t@.subrange(1, t@.len() as int) }),
{
    let text = copy_range(t, 1, t.len());
    Statement::Directive(Directive::Generic(chars_to_string(&text)))
}

fn parse_directive_x(t: &Vec<char>) -> (st: Statement)
    requires
        t@.len() >= 1,
    ensures
        st@ == classify_directive(t@),
{
    let svs = str_to_chars(".subsections_via_symbols");
    proof {
        reveal_strlit(".subsections_via_symbols");
        assert(svs@ =~= svs_kw());
    }
    if chars_eq(t, &svs) {
        return Statement::Directive(Directive::SubsectionsViaSym);
    }
    let kwf = str_to_chars(".file");
    proof {
        reveal_strlit(".file");
        assert(kwf@ =~= file_kw());
    }
    match kw_rest_x(t, &kwf) {
        Option::Some(a) => {
            return match parse_file_args_x(&a) {
                Option::Some(f) => Statement::Directive(Directive::File(f)),
                Option::None => generic_of_x(t),
            };
        },
        Option::None => {},
    }
    let kwl = str_to_chars(".loc");
    proof {
        reveal_strlit(".loc");
        assert(kwl@ =~= loc_kw());
    }
    match kw_rest_x(t, &kwl) {
        Option::Some(a) => {
            return match parse_loc_args_x(&a) {
                Option::Some(l) => Statement::Directive(Directive::Loc(l)),
                Option::None => generic_of_x(t),
            };
        },
        Option::None => {},
    }
    let kwsec = str_to_chars(".section");
    proof {
        reveal_strlit(".section");
        assert(kwsec@ =~= section_kw());
    }
    match kw_rest_x(t, &kwsec) {
        Option::Some(a) => {
            return if a.len() > 0 {
                Statement::Directive(Directive::SectionStart(chars_to_string(&a)))
            } else {
                generic_of_x(t)
            };
        },
        Option::None => {},
    }
    let kwset = str_to_chars(".set");
    proof {
        reveal_strlit(".set");
        assert(kwset@ =~= set_kw());
    }
    match kw_rest_x(t, &kwset) {
        Option::Some(a) => {
            return match parse_set_args_x(&a) {
                Option::Some(s) => Statement::Directive(Directive::SetDir(s)),
                Option::None => generic_of_x(t),
            };
        },
        Option::None => {},
    }
    if t.len() >= 2 {
        generic_of_x(t)
    } else {
        Statement::Dunno(chars_to_string(t))
    }
}

/// Parses one input line (without its newline) into a statement.
pub fn parse_line(raw: &Vec<char>) -> (st: Statement)
    ensures
        st@ == classify_line(raw@),
{
    let t = trim_chars(raw);
    let n = t.len();
    if n == 0 {
        return Statement::Nothing;
    }
    let mut is_lab = false;
    if n >= 2 && t[n - 1] == ':' {
        is_lab = all_label_chars(&t, n - 1);
    }
    proof {
        let idv = t@.subrange(0, n - 1);
        if n >= 2 && t@[n - 1] == ':' {
            if is_lab {
                assert forall|i: int| 0 <= i < idv.len() implies is_label_char(idv[i]) by {
                    assert(idv[i] == t@[i]);
                }
                assert(is_label_stmt(t@));
            } else {
                assert(exists|i: int| 0 <= i < n - 1 && !is_label_char(t@[i]));
                let w = choose|i: int| 0 <= i < n - 1 && !is_label_char(t@[i]);
                assert(idv[w] == t@[w]);
                assert(!valid_label_id(idv));
                assert(!is_label_stmt(t@));
            }
        } else {
            assert(!is_label_stmt(t@));
        }
    }
    if is_lab {
        let id = copy_range(&t, 0, n - 1);
        let kind = label_kind_x(&id);
        return Statement::Label(Label { id: chars_to_string(&id), kind });
    }
    if t[0] == '.' {
        return parse_directive_x(&t);
    }
    let ml = nonws_run_from(&t, 0);
    proof {
        assert(t@.subrange(0, n as int) =~= t@);
    }
    let m = copy_range(&t, 0, ml);
    let tail = copy_range(&t, ml, n);
    let rest = trim_chars(&tail);
    let mnemonic = chars_to_string(&m);
    if rest.len() == 0 {
        Statement::Instruction(crate::statements::Instruction { mnemonic, args: Option::None })
    } else {
        Statement::Instruction(
            crate::statements::Instruction {
                mnemonic,
                args: Option::Some(chars_to_string(&rest)),
            },
        )
    }
}

/// Parses whole compiler output into its statement sequence.  Succeeds
/// exactly when the input is empty or newline-terminated; otherwise
/// reports the unconsumed remainder.
pub fn parse_file(input: &str) -> (r: Result<Vec<Statement>, ParseError>)
    ensures
        match r {
            Result::Ok(v) => (input@.len() == 0 || input@[input@.len() - 1] == '\n') && views_of(
                v@,
            ) == parse_lines(input@),
            Result::Err(e) => input@.len() > 0 && input@[input@.len() - 1] != '\n' && e.leftover@
                == leftover_of(input@),
        },
{
    let chars = str_to_chars(input);
    let n = chars.len();
    if n > 0 && chars[n - 1] != '\n' {
        let mut st: usize = n;
        while st > 0 && chars[st - 1] != '\n'
            invariant
                st <= n == chars@.len(),
                forall|k: int| st <= k < n ==> chars@[k] != '\n',
            decreases st,
        {
            st = st - 1;
        }
        proof {
            lemma_trailing_line_is(chars@, st as int);
        }
        let tail_len = n - st;
        let lv = if tail_len < 1000 {
            copy_range(&chars, st, n)
        } else {
            copy_range(&chars, st, st + 200)
        };
        return Result::Err(ParseError { leftover: chars_to_string(&lv) });
    }
    let ghost whole = parse_lines(input@);
    let mut out: Vec<Statement> = Vec::new();
    let mut pos: usize = 0;
    proof {
        assert(input@.subrange(0, n as int) =~= input@);
        assert(views_of(out@) =~= Seq::<StmtView>::empty());
    }
    while pos < n
        invariant
            pos <= n == chars@.len(),
            chars@ == input@,
            n > 0 ==> chars@[n - 1] == '\n',
            whole == parse_lines(input@),
            whole =~= views_of(out@) + parse_lines(input@.subrange(pos as int, n as int)),
        decreases n - pos,
    {
        let ghost suf = input@.subrange(pos as int, n as int);
        let k = scan_to_from(&chars, pos, '\n');
        proof {
            lemma_scan_to(suf, '\n');
            if k == n - pos {
                assert(suf[suf.len() - 1] == '\n');
                assert(false);
            }
        }
        let line = copy_range(&chars, pos, pos + k);
        let st = parse_line(&line);
        let ghost old_out = out@;
        out.push(st);
        proof {
            let rest = input@.subrange(pos + k + 1, n as int);
            assert(suf.subrange(0, k as int) =~= line@);
            assert(suf.subrange(k + 1, suf.len() as int) =~= rest);
            assert(split_lines(suf) == seq![line@] + split_lines(rest));
            assert(parse_lines(suf) =~= seq![classify_line(line@)] + parse_lines(rest));
            assert(views_of(out@) =~= views_of(old_out).push(st@));
            assert(whole =~= views_of(out@) + parse_lines(rest));
        }
        pos = pos + k + 1;
    }
    proof {
        assert(input@.subrange(n as int, n as int) =~= Seq::<char>::empty());
        assert(parse_lines(Seq::<char>::empty()) =~= Seq::<StmtView>::empty());
        assert(views_of(out@) =~= parse_lines(input@));
    }
    Result::Ok(out)
}

} // verus!
