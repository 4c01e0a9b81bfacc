//! The rendering engine: re-serializes a statement range while
//! interleaving resolved source lines, deduplicating location markers and
//! pruning labels that nothing in the rendered scope references.

use vstd::prelude::*;

use crate::parse::views_of;
use crate::statements::{label_kind_of, render_stmt, LabelKind, Statement, StmtView};
use crate::text::{
    char_is_label, copy_range, dec_str, is_label_char, label_run, label_run_from, lemma_label_run,
    str_to_chars, trim_start, trim_start_chars, u64_to_chars,
};
use crate::StmtRange;

verus! {

/// Output formatting options.
#[derive(Clone, Debug)]
pub struct Format {
    /// interleave resolved source lines
    pub rust: bool,
    /// drop directives and unrecognized lines from the output
    pub simplify: bool,
    /// keep all labels, referenced or not
    pub keep_labels: bool,
    /// prefer the unabbreviated name forms in listings
    pub full_name: bool,
    /// diagnostic verbosity
    pub verbosity: usize,
}

/// One entry of the source cache: a referenced file and, when it could be
/// read, its lines.  A `None` line array records "path known but content
/// unavailable" and is never re-attempted.
pub struct SourceFile {
    pub index: u64,
    pub path: String,
    pub lines: Option<Vec<String>>,
}

/// The lazily built mapping from file index to source lines.
pub struct SourceCache {
    pub files: Vec<SourceFile>,
}

/// Position of the first cache entry for `idx` (or the length).
pub open spec fn cache_pos(files: Seq<SourceFile>, idx: int) -> int
    decreases files.len(),
{
    if files.len() == 0 {
        0
    } else if files[0].index as int == idx {
        0
    } else {
        1 + cache_pos(files.subrange(1, files.len() as int), idx)
    }
}

pub proof fn lemma_cache_pos_is(files: Seq<SourceFile>, idx: int, p: int)
    requires
        0 <= p <= files.len(),
        forall|i: int| 0 <= i < p ==> (#[trigger] files[i]).index as int != idx,
        p < files.len() ==> files[p].index as int == idx,
    ensures
        cache_pos(files, idx) == p,
    decreases files.len(),
{
    if files.len() > 0 && files[0].index as int != idx {
        let t = files.subrange(1, files.len() as int);
        assert(forall|i: int| 0 <= i < p - 1 ==> (#[trigger] t[i]).index as int != idx);
        if p < files.len() {
            assert(t[p - 1] == files[p]);
        }
        lemma_cache_pos_is(t, idx, p - 1);
    }
}

impl SourceCache {
    pub fn new() -> (c: SourceCache)
        ensures
            c.files@.len() == 0,
    {
        SourceCache { files: Vec::new() }
    }

    /// Position of the entry for `idx`, if one is cached.
    pub fn find(&self, idx: u64) -> (r: Option<usize>)
        ensures
            match r {
                Option::Some(p) => p as int == cache_pos(self.files@, idx as int) && p
                    < self.files@.len() && self.files@[p as int].index == idx,
                Option::None => cache_pos(self.files@, idx as int) == self.files@.len(),
            },
    {
        let n = self.files.len();
        let mut i: usize = 0;
        while i < n
            invariant
                i <= n == self.files@.len(),
                forall|k: int| 0 <= k < i ==> (#[trigger] self.files@[k]).index != idx,
            decreases n - i,
        {
            if self.files[i].index == idx {
                proof {
                    lemma_cache_pos_is(self.files@, idx as int, i as int);
                }
                return Option::Some(i);
            }
            i = i + 1;
        }
        proof {
            lemma_cache_pos_is(self.files@, idx as int, n as int);
        }
        Option::None
    }

    /// Records a file's resolved path and content under its index, unless
    /// the index is already cached (first declaration wins).
    pub fn insert(&mut self, index: u64, path: String, lines: Option<Vec<String>>)
        ensures
            cache_pos(old(self).files@, index as int) < old(self).files@.len() ==> final(
                self).files@ == old(self).files@,
            cache_pos(old(self).files@, index as int) == old(self).files@.len() ==> final(
                self).files@ == old(self).files@.push(
                (SourceFile { index, path, lines }),
            ),
    {
        match self.find(index) {
            Option::Some(_) => {},
            Option::None => {
                self.files.push(SourceFile { index, path, lines });
            },
        }
    }
}

/// The referenceable text of a statement, which may mention labels:
/// instruction arguments, unparsed directive text, section names and
/// unrecognized lines.  Labels themselves and no-ops contribute nothing.
pub open spec fn ref_text(v: StmtView) -> Option<Seq<char>> {
    match v {
        StmtView::Inst { mnemonic, args } => args,
        StmtView::Dir { text } => Option::Some(text),
        StmtView::Section { name } => Option::Some(name),
        StmtView::Dunno { text } => Option::Some(text),
        _ => Option::None,
    }
}

/// A token shaped like a local or temporary label.
pub open spec fn is_pruned_kind(tok: Seq<char>) -> bool {
    label_kind_of(tok) == LabelKind::Local || label_kind_of(tok) == LabelKind::Temp
}

/// The local-label-shaped tokens of a text: maximal label-character runs
/// classified as local or temporary labels.
pub open spec fn tokens_from(s: Seq<char>) -> Set<Seq<char>>
    decreases s.len(),
{
    if s.len() == 0 {
        Set::empty()
    } else if !is_label_char(s[0]) {
        tokens_from(s.subrange(1, s.len() as int))
    } else {
        let n = label_run(s);
        let n1 = if 1 <= n <= s.len() {
            n
        } else {
            1
        };
        let tok = s.subrange(0, n1);
        let rest = tokens_from(s.subrange(n1, s.len() as int));
        if is_pruned_kind(tok) {
            rest.insert(tok)
        } else {
            rest
        }
    }
}

/// The used-label set of a scope: every local-label-shaped token occurring
/// in some statement's referenceable text.
pub open spec fn used_labels_set(scope: Seq<StmtView>) -> Set<Seq<char>>
    decreases scope.len(),
{
    if scope.len() == 0 {
        Set::empty()
    } else {
        let head = used_labels_set(scope.subrange(0, scope.len() - 1));
        match ref_text(scope[scope.len() - 1]) {
            Option::Some(t) => head.union(tokens_from(t)),
            Option::None => head,
        }
    }
}

pub open spec fn strset(v: Seq<String>) -> Set<Seq<char>> {
    Set::new(|t: Seq<char>| exists|i: int| 0 <= i < v.len() && v[i]@ == t)
}

fn contains_str(v: &Vec<String>, t: &String) -> (r: bool)
    ensures
        r == strset(v@).contains(t@),
{
    let n = v.len();
    let mut i: usize = 0;
    while i < n
        invariant
            i <= n == v@.len(),
            forall|k: int| 0 <= k < i ==> v@[k]@ != t@,
        decreases n - i,
    {
        if v[i] == *t {
            proof {
                assert(strset(v@).contains(t@));
            }
            return true;
        }
        i = i + 1;
    }
    proof {
        assert(!strset(v@).contains(t@));
    }
    false
}

fn stmt_ref_text<'a>(st: &'a Statement) -> (r: Option<&'a String>)
    ensures
        match r {
            Option::Some(t) => ref_text(st@) == Option::Some(t@),
            Option::None => ref_text(st@) is None,
        },
{
    match st {
        Statement::Instruction(i) => match &i.args {
            Option::Some(a) => Option::Some(a),
            Option::None => Option::None,
        },
        Statement::Directive(crate::statements::Directive::Generic(t)) => Option::Some(t),
        Statement::Directive(crate::statements::Directive::SectionStart(n)) => Option::Some(n),
        Statement::Dunno(t) => Option::Some(t),
        _ => Option::None,
    }
}

fn label_kind_of_chars(tok: &Vec<char>) -> (k: LabelKind)
    ensures
        k == label_kind_of(tok@),
{
    let s = crate::text::chars_to_string(tok);
    let mut v: Vec<char> = Vec::new();
    crate::text::append_str_chars(&mut v, s.as_str());
    label_kind_vec(&v)
}

fn label_kind_vec(id: &Vec<char>) -> (k: LabelKind)
    ensures
        k == label_kind_of(id@),
{
    let n = id.len();
    let loc = n >= 2 && id[0] == '.' && id[1] == 'L';
    proof {
        if n >= 2 {
            if id@[0] == '.' && id@[1] == 'L' {
                assert(id@.subrange(0, 2) =~= seq!['.', 'L']);
            } else {
                assert(id@.subrange(0, 2)[0] == id@[0]);
                assert(id@.subrange(0, 2)[1] == id@[1]);
                assert(seq!['.', 'L'][0] == '.');
                assert(seq!['.', 'L'][1] == 'L');
            }
        }
    }
    if loc {
        return LabelKind::Local;
    }
    let tmp = n >= 1 && id[0] == 'L';
    proof {
        if n >= 1 {
            if id@[0] == 'L' {
                assert(id@.subrange(0, 1) =~= seq!['L']);
            } else {
                assert(id@.subrange(0, 1)[0] == id@[0]);
                assert(seq!['L'][0] == 'L');
            }
        }
    }
    if tmp {
        return LabelKind::Temp;
    }
    let g3z = n >= 3 && id[0] == '_' && id[1] == '_' && id[2] == 'Z';
    let g2z = n >= 2 && id[0] == '_' && id[1] == 'Z';
    let gzn = n >= 2 && id[0] == 'Z' && id[1] == 'N';
    let g3r = n >= 3 && id[0] == '_' && id[1] == '_' && id[2] == 'R';
    let g2r = n >= 2 && id[0] == '_' && id[1] == 'R';
    proof {
        if n >= 2 {
            assert(id@.subrange(0, 2) =~= seq![id@[0], id@[1]]);
        }
        if n >= 3 {
            assert(id@.subrange(0, 3) =~= seq![id@[0], id@[1], id@[2]]);
        }
    }
    if g3z || g2z || gzn || g3r || g2r {
        LabelKind::Global
    } else {
        LabelKind::Unknown
    }
}

/// Collects the used-label set of a statement sequence: each token once,
/// in first-seen order.
pub fn used_labels(stmts: &Vec<Statement>) -> (r: Vec<String>)
    ensures
        forall|i: int|
            0 <= i < r@.len() ==> used_labels_set(views_of(stmts@)).contains(
                #[trigger] r@[i]@,
            ),
        forall|tok: Seq<char>|
            used_labels_set(views_of(stmts@)).contains(tok) ==> strset(r@).contains(tok),
        forall|i: int, j: int| 0 <= i < j < r@.len() ==> r@[i]@ != r@[j]@,
{
    let ghost svs = views_of(stmts@);
    let n = stmts.len();
    let mut out: Vec<String> = Vec::new();
    let mut i: usize = 0;
    proof {
        assert(svs.subrange(0, 0) =~= Seq::<StmtView>::empty());
        assert(strset(out@) =~= Set::<Seq<char>>::empty());
    }
    while i < n
        invariant
            i <= n == stmts@.len(),
            svs == views_of(stmts@),
            strset(out@) =~= used_labels_set(svs.subrange(0, i as int)),
            forall|p: int, q: int| 0 <= p < q < out@.len() ==> out@[p]@ != out@[q]@,
        decreases n - i,
    {
        let ghost pre = svs.subrange(0, i as int);
        let ghost post = svs.subrange(0, i + 1);
        proof {
            assert(post.subrange(0, post.len() - 1) =~= pre);
            assert(post[post.len() - 1] == svs[i as int]);
            assert(svs[i as int] == stmts@[i as int]@);
        }
        match stmt_ref_text(&stmts[i]) {
            Option::Some(t) => {
                let chars = str_to_chars(t.as_str());
                add_tokens(&mut out, &chars);
                proof {
                    assert(strset(out@) =~= used_labels_set(post));
                }
            },
            Option::None => {
                proof {
                    assert(strset(out@) =~= used_labels_set(post));
                }
            },
        }
        i = i + 1;
    }
    proof {
        assert(svs.subrange(0, n as int) =~= svs);
    }
    out
}

/// Adds every local-label-shaped token of `chars` to `out`, never a
/// token twice.
fn add_tokens(out: &mut Vec<String>, chars: &Vec<char>)
    requires
        forall|i: int, j: int| 0 <= i < j < old(out)@.len() ==> old(out)@[i]@ != old(out)@[j]@,
    ensures
        strset(final(out)@) =~= strset(old(out)@).union(tokens_from(chars@)),
        forall|i: int, j: int| 0 <= i < j < final(out)@.len() ==> final(out)@[i]@ != final(
            out)@[j]@,
{
    let n = chars.len();
    let mut pos: usize = 0;
    let ghost base = strset(out@);
    proof {
        assert(chars@.subrange(0, n as int) =~= chars@);
    }
    while pos < n
        invariant
            pos <= n == chars@.len(),
            base.union(tokens_from(chars@)) =~= strset(out@).union(
                tokens_from(chars@.subrange(pos as int, n as int)),
            ),
            base.subset_of(strset(out@)),
            forall|i: int, j: int| 0 <= i < j < out@.len() ==> out@[i]@ != out@[j]@,
        decreases n - pos,
    {
        let ghost suf = chars@.subrange(pos as int, n as int);
        if char_is_label(chars[pos]) {
            let run = label_run_from(chars, pos);
            proof {
                lemma_label_run(suf);
                assert(suf[0] == chars@[pos as int]);
                assert(label_run(suf) >= 1) by {
                    if label_run(suf) == 0 {
                        assert(!is_label_char(suf[0]));
                    }
                }
            }
            let tok = copy_range(chars, pos, pos + run);
            proof {
                assert(tok@ =~= suf.subrange(0, label_run(suf)));
            }
            let kind = label_kind_vec(&tok);
            let keep = matches!(kind, LabelKind::Local) || matches!(kind, LabelKind::Temp);
            let ts = crate::text::chars_to_string(&tok);
            let ghost next = chars@.subrange(pos + run, n as int);
            proof {
                assert(suf.subrange(label_run(suf), suf.len() as int) =~= next);
            }
            if keep {
                if !contains_str(out, &ts) {
                    let ghost before = out@;
                    proof {
                        assert forall|q: int| 0 <= q < before.len() implies before[q]@
                            != ts@ by {
                            if before[q]@ == ts@ {
                                assert(strset(before).contains(ts@));
                            }
                        }
                    }
                    out.push(ts);
                    proof {
                        assert forall|t: Seq<char>|
                            strset(out@).contains(t) implies strset(before).insert(
                            tok@,
                        ).contains(t) by {
                            let w = choose|w: int| 0 <= w < out@.len() && out@[w]@ == t;
                            if w < before.len() {
                                assert(before[w]@ == t);
                            }
                        }
                        assert forall|t: Seq<char>|
                            strset(before).insert(tok@).contains(t) implies strset(
                            out@,
                        ).contains(t) by {
                            if t == tok@ {
                                assert(out@[out@.len() - 1]@ == tok@);
                            } else {
                                let w = choose|w: int|
                                    0 <= w < before.len() && before[w]@ == t;
                                assert(out@[w]@ == t);
                            }
                        }
                        assert(strset(out@) =~= strset(before).insert(tok@));
                    }
                }
            }
            pos = pos + run;
        } else {
            proof {
                assert(suf[0] == chars@[pos as int]);
                assert(suf.subrange(1, suf.len() as int) =~= chars@.subrange(
                    pos + 1,
                    n as int,
                ));
            }
            pos = pos + 1;
        }
    }
    proof {
        assert(tokens_from(chars@.subrange(n as int, n as int)) =~= Set::<Seq<char>>::empty());
    }
}

/// Collects the used-label set of the statements in `[lo, hi)`: each
/// token once, in first-seen order.
pub fn used_labels_in(stmts: &Vec<Statement>, lo: usize, hi: usize) -> (r: Vec<String>)
    requires
        lo <= hi <= stmts@.len(),
    ensures
        forall|i: int|
            0 <= i < r@.len() ==> used_labels_set(
                views_of(stmts@).subrange(lo as int, hi as int),
            ).contains(#[trigger] r@[i]@),
        forall|tok: Seq<char>|
            used_labels_set(views_of(stmts@).subrange(lo as int, hi as int)).contains(tok)
                ==> strset(r@).contains(tok),
        forall|i: int, j: int| 0 <= i < j < r@.len() ==> r@[i]@ != r@[j]@,
{
    let ghost scope = views_of(stmts@).subrange(lo as int, hi as int);
    let mut out: Vec<String> = Vec::new();
    let mut i: usize = lo;
    proof {
        assert(scope.subrange(0, 0) =~= Seq::<StmtView>::empty());
        assert(strset(out@) =~= Set::<Seq<char>>::empty());
    }
    while i < hi
        invariant
            lo <= i <= hi <= stmts@.len(),
            scope == views_of(stmts@).subrange(lo as int, hi as int),
            strset(out@) =~= used_labels_set(scope.subrange(0, i - lo)),
            forall|p: int, q: int| 0 <= p < q < out@.len() ==> out@[p]@ != out@[q]@,
        decreases hi - i,
    {
        let ghost pre = scope.subrange(0, i - lo);
        let ghost post = scope.subrange(0, i + 1 - lo);
        proof {
            assert(post.subrange(0, post.len() - 1) =~= pre);
            assert(post[post.len() - 1] == scope[i - lo]);
            assert(scope[i - lo] == views_of(stmts@)[i as int]);
            assert(views_of(stmts@)[i as int] == stmts@[i as int]@);
        }
        match stmt_ref_text(&stmts[i]) {
            Option::Some(t) => {
                let chars = str_to_chars(t.as_str());
                add_tokens(&mut out, &chars);
                proof {
                    assert(strset(out@) =~= used_labels_set(post));
                }
            },
            Option::None => {
                proof {
                    assert(strset(out@) =~= used_labels_set(post));
                }
            },
        }
        i = i + 1;
    }
    proof {
        assert(scope.subrange(0, hi - lo) =~= scope);
    }
    out
}

/// Renderer scan state: the last emitted location and whether a blank
/// line was just emitted for a pruned label.
#[verifier::ext_equal]
pub ghost struct RenderState {
    pub prev: (int, int, int),
    pub blank: bool,
}

pub open spec fn init_render() -> RenderState {
    RenderState { prev: (0, 0, 0), blank: false }
}

/// The comment-style `path : line` marker emitted before a source line.
pub open spec fn loc_marker(path: Seq<char>, line: int) -> Seq<char> {
    seq!['\t', '\t', '/', '/', ' '] + path + seq![' ', ':', ' '] + dec_str(line)
}

/// The diagnostic emitted at raised verbosity when a referenced file's
/// content is unavailable.
pub open spec fn diag_line() -> Seq<char> {
    "\t\t// Can't locate the file, please open a ticket with cargo-show-asm"@
}

/// The raw per-statement trace emitted at maximal verbosity: the
/// statement's canonical form behind a comment marker.
pub open spec fn debug_line(v: StmtView) -> Seq<char> {
    seq![';', ' '] + render_stmt(v)
}

pub open spec fn is_directive_like(v: StmtView) -> bool {
    v is Section || v is SetD || v is Svs || v is Dir
}

/// The lines emitted for one statement, and the state that follows it.
#[verifier::opaque]
pub open spec fn render_step(
    v: StmtView,
    fmt: Format,
    files: Seq<SourceFile>,
    used: Set<Seq<char>>,
    st: RenderState,
) -> (Seq<Seq<char>>, RenderState) {
    let dbg: Seq<Seq<char>> = if fmt.verbosity > 2 {
        seq![debug_line(v)]
    } else {
        seq![]
    };
    match v {
        StmtView::FileDir { index, path } => (dbg, st),
        StmtView::LocDir { file, line, column, extra } => {
            if !fmt.rust || line == 0 || (file, line, column) == st.prev {
                (dbg, st)
            } else {
                let st2 = RenderState { prev: (file, line, column), blank: false };
                let p = cache_pos(files, file);
                if p < files.len() {
                    match files[p].lines {
                        Option::Some(ls) => if 0 <= line - 1 < ls@.len() {
                            (
                                dbg + seq![
                                    loc_marker(files[p].path@, line),
                                    seq!['\t', '\t'] + trim_start(ls@[line - 1]@),
                                ],
                                st2,
                            )
                        } else {
                            (dbg + seq![loc_marker(files[p].path@, line)], st2)
                        },
                        Option::None => if fmt.verbosity > 0 {
                            (dbg + seq![diag_line(), loc_marker(files[p].path@, line)], st2)
                        } else {
                            (dbg + seq![loc_marker(files[p].path@, line)], st2)
                        },
                    }
                } else {
                    (dbg, st2)
                }
            }
        },
        StmtView::Lab { id, kind } => if kind == LabelKind::Local || kind == LabelKind::Temp {
            if fmt.keep_labels || used.contains(id) {
                (dbg + seq![render_stmt(v)], st)
            } else if !st.blank && kind != LabelKind::Temp {
                (dbg + seq![Seq::<char>::empty()], RenderState { blank: true, ..st })
            } else {
                (dbg, st)
            }
        } else {
            (dbg + seq![render_stmt(v)], RenderState { blank: false, ..st })
        },
        _ => if fmt.simplify && (is_directive_like(v) || v is Dunno) {
            (dbg, st)
        } else {
            (dbg + seq![render_stmt(v)], RenderState { blank: false, ..st })
        },
    }
}

/// All lines emitted for the scope from position `i` in state `st`.
#[verifier::opaque]
pub open spec fn render_fold(
    scope: Seq<StmtView>,
    fmt: Format,
    files: Seq<SourceFile>,
    used: Set<Seq<char>>,
    st: RenderState,
    i: int,
) -> Seq<Seq<char>>
    decreases scope.len() - i,
{
    if i < 0 || i >= scope.len() {
        seq![]
    } else {
        let sr = render_step(scope[i], fmt, files, used, st);
        sr.0 + render_fold(scope, fmt, files, used, sr.1, i + 1)
    }
}

/// Whether one statement's location marker (if it emits one) resolves:
/// its file index is cached and, for cached content, its line number is
/// in range.
pub open spec fn loc_ok_one(
    v: StmtView,
    fmt: Format,
    files: Seq<SourceFile>,
    prev: (int, int, int),
) -> bool {
    match v {
        StmtView::LocDir { file, line, column, extra } => if !fmt.rust || line == 0 || (
        file,
        line,
        column,
        ) == prev {
            true
        } else {
            let p = cache_pos(files, file);
            p < files.len() && (match files[p].lines {
                Option::Some(ls) => 0 <= line - 1 < ls@.len(),
                Option::None => true,
            })
        },
        _ => true,
    }
}

/// The last-emitted-location state after one statement.
pub open spec fn next_prev(v: StmtView, fmt: Format, prev: (int, int, int)) -> (int, int, int) {
    match v {
        StmtView::LocDir { file, line, column, extra } => if !fmt.rust || line == 0 || (
        file,
        line,
        column,
        ) == prev {
            prev
        } else {
            (file, line, column)
        },
        _ => prev,
    }
}

/// Whether every location marker the renderer would emit for the scope
/// resolves against the source cache.
#[verifier::opaque]
pub open spec fn render_ok(
    scope: Seq<StmtView>,
    fmt: Format,
    files: Seq<SourceFile>,
    prev: (int, int, int),
    i: int,
) -> bool
    decreases scope.len() - i,
{
    if i < 0 || i >= scope.len() {
        true
    } else {
        loc_ok_one(scope[i], fmt, files, prev) && render_ok(
            scope,
            fmt,
            files,
            next_prev(scope[i], fmt, prev),
            i + 1,
        )
    }
}

/// A rendering failure: a location directive refers to a file or line
/// that the source cache cannot resolve.
#[derive(Clone, Copy, Debug, PartialEq, Eq, Structural)]
pub enum RenderError {
    UnresolvedLoc,
}

pub open spec fn lines_view(v: Seq<String>) -> Seq<Seq<char>> {
    v.map(|i: int, s: String| s@)
}

fn build_dbg(st: &Statement) -> (s: String)
    ensures
        s@ == debug_line(st@),
{
    let mut v: Vec<char> = Vec::new();
    v.push(';');
    v.push(' ');
    let r = crate::statements::render_statement(st);
    crate::text::append_str_chars(&mut v, r.as_str());
    proof {
        assert(v@ =~= debug_line(st@));
    }
    crate::text::chars_to_string(&v)
}

fn build_marker(path: &str, line: u32) -> (s: String)
    ensures
        s@ == loc_marker(path@, line as int),
{
    let mut v: Vec<char> = Vec::new();
    v.push('\t');
    v.push('\t');
    v.push('/');
    v.push('/');
    v.push(' ');
    crate::text::append_str_chars(&mut v, path);
    v.push(' ');
    v.push(':');
    v.push(' ');
    let num = u64_to_chars(line as u64);
    crate::text::append_chars(&mut v, &num);
    proof {
        assert(v@ =~= loc_marker(path@, line as int));
    }
    crate::text::chars_to_string(&v)
}

fn build_src_line(text: &str) -> (s: String)
    ensures
        s@ == seq!['\t', '\t'] + trim_start(text@),
{
    let mut v: Vec<char> = Vec::new();
    v.push('\t');
    v.push('\t');
    let chars = str_to_chars(text);
    let trimmed = trim_start_chars(&chars);
    crate::text::append_chars(&mut v, &trimmed);
    proof {
        assert(v@ =~= seq!['\t', '\t'] + trim_start(text@));
    }
    crate::text::chars_to_string(&v)
}

fn build_diag() -> (s: String)
    ensures
        s@ == diag_line(),
{
    let mut v: Vec<char> = Vec::new();
    crate::text::append_str_chars(
        &mut v,
        "\t\t// Can't locate the file, please open a ticket with cargo-show-asm",
    );
    proof {
        assert(v@ =~= diag_line());
    }
    crate::text::chars_to_string(&v)
}

proof fn lemma_render_ok_step(
    scope: Seq<StmtView>,
    fmt: Format,
    files: Seq<SourceFile>,
    prev: (int, int, int),
    j: int,
)
    requires
        0 <= j < scope.len(),
    ensures
        render_ok(scope, fmt, files, prev, j) == (loc_ok_one(scope[j], fmt, files, prev)
            && render_ok(scope, fmt, files, next_prev(scope[j], fmt, prev), j + 1)),
{
    reveal(crate::render::render_ok);
}

proof fn lemma_render_fold_step(
    scope: Seq<StmtView>,
    fmt: Format,
    files: Seq<SourceFile>,
    used: Set<Seq<char>>,
    st: RenderState,
    j: int,
)
    requires
        0 <= j < scope.len(),
    ensures
        render_fold(scope, fmt, files, used, st, j) == render_step(
            scope[j],
            fmt,
            files,
            used,
            st,
        ).0 + render_fold(
            scope,
            fmt,
            files,
            used,
            render_step(scope[j], fmt, files, used, st).1,
            j + 1,
        ),
        render_step(scope[j], fmt, files, used, st).1.prev == next_prev(scope[j], fmt, st.prev),
{
    reveal(crate::render::render_step);
    reveal(crate::render::render_fold);
}

/// Renders one statement into `out`, per the rendering rules, threading
/// the deduplication and blank-line state; fails exactly when the
/// statement emits a location marker that the cache cannot resolve.
#[verifier::rlimit(100)]
#[verifier::spinoff_prover]
fn render_one(
    line: &Statement,
    fmt: &Format,
    cache: &SourceCache,
    used: &Vec<String>,
    out: Vec<String>,
    pf: u64,
    pl: u32,
    pc: u32,
    blank: bool,
) -> (r: Result<(Vec<String>, u64, u32, u32, bool), RenderError>)
    ensures
        ({
            let st = RenderState { prev: (pf as int, pl as int, pc as int), blank: blank };
            let sr = render_step(line@, *fmt, cache.files@, strset(used@), st);
            match r {
                Result::Ok(t) => loc_ok_one(line@, *fmt, cache.files@, st.prev) && lines_view(
                    t.0@,
                ) == lines_view(out@) + sr.0 && sr.1 == (RenderState {
                    prev: (t.1 as int, t.2 as int, t.3 as int),
                    blank: t.4,
                }),
                Result::Err(_) => !loc_ok_one(line@, *fmt, cache.files@, st.prev),
            }
        }),
{
    proof {
        reveal(crate::render::render_step);
    }
    let ghost out0 = lines_view(out@);
    let mut out = out;
    let mut pf = pf;
    let mut pl = pl;
    let mut pc = pc;
    let mut blank = blank;
    if fmt.verbosity > 2 {
        let d = build_dbg(line);
        out.push(d);
    }
    match line {
        Statement::Directive(crate::statements::Directive::File(_)) => {},
        Statement::Directive(crate::statements::Directive::Loc(l)) => {
            if fmt.rust && l.line != 0 && !(l.file == pf && l.line == pl && l.column == pc) {
                match cache.find(l.file) {
                    Option::Some(p) => {
                        let cf = &cache.files[p];
                        match &cf.lines {
                            Option::Some(ls) => {
                                let ln = l.line as usize;
                                if ln >= 1 && ln - 1 < ls.len() {
                                    let m = build_marker(cf.path.as_str(), l.line);
                                    out.push(m);
                                    let src = build_src_line(ls[ln - 1].as_str());
                                    out.push(src);
                                } else {
                                    return Result::Err(RenderError::UnresolvedLoc);
                                }
                            },
                            Option::None => {
                                if fmt.verbosity > 0 {
                                    let d = build_diag();
                                    out.push(d);
                                }
                                let m = build_marker(cf.path.as_str(), l.line);
                                out.push(m);
                            },
                        }
                    },
                    Option::None => {
                        return Result::Err(RenderError::UnresolvedLoc);
                    },
                }
                pf = l.file;
                pl = l.line;
                pc = l.column;
                blank = false;
            }
        },
        Statement::Label(l) => {
            let pruned = matches!(l.kind, LabelKind::Local) || matches!(l.kind, LabelKind::Temp);
            if pruned {
                if fmt.keep_labels || contains_str(used, &l.id) {
                    let sl = crate::statements::render_statement(line);
                    out.push(sl);
                } else if !blank && !matches!(l.kind, LabelKind::Temp) {
                    out.push(String::new());
                    blank = true;
                }
            } else {
                let sl = crate::statements::render_statement(line);
                out.push(sl);
                blank = false;
            }
        },
        _ => {
            let skip = fmt.simplify && (matches!(line, Statement::Directive(_)) || matches!(
                line,
                Statement::Dunno(_),
            ));
            if !skip {
                let sl = crate::statements::render_statement(line);
                out.push(sl);
                blank = false;
            }
        },
    }
    Result::Ok((out, pf, pl, pc, blank))
}

/// Renders the statement range (`None` renders the whole sequence) to
/// output lines, per the rendering rules; fails exactly when an emitted
/// location marker cannot be resolved against the source cache.
#[verifier::rlimit(100)]
#[verifier::spinoff_prover]
#[verifier::loop_isolation(false)]
pub fn render_range_lines(
    stmts: &Vec<Statement>,
    range: Option<StmtRange>,
    fmt: &Format,
    cache: &SourceCache,
) -> (r: Result<Vec<String>, RenderError>)
    requires
        match range {
            Option::Some(sp) => sp.start <= sp.end <= stmts@.len(),
            Option::None => true,
        },
    ensures
        ({
            let scope = match range {
                Option::Some(sp) => views_of(stmts@).subrange(sp.start as int, sp.end as int),
                Option::None => views_of(stmts@),
            };
            let used = if fmt.keep_labels {
                Set::<Seq<char>>::empty()
            } else {
                used_labels_set(scope)
            };
            match r {
                Result::Ok(v) => render_ok(scope, *fmt, cache.files@, (0, 0, 0), 0) && lines_view(
                    v@,
                ) == render_fold(scope, *fmt, cache.files@, used, init_render(), 0),
                Result::Err(_) => !render_ok(scope, *fmt, cache.files@, (0, 0, 0), 0),
            }
        }),
{
    let lo: usize;
    let hi: usize;
    match range {
        Option::Some(sp) => {
            lo = sp.start;
            hi = sp.end;
        },
        Option::None => {
            lo = 0;
            hi = stmts.len();
        },
    }
    let ghost scope = views_of(stmts@).subrange(lo as int, hi as int);
    proof {
        if range is None {
            assert(scope =~= views_of(stmts@));
        }
    }
    let used: Vec<String> = if fmt.keep_labels {
        Vec::new()
    } else {
        used_labels_in(stmts, lo, hi)
    };
    let ghost used_set = if fmt.keep_labels {
        Set::<Seq<char>>::empty()
    } else {
        used_labels_set(scope)
    };
    proof {
        if fmt.keep_labels {
            assert(strset(used@) =~= used_set);
        } else {
            assert forall|t: Seq<char>| strset(used@).contains(t) implies used_set.contains(
                t,
            ) by {
                let w = choose|w: int| 0 <= w < used@.len() && used@[w]@ == t;
                assert(used_set.contains(used@[w]@));
            }
            assert(strset(used@) =~= used_set);
        }
    }
    let mut out: Vec<String> = Vec::new();
    let mut prev_file: u64 = 0;
    let mut prev_line: u32 = 0;
    let mut prev_col: u32 = 0;
    let mut blank: bool = false;
    let mut i: usize = lo;
    let ghost fmtg = *fmt;
    let ghost files = cache.files@;
    while i < hi
        invariant
            lo <= i <= hi,
            render_fold(scope, fmtg, files, used_set, init_render(), 0) =~= lines_view(out@)
                + render_fold(
                scope,
                fmtg,
                files,
                used_set,
                RenderState {
                    prev: (prev_file as int, prev_line as int, prev_col as int),
                    blank: blank,
                },
                i - lo,
            ),
            render_ok(scope, fmtg, files, (0, 0, 0), 0) == render_ok(
                scope,
                fmtg,
                files,
                (prev_file as int, prev_line as int, prev_col as int),
                i - lo,
            ),
        decreases hi - i,
    {
        let ghost stg = RenderState {
            prev: (prev_file as int, prev_line as int, prev_col as int),
            blank: blank,
        };
        let ghost j = i - lo;
        proof {
            assert(scope[j] == views_of(stmts@)[i as int]);
            assert(views_of(stmts@)[i as int] == stmts@[i as int]@);
        }
        let ghost stepr = render_step(scope[j], fmtg, files, used_set, stg);
        let ghost out0 = lines_view(out@);
        match render_one(
            &stmts[i],
            fmt,
            cache,
            &used,
            out,
            prev_file,
            prev_line,
            prev_col,
            blank,
        ) {
            Result::Ok(t) => {
                out = t.0;
                prev_file = t.1;
                prev_line = t.2;
                prev_col = t.3;
                blank = t.4;
            },
            Result::Err(e) => {
                proof {
                    lemma_render_ok_step(scope, fmtg, files, stg.prev, j);
                    assert(!render_ok(scope, fmtg, files, stg.prev, j));
                }
                return Result::Err(e);
            },
        }
        proof {
            let nst = RenderState {
                prev: (prev_file as int, prev_line as int, prev_col as int),
                blank: blank,
            };
            lemma_render_fold_step(scope, fmtg, files, used_set, stg, j);
            lemma_render_ok_step(scope, fmtg, files, stg.prev, j);
            assert(lines_view(out@) == out0 + stepr.0);
            assert(nst == stepr.1);
            assert(render_fold(scope, fmtg, files, used_set, init_render(), 0) =~= lines_view(
                out@,
            ) + render_fold(scope, fmtg, files, used_set, nst, j + 1));
            assert(render_ok(scope, fmtg, files, (0, 0, 0), 0) == render_ok(
                scope,
                fmtg,
                files,
                nst.prev,
                j + 1,
            ));
        }
        i = i + 1;
    }
    proof {
        reveal(crate::render::render_fold);
        reveal(crate::render::render_ok);
        assert(render_fold(scope, fmtg, files, used_set, init_render(), 0) =~= lines_view(out@));
    }
    Result::Ok(out)
}

/// The renderer state after scanning `[i, j)` of the scope.
pub open spec fn render_state_at(
    scope: Seq<StmtView>,
    fmt: Format,
    files: Seq<SourceFile>,
    used: Set<Seq<char>>,
    st: RenderState,
    i: int,
    j: int,
) -> RenderState
    decreases j - i,
{
    if i >= j {
        st
    } else {
        render_state_at(
            scope,
            fmt,
            files,
            used,
            render_step(scope[i], fmt, files, used, st).1,
            i + 1,
            j,
        )
    }
}

/// Whether some output line equals `l`.
pub open spec fn seq_has_line(ls: Seq<Seq<char>>, l: Seq<char>) -> bool {
    exists|q: int| 0 <= q < ls.len() && ls[q] == l
}

/// Every line a statement emits appears in the rendered output.
proof fn lemma_fold_contains(
    scope: Seq<StmtView>,
    fmt: Format,
    files: Seq<SourceFile>,
    used: Set<Seq<char>>,
    st: RenderState,
    i: int,
    j: int,
)
    requires
        0 <= i <= j < scope.len(),
    ensures
        ({
            let stj = render_state_at(scope, fmt, files, used, st, i, j);
            let emitted = render_step(scope[j], fmt, files, used, stj).0;
            forall|k: int|
                0 <= k < emitted.len() ==> seq_has_line(
                    render_fold(scope, fmt, files, used, st, i),
                    #[trigger] emitted[k],
                )
        }),
    decreases j - i,
{
    reveal(crate::render::render_fold);
    let stj = render_state_at(scope, fmt, files, used, st, i, j);
    let emitted = render_step(scope[j], fmt, files, used, stj).0;
    let whole = render_fold(scope, fmt, files, used, st, i);
    let sr = render_step(scope[i], fmt, files, used, st);
    if i == j {
        assert(stj == st);
        assert(whole == sr.0 + render_fold(scope, fmt, files, used, sr.1, i + 1));
        assert forall|k: int| 0 <= k < emitted.len() implies seq_has_line(
            whole,
            #[trigger] emitted[k],
        ) by {
            assert(whole[k] == emitted[k]);
        }
    } else {
        lemma_fold_contains(scope, fmt, files, used, sr.1, i + 1, j);
        assert(render_state_at(scope, fmt, files, used, sr.1, i + 1, j) == stj);
        let rest = render_fold(scope, fmt, files, used, sr.1, i + 1);
        assert(whole == sr.0 + rest);
        assert forall|k: int| 0 <= k < emitted.len() implies seq_has_line(
            whole,
            #[trigger] emitted[k],
        ) by {
            assert(seq_has_line(rest, emitted[k]));
            let q0 = choose|q0: int| 0 <= q0 < rest.len() && rest[q0] == emitted[k];
            assert(whole[sr.0.len() + q0] == emitted[k]);
        }
    }
}

/// A pruned-kind label whose identifier the scope references is retained:
/// its definition line stands in the rendered output.
pub proof fn theorem_used_label_kept(
    scope: Seq<StmtView>,
    fmt: Format,
    files: Seq<SourceFile>,
    used: Set<Seq<char>>,
    id: Seq<char>,
    kind: LabelKind,
    j: int,
)
    requires
        0 <= j < scope.len(),
        scope[j] == (StmtView::Lab { id, kind }),
        kind == LabelKind::Local || kind == LabelKind::Temp,
        fmt.keep_labels || used.contains(id),
    ensures
        seq_has_line(
            render_fold(scope, fmt, files, used, init_render(), 0),
            render_stmt(StmtView::Lab { id, kind }),
        ),
{
    reveal(crate::render::render_step);
    lemma_fold_contains(scope, fmt, files, used, init_render(), 0, j);
    let stj = render_state_at(scope, fmt, files, used, init_render(), 0, j);
    let emitted = render_step(scope[j], fmt, files, used, stj).0;
    assert(emitted[emitted.len() - 1] == render_stmt(StmtView::Lab { id, kind }));
}

/// A pruned-kind label that nothing references is omitted: at most one
/// blank line stands in for it, none when the previous statement already
/// emitted one (so runs of omissions collapse), and none at all for a
/// temporary label.
pub proof fn theorem_unused_label_dropped(
    id: Seq<char>,
    kind: LabelKind,
    fmt: Format,
    files: Seq<SourceFile>,
    used: Set<Seq<char>>,
    st: RenderState,
)
    requires
        kind == LabelKind::Local || kind == LabelKind::Temp,
        !fmt.keep_labels,
        !used.contains(id),
        fmt.verbosity <= 2,
    ensures
        ({
            let sr = render_step(StmtView::Lab { id, kind }, fmt, files, used, st);
            &&& sr.0.len() <= 1
            &&& (sr.0.len() == 1 ==> sr.0[0] =~= Seq::<char>::empty())
            &&& (st.blank ==> sr.0 =~= Seq::<Seq<char>>::empty())
            &&& (kind == LabelKind::Temp ==> sr.0 =~= Seq::<Seq<char>>::empty())
        }),
{
    reveal(crate::render::render_step);
}

/// A location directive with line 0, or one equal to the last emitted
/// location, emits nothing (at default verbosity).
pub proof fn theorem_loc_suppression(
    file: int,
    line: int,
    column: int,
    extra: Seq<char>,
    fmt: Format,
    files: Seq<SourceFile>,
    used: Set<Seq<char>>,
    st: RenderState,
)
    requires
        fmt.verbosity <= 2,
    ensures
        line == 0 ==> render_step(
            StmtView::LocDir { file, line, column, extra },
            fmt,
            files,
            used,
            st,
        ).0 =~= Seq::<Seq<char>>::empty(),
        (file, line, column) == st.prev ==> render_step(
            StmtView::LocDir { file, line, column, extra },
            fmt,
            files,
            used,
            st,
        ).0 =~= Seq::<Seq<char>>::empty(),
{
    reveal(crate::render::render_step);
}

/// Of two consecutive identical location directives, the second never
/// produces an emission: the first leaves it recorded as the last
/// emitted location.
pub proof fn theorem_consecutive_locs(
    file: int,
    line: int,
    column: int,
    extra: Seq<char>,
    fmt: Format,
    files: Seq<SourceFile>,
    used: Set<Seq<char>>,
    st: RenderState,
)
    requires
        fmt.verbosity <= 2,
        line > 0,
    ensures
        ({
            let v = StmtView::LocDir { file, line, column, extra };
            let first = render_step(v, fmt, files, used, st);
            render_step(v, fmt, files, used, first.1).0 =~= Seq::<Seq<char>>::empty()
        }),
{
    reveal(crate::render::render_step);
}

} // verus!
