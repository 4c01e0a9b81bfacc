//! Round-trip guarantee of the parser and the canonical rendering:
//! re-serializing a parse result and re-parsing it yields the same
//! statement sequence.

use vstd::prelude::*;

use crate::statements::{
    classify, classify_directive, classify_instruction, classify_line, file_kw, is_label_stmt,
    kw_rest, label_kind_of, loc_kw, no_nl, parse_file_args, parse_loc_args, parse_set_args,
    render_stmt, section_kw, set_kw, starts_with, stmt_no_nl, svs_kw, valid_label_id, wf_stmt,
    StmtView,
};
use crate::text::{
    dec_str, dec_val, digit_run, is_digit, is_label_char, is_ws, lemma_dec_str,
    lemma_dec_val_nonneg, lemma_digit_run, lemma_digit_run_is, lemma_nonws_run,
    lemma_nonws_run_is, lemma_scan_to, lemma_scan_to_is, lemma_trim_decomp, lemma_trim_is,
    lemma_trim_noop, lemma_trim_props, lemma_trim_start_props, lemma_ws_run, lemma_ws_run_is,
    nonws_run, scan_to, trim, trim_start, ws_run,
};

verus! {

proof fn lemma_file_args_wf(a: Seq<char>)
    requires
        a.len() > 0 ==> !is_ws(a[0]) && !is_ws(a[a.len() - 1]),
    ensures
        match parse_file_args(a) {
            Option::Some(r) => 0 <= r.0 <= u64::MAX as int && (forall|i: int|
                0 <= i < r.1.len() ==> r.1[i] != '"') && (no_nl(a) ==> no_nl(r.1)),
            Option::None => true,
        },
{
    let dl = digit_run(a);
    lemma_digit_run(a);
    if 0 < dl < a.len() {
        let pre = a.subrange(0, dl);
        assert(forall|i: int| 0 <= i < pre.len() ==> pre[i] == a[i]);
        lemma_dec_val_nonneg(pre);
        if dec_val(pre) <= u64::MAX as int && is_ws(a[dl]) {
            let tail = a.subrange(dl, a.len() as int);
            let r2 = trim_start(tail);
            lemma_trim_start_props(tail);
            lemma_ws_run(tail);
            let w = ws_run(tail);
            assert forall|j: int| 0 <= j < r2.len() implies r2[j] == a[dl + w + j] by {
                assert(r2[j] == tail[w + j]);
                assert(tail[w + j] == a[dl + (w + j)]);
            }
            if r2.len() > 0 && r2[0] == '"' {
                let inner = r2.subrange(1, r2.len() as int);
                let q = scan_to(inner, '"');
                lemma_scan_to(inner, '"');
                if 1 + q < r2.len() {
                    let p1 = r2.subrange(1, 1 + q);
                    assert forall|i: int| 0 <= i < p1.len() implies p1[i] != '"' by {
                        assert(p1[i] == r2[1 + i]);
                        assert(inner[i] == r2[1 + i]);
                    }
                    let r3 = r2.subrange(2 + q, r2.len() as int);
                    if r3.len() == 0 {
                        assert(no_nl(a) ==> no_nl(p1)) by {
                            if no_nl(a) {
                                assert forall|i: int| 0 <= i < p1.len() implies p1[i] != '\n' by {
                                    assert(p1[i] == r2[1 + i]);
                                    assert(r2[1 + i] == a[dl + w + 1 + i]);
                                }
                            }
                        }
                    } else if is_ws(r3[0]) {
                        let r4 = trim_start(r3);
                        lemma_trim_start_props(r3);
            lemma_ws_run(r3);
                        let w3 = ws_run(r3);
                        assert(forall|j: int| 0 <= j < r4.len() ==> r4[j] == r3[w3 + j]);
                        assert forall|j: int| 0 <= j < r3.len() implies r3[j] == r2[2 + q + j] by {
                            assert(r3[j] == r2[2 + q + j]);
                        }
                        if r4.len() > 0 && r4[0] == '"' {
                            let inner2 = r4.subrange(1, r4.len() as int);
                            let q2 = scan_to(inner2, '"');
                            lemma_scan_to(inner2, '"');
                            if 1 + q2 < r4.len() {
                                let p2 = r4.subrange(1, 1 + q2);
                                assert forall|i: int| 0 <= i < p2.len() implies p2[i] != '"' by {
                                    assert(p2[i] == r4[1 + i]);
                                    assert(inner2[i] == r4[1 + i]);
                                }
                                let r5 = r4.subrange(2 + q2, r4.len() as int);
                                if r5.len() == 0 {
                                    let joined = p1 + seq!['/'] + p2;
                                    assert(forall|i: int| 0 <= i < joined.len() ==> joined[i]
                                        != '"');
                                    assert(no_nl(a) ==> no_nl(joined)) by {
                                        if no_nl(a) {
                                            assert forall|i: int|
                                                0 <= i < joined.len() implies joined[i] != '\n' by {
                                                if i < p1.len() {
                                                    assert(joined[i] == p1[i]);
                                                    assert(p1[i] == r2[1 + i]);
                                                    assert(r2[1 + i] == a[dl + w + (1 + i)]);
                                                } else if i > p1.len() {
                                                    let k = i - p1.len() - 1;
                                                    assert(joined[i] == p2[k]);
                                                    assert(p2[k] == r4[1 + k]);
                                                    assert(r4[1 + k] == r3[w3 + (1 + k)]);
                                                    assert(r3[w3 + 1 + k] == r2[2 + q + (w3 + 1
                                                        + k)]);
                                                    assert(r2[2 + q + w3 + 1 + k] == a[dl + w + (2
                                                        + q + w3 + 1 + k)]);
                                                }
                                            }
                                        }
                                    }
                                }
                            }
                        }
                    }
                }
            }
        }
    }
}

proof fn lemma_loc_args_wf(a: Seq<char>)
    requires
        a.len() > 0 ==> !is_ws(a[0]) && !is_ws(a[a.len() - 1]),
    ensures
        match parse_loc_args(a) {
            Option::Some(r) => 0 <= r.0 <= u64::MAX as int && 0 <= r.1 <= u32::MAX as int && 0
                <= r.2 <= u32::MAX as int && (r.3.len() > 0 ==> !is_ws(r.3[0]) && !is_ws(
                r.3[r.3.len() - 1],
            )) && (no_nl(a) ==> no_nl(r.3)),
            Option::None => true,
        },
{
    let d1 = digit_run(a);
    lemma_digit_run(a);
    if 0 < d1 < a.len() {
        let pre = a.subrange(0, d1);
        assert(forall|i: int| 0 <= i < pre.len() ==> pre[i] == a[i]);
        lemma_dec_val_nonneg(pre);
        if dec_val(pre) <= u64::MAX as int && is_ws(a[d1]) {
            let tail = a.subrange(d1, a.len() as int);
            let r1 = trim_start(tail);
            lemma_trim_start_props(tail);
            lemma_ws_run(tail);
            let w1 = ws_run(tail);
            assert forall|j: int| 0 <= j < r1.len() implies r1[j] == a[d1 + w1 + j] by {
                assert(r1[j] == tail[w1 + j]);
                assert(tail[w1 + j] == a[d1 + (w1 + j)]);
            }
            // the last character of r1 is the last character of a
            assert(r1.len() > 0 ==> !is_ws(r1[r1.len() - 1])) by {
                if r1.len() > 0 {
                    assert(r1[r1.len() - 1] == a[a.len() - 1]);
                }
            }
            let d2 = digit_run(r1);
            lemma_digit_run(r1);
            if d2 > 0 {
                let lpre = r1.subrange(0, d2);
                assert(forall|i: int| 0 <= i < lpre.len() ==> lpre[i] == r1[i]);
                lemma_dec_val_nonneg(lpre);
                if dec_val(lpre) <= u32::MAX as int && d2 < r1.len() && is_ws(r1[d2]) {
                    let tail2 = r1.subrange(d2, r1.len() as int);
                    let r2 = trim_start(tail2);
                    lemma_trim_start_props(tail2);
            lemma_ws_run(tail2);
                    let w2 = ws_run(tail2);
                    assert forall|j: int| 0 <= j < r2.len() implies r2[j] == r1[d2 + w2 + j] by {
                        assert(r2[j] == tail2[w2 + j]);
                        assert(tail2[w2 + j] == r1[d2 + (w2 + j)]);
                    }
                    assert(r2.len() > 0 ==> !is_ws(r2[0]));
                    assert(r2.len() > 0 ==> !is_ws(r2[r2.len() - 1])) by {
                        if r2.len() > 0 {
                            assert(r2[r2.len() - 1] == r1[r1.len() - 1]);
                        }
                    }
                    assert(no_nl(a) ==> no_nl(r2)) by {
                        if no_nl(a) {
                            assert forall|j: int| 0 <= j < r2.len() implies r2[j] != '\n' by {
                                assert(r2[j] == r1[d2 + w2 + j]);
                                assert(r1[d2 + w2 + j] == a[d1 + w1 + d2 + w2 + j]);
                            }
                        }
                    }
                    let d3 = digit_run(r2);
                    lemma_digit_run(r2);
                    if d3 > 0 && (d3 == r2.len() || is_ws(r2[d3])) {
                        let cpre = r2.subrange(0, d3);
                        assert(forall|i: int| 0 <= i < cpre.len() ==> cpre[i] == r2[i]);
                        lemma_dec_val_nonneg(cpre);
                        if dec_val(cpre) <= u32::MAX as int && d3 < r2.len() {
                            let tail3 = r2.subrange(d3, r2.len() as int);
                            let ex = trim_start(tail3);
                            lemma_trim_start_props(tail3);
            lemma_ws_run(tail3);
                            let w3 = ws_run(tail3);
                            assert forall|j: int| 0 <= j < ex.len() implies ex[j] == r2[d3 + w3
                                + j] by {
                                assert(ex[j] == tail3[w3 + j]);
                                assert(tail3[w3 + j] == r2[d3 + (w3 + j)]);
                            }
                            assert(ex.len() > 0 ==> !is_ws(ex[ex.len() - 1])) by {
                                if ex.len() > 0 {
                                    assert(ex[ex.len() - 1] == r2[r2.len() - 1]);
                                }
                            }
                        }
                    }
                }
            }
        }
    }
}

proof fn lemma_set_args_wf(a: Seq<char>)
    requires
        a.len() > 0 ==> !is_ws(a[0]) && !is_ws(a[a.len() - 1]),
    ensures
        match parse_set_args(a) {
            Option::Some(r) => r.0.len() > 0 && !is_ws(r.0[0]) && !is_ws(r.0[r.0.len() - 1]) && (
            forall|i: int| 0 <= i < r.0.len() ==> r.0[i] != ',') && (r.1.len() > 0 ==> !is_ws(
                r.1[0],
            ) && !is_ws(r.1[r.1.len() - 1])) && (no_nl(a) ==> no_nl(r.0) && no_nl(r.1)),
            Option::None => true,
        },
{
    let cl = scan_to(a, ',');
    lemma_scan_to(a, ',');
    if cl < a.len() {
        let head = a.subrange(0, cl);
        let name = trim(head);
        lemma_trim_props(head);
        lemma_trim_decomp(head);
        let wh = ws_run(head);
        lemma_ws_run(head);
        assert forall|j: int| 0 <= j < name.len() implies name[j] != ',' && (no_nl(a) ==> name[j]
            != '\n') by {
            assert(name[j] == head[wh + j]);
            assert(head[wh + j] == a[wh + j]);
        }
        assert(name.len() > 0 ==> !is_ws(name[0]) && !is_ws(name[name.len() - 1]));
        let tail = a.subrange(cl + 1, a.len() as int);
        let value = trim_start(tail);
        lemma_trim_start_props(tail);
            lemma_ws_run(tail);
        let wt = ws_run(tail);
        assert forall|j: int| 0 <= j < value.len() implies value[j] == a[cl + 1 + wt + j] by {
            assert(value[j] == tail[wt + j]);
            assert(tail[wt + j] == a[cl + 1 + (wt + j)]);
        }
        assert(value.len() > 0 ==> !is_ws(value[value.len() - 1])) by {
            if value.len() > 0 {
                assert(value[value.len() - 1] == a[a.len() - 1]);
            }
        }
    }
}

proof fn lemma_classify_directive_wf(t: Seq<char>)
    requires
        t.len() >= 1,
        t[0] == '.',
        !is_ws(t[t.len() - 1]),
        !is_label_stmt(t),
    ensures
        wf_stmt(classify_directive(t)),
        no_nl(t) ==> stmt_no_nl(classify_directive(t)),
{
    if t == svs_kw() {
    } else {
        match kw_rest(t, file_kw()) {
            Option::Some(a) => {
                lemma_kw_rest_props(t, file_kw());
                lemma_file_args_wf(a);
                if parse_file_args(a) is None {
                    lemma_dir_fallback_wf(t);
                }
            },
            Option::None => {
                match kw_rest(t, loc_kw()) {
                    Option::Some(a) => {
                        lemma_kw_rest_props(t, loc_kw());
                        lemma_loc_args_wf(a);
                        if parse_loc_args(a) is None {
                            lemma_dir_fallback_wf(t);
                        }
                    },
                    Option::None => {
                        match kw_rest(t, section_kw()) {
                            Option::Some(a) => {
                                lemma_kw_rest_props(t, section_kw());
                                if a.len() == 0 {
                                    lemma_dir_fallback_wf(t);
                                }
                            },
                            Option::None => {
                                match kw_rest(t, set_kw()) {
                                    Option::Some(a) => {
                                        lemma_kw_rest_props(t, set_kw());
                                        lemma_set_args_wf(a);
                                        if parse_set_args(a) is None {
                                            lemma_dir_fallback_wf(t);
                                        }
                                    },
                                    Option::None => {
                                        if t.len() >= 2 {
                                            lemma_dir_fallback_wf(t);
                                        } else {
                                            assert(t =~= seq!['.']);
                                        }
                                    },
                                }
                            },
                        }
                    },
                }
            },
        }
    }
}

/// The remainder computed by `kw_rest` is trimmed, and its characters are
/// characters of `t`.
proof fn lemma_kw_rest_props(t: Seq<char>, kw: Seq<char>)
    requires
        t.len() > 0,
        !is_ws(t[t.len() - 1]),
        kw_rest(t, kw) is Some,
    ensures
        ({
            let a = kw_rest(t, kw)->Some_0;
            (a.len() > 0 ==> !is_ws(a[0]) && !is_ws(a[a.len() - 1])) && (no_nl(t) ==> no_nl(a))
        }),
{
    let kl = kw.len() as int;
    let tail = t.subrange(kl, t.len() as int);
    let a = trim(tail);
    lemma_trim_props(tail);
    lemma_trim_decomp(tail);
    lemma_ws_run(tail);
    let w = ws_run(tail);
    if no_nl(t) {
        assert forall|j: int| 0 <= j < a.len() implies a[j] != '\n' by {
            assert(a[j] == tail[w + j]);
            assert(tail[w + j] == t[kl + (w + j)]);
        }
    }
}

/// When a directive line falls back to the generic form, the generic form
/// is well-formed: classifying the same line again gives the same result.
proof fn lemma_dir_fallback_wf(t: Seq<char>)
    requires
        t.len() >= 2,
        t[0] == '.',
        !is_ws(t[t.len() - 1]),
        !is_label_stmt(t),
        classify_directive(t) == (StmtView::Dir { text: t.subrange(1, t.len() as int) }),
    ensures
        wf_stmt(classify_directive(t)),
        no_nl(t) ==> stmt_no_nl(classify_directive(t)),
{
    let text = t.subrange(1, t.len() as int);
    assert(seq!['.'] + text =~= t);
    assert(classify(seq!['.'] + text) == classify(t));
    assert(classify(t) == classify_directive(t));
    assert(text.len() > 0);
    assert(!is_ws(text[text.len() - 1]));
}

/// Every parse result is well-formed, and (for newline-free lines) free of
/// newlines in all its character data.
pub proof fn lemma_classify_wf(raw: Seq<char>)
    ensures
        wf_stmt(classify_line(raw)),
        no_nl(raw) ==> stmt_no_nl(classify_line(raw)),
{
    let t = trim(raw);
    lemma_trim_props(raw);
    lemma_trim_decomp(raw);
    lemma_ws_run(raw);
    assert(no_nl(raw) ==> no_nl(t)) by {
        if no_nl(raw) {
            assert forall|j: int| 0 <= j < t.len() implies t[j] != '\n' by {
                assert(t[j] == raw[ws_run(raw) + j]);
            }
        }
    }
    if t.len() == 0 {
    } else if is_label_stmt(t) {
        let id = t.subrange(0, t.len() - 1);
        assert(forall|j: int| 0 <= j < id.len() ==> id[j] == t[j]);
    } else if t[0] == '.' {
        lemma_classify_directive_wf(t);
    } else {
        let ml = nonws_run(t);
        lemma_nonws_run(t);
        assert(ml >= 1) by {
            if ml == 0 {
                assert(is_ws(t[0]));
            }
        }
        let m = t.subrange(0, ml);
        assert(forall|j: int| 0 <= j < m.len() ==> m[j] == t[j]);
        let tail = t.subrange(ml, t.len() as int);
        let rest = trim(tail);
        lemma_trim_props(tail);
        lemma_trim_decomp(tail);
        if rest.len() == 0 {
            // the whole trimmed line is the mnemonic: a nonempty tail
            // would keep the line's non-whitespace last character through
            // the trim, so the tail must be empty
            if ml < t.len() {
                let w = ws_run(tail);
                lemma_ws_run(tail);
                assert(tail[tail.len() - 1] == t[t.len() - 1]);
                assert(!is_ws(tail[tail.len() - 1]));
                if w == tail.len() {
                    assert(is_ws(tail[tail.len() - 1]));
                }
                let ts = trim_start(tail);
                lemma_trim_start_props(tail);
                assert(ts.len() > 0);
                assert(ts[ts.len() - 1] == tail[w + (ts.len() - 1)]);
                assert(!is_ws(ts[ts.len() - 1]));
                crate::text::lemma_ws_run_end_is(ts, 0);
                assert(rest =~= ts.subrange(0, ts.len() as int));
            }
            assert(ml == t.len());
            assert(m =~= t);
        } else {
            lemma_ws_run(tail);
            assert(no_nl(raw) ==> no_nl(rest)) by {
                if no_nl(raw) {
                    let w = ws_run(tail);
                    assert forall|j: int| 0 <= j < rest.len() implies rest[j] != '\n' by {
                        assert(rest[j] == tail[w + j]);
                        assert(tail[w + j] == t[ml + (w + j)]);
                    }
                }
            }
        }
    }
}

proof fn lemma_rt_label(id: Seq<char>, kind: crate::statements::LabelKind)
    requires
        wf_stmt(StmtView::Lab { id, kind }),
    ensures
        classify_line(render_stmt(StmtView::Lab { id, kind })) == (StmtView::Lab { id, kind }),
{
    let s = id.push(':');
    assert(!is_ws(s[0])) by {
        assert(s[0] == id[0]);
        assert(is_label_char(id[0]));
    }
    assert(s[s.len() - 1] == ':');
    lemma_trim_noop(s);
    assert(is_label_stmt(s)) by {
        assert(s.subrange(0, s.len() - 1) =~= id);
    }
    assert(s.subrange(0, s.len() - 1) =~= id);
    assert(classify_line(render_stmt(StmtView::Lab { id, kind })) =~= StmtView::Lab { id, kind });
}

proof fn lemma_rt_inst(m: Seq<char>, args: Option<Seq<char>>)
    requires
        wf_stmt(StmtView::Inst { mnemonic: m, args }),
    ensures
        classify_line(render_stmt(StmtView::Inst { mnemonic: m, args })) == (StmtView::Inst {
            mnemonic: m,
            args,
        }),
{
    match args {
        Option::None => {
            let s = seq!['\t'] + m;
            assert(s[0] == '\t');
            assert(s[1] == m[0]);
            assert(s[s.len() - 1] == m[m.len() - 1]);
            lemma_trim_is(s, 1, s.len() as int);
            let t = s.subrange(1, s.len() as int);
            assert(t =~= m);
            assert(!is_label_stmt(t));
            assert(t[0] != '.');
            lemma_nonws_run_is(t, t.len() as int);
            assert(t.subrange(0, t.len() as int) =~= m);
            let tail = t.subrange(t.len() as int, t.len() as int);
            assert(tail =~= Seq::<char>::empty());
            assert(ws_run(tail) == 0);
            assert(trim_start(tail) =~= tail);
            assert(trim(tail) =~= tail);
            assert(classify_line(render_stmt(StmtView::Inst { mnemonic: m, args }))
                =~= StmtView::Inst { mnemonic: m, args });
        },
        Option::Some(a) => {
            let s = seq!['\t'] + m + seq![' '] + a;
            assert(s[0] == '\t');
            assert(s[1] == m[0]);
            assert(s[s.len() - 1] == a[a.len() - 1]);
            lemma_trim_is(s, 1, s.len() as int);
            let t = s.subrange(1, s.len() as int);
            assert(t =~= m + seq![' '] + a);
            assert(t[m.len() as int] == ' ');
            assert(!is_label_stmt(t)) by {
                if is_label_stmt(t) {
                    let id = t.subrange(0, t.len() - 1);
                    assert(m.len() < t.len() - 1);
                    assert(id[m.len() as int] == ' ');
                    assert(is_label_char(' '));
                }
            }
            assert(t[0] == m[0]);
            assert(t[0] != '.');
            lemma_nonws_run_is(t, m.len() as int);
            assert(t.subrange(0, m.len() as int) =~= m);
            let tail = t.subrange(m.len() as int, t.len() as int);
            assert(tail =~= seq![' '] + a);
            assert(tail[0] == ' ');
            assert(tail[1] == a[0]);
            assert(tail[tail.len() - 1] == a[a.len() - 1]);
            lemma_trim_is(tail, 1, tail.len() as int);
            assert(trim(tail) =~= a);
            assert(classify_line(render_stmt(StmtView::Inst { mnemonic: m, args }))
                =~= StmtView::Inst { mnemonic: m, args });
        },
    }
}

proof fn lemma_rt_file(index: int, path: Seq<char>)
    requires
        wf_stmt(StmtView::FileDir { index, path }),
    ensures
        classify_line(render_stmt(StmtView::FileDir { index, path })) == (StmtView::FileDir {
            index,
            path,
        }),
{
    let dec = dec_str(index);
    lemma_dec_str(index);
    let s = seq!['\t'] + file_kw() + seq!['\t'] + dec + seq![' ', '"'] + path + seq!['"'];
    assert(s[0] == '\t');
    assert(s[1] == '.');
    assert(s[s.len() - 1] == '"');
    lemma_trim_is(s, 1, s.len() as int);
    let t = s.subrange(1, s.len() as int);
    assert(t =~= file_kw() + seq!['\t'] + dec + seq![' ', '"'] + path + seq!['"']);
    assert(t[t.len() - 1] == '"');
    assert(!is_label_stmt(t));
    assert(t[0] == '.');
    assert(t != svs_kw()) by {
        if t == svs_kw() {
            assert(t[1] == svs_kw()[1]);
            assert(t[1] == 'f');
        }
    }
    assert(t.subrange(0, 5) =~= file_kw());
    assert(t[5] == '\t');
    let tail = t.subrange(5, t.len() as int);
    assert(tail =~= seq!['\t'] + dec + seq![' ', '"'] + path + seq!['"']);
    assert(tail[0] == '\t');
    assert(tail[1] == dec[0]);
    assert(!is_ws(dec[0]));
    assert(tail[tail.len() - 1] == '"');
    lemma_trim_is(tail, 1, tail.len() as int);
    let a = tail.subrange(1, tail.len() as int);
    assert(a =~= dec + seq![' ', '"'] + path + seq!['"']);
    assert(kw_rest(t, file_kw()) == Option::Some(a));
    let dl = dec.len() as int;
    lemma_digit_run_is(a, dl);
    assert(a.subrange(0, dl) =~= dec);
    assert(is_ws(a[dl]));
    let tl2 = a.subrange(dl, a.len() as int);
    assert(tl2 =~= seq![' ', '"'] + path + seq!['"']);
    lemma_ws_run_is(tl2, 1);
    let r2 = trim_start(tl2);
    assert(r2 =~= seq!['"'] + path + seq!['"']);
    assert(r2[0] == '"');
    let inner = r2.subrange(1, r2.len() as int);
    assert(inner =~= path + seq!['"']);
    lemma_scan_to_is(inner, '"', path.len() as int);
    let q = path.len() as int;
    assert(1 + q < r2.len());
    assert(r2.subrange(1, 1 + q) =~= path);
    assert(r2.subrange(2 + q, r2.len() as int) =~= Seq::<char>::empty());
    assert(parse_file_args(a) == Option::Some((index, path)));
    assert(classify_line(render_stmt(StmtView::FileDir { index, path })) =~= StmtView::FileDir {
        index,
        path,
    });
}

proof fn lemma_rt_section(name: Seq<char>)
    requires
        wf_stmt(StmtView::Section { name }),
    ensures
        classify_line(render_stmt(StmtView::Section { name })) == (StmtView::Section { name }),
{
    let s = seq!['\t'] + section_kw() + seq![' '] + name;
    assert(s[0] == '\t');
    assert(s[1] == '.');
    assert(s[s.len() - 1] == name[name.len() - 1]);
    lemma_trim_is(s, 1, s.len() as int);
    let t = s.subrange(1, s.len() as int);
    assert(t =~= section_kw() + seq![' '] + name);
    assert(t[8] == ' ');
    assert(!is_label_stmt(t)) by {
        if is_label_stmt(t) {
            let id = t.subrange(0, t.len() - 1);
            assert(8 < t.len() - 1);
            assert(id[8] == ' ');
            assert(is_label_char(' '));
        }
    }
    assert(t[0] == '.');
    assert(t != svs_kw()) by {
        if t == svs_kw() {
            assert(t[2] == svs_kw()[2]);
            assert(t[2] == 'e');
        }
    }
    assert(kw_rest(t, file_kw()) is None) by {
        if t.subrange(0, 5) == file_kw() {
            assert(t.subrange(0, 5)[1] == 'f');
            assert(t[1] == 's');
        }
    }
    assert(kw_rest(t, loc_kw()) is None) by {
        if t.subrange(0, 4) == loc_kw() {
            assert(t.subrange(0, 4)[1] == 'l');
            assert(t[1] == 's');
        }
    }
    assert(t.subrange(0, 8) =~= section_kw());
    assert(is_ws(t[8]));
    let tail = t.subrange(8, t.len() as int);
    assert(tail =~= seq![' '] + name);
    assert(tail[0] == ' ');
    assert(tail[1] == name[0]);
    assert(tail[tail.len() - 1] == name[name.len() - 1]);
    lemma_trim_is(tail, 1, tail.len() as int);
    assert(trim(tail) =~= name);
    assert(classify_line(render_stmt(StmtView::Section { name })) =~= StmtView::Section { name });
}

proof fn lemma_rt_svs()
    ensures
        classify_line(render_stmt(StmtView::Svs)) == StmtView::Svs,
{
    let s = seq!['\t'] + svs_kw();
    assert(s[0] == '\t');
    assert(s[1] == '.');
    assert(s[s.len() - 1] == 's');
    lemma_trim_is(s, 1, s.len() as int);
    let t = s.subrange(1, s.len() as int);
    assert(t =~= svs_kw());
    assert(t[t.len() - 1] == 's');
    assert(!is_label_stmt(t));
    assert(t[0] == '.');
    assert(classify_line(render_stmt(StmtView::Svs)) =~= StmtView::Svs);
}

proof fn lemma_rt_dir(text: Seq<char>)
    requires
        wf_stmt(StmtView::Dir { text }),
    ensures
        classify_line(render_stmt(StmtView::Dir { text })) == (StmtView::Dir { text }),
{
    let s = seq!['\t', '.'] + text;
    assert(s[0] == '\t');
    assert(s[1] == '.');
    assert(s[s.len() - 1] == text[text.len() - 1]);
    lemma_trim_is(s, 1, s.len() as int);
    let t = s.subrange(1, s.len() as int);
    assert(t =~= seq!['.'] + text);
    assert(classify(seq!['.'] + text) == StmtView::Dir { text });
}

proof fn lemma_rt_set(name: Seq<char>, value: Seq<char>)
    requires
        wf_stmt(StmtView::SetD { name, value }),
    ensures
        classify_line(render_stmt(StmtView::SetD { name, value })) == (StmtView::SetD {
            name,
            value,
        }),
{
    let s = seq!['\t'] + set_kw() + seq![' '] + name + seq![',', ' '] + value;
    assert(s[0] == '\t');
    assert(s[1] == '.');
    let t = if value.len() > 0 {
        assert(s[s.len() - 1] == value[value.len() - 1]);
        lemma_trim_is(s, 1, s.len() as int);
        s.subrange(1, s.len() as int)
    } else {
        assert(s[s.len() - 1] == ' ');
        assert(s[s.len() - 2] == ',');
        lemma_trim_is(s, 1, s.len() - 1);
        s.subrange(1, s.len() - 1)
    };
    assert(trim(s) == t);
    assert(t[4] == ' ');
    assert(!is_label_stmt(t)) by {
        if is_label_stmt(t) {
            let id = t.subrange(0, t.len() - 1);
            assert(4 < t.len() - 1);
            assert(id[4] == ' ');
            assert(is_label_char(' '));
        }
    }
    assert(t[0] == '.');
    assert(t != svs_kw()) by {
        if t == svs_kw() {
            assert(t[3] == svs_kw()[3]);
            assert(t[3] == 't');
        }
    }
    assert(kw_rest(t, file_kw()) is None) by {
        if t.len() > 5 && t.subrange(0, 5) == file_kw() {
            assert(t.subrange(0, 5)[1] == 'f');
            assert(t[1] == 's');
        }
    }
    assert(kw_rest(t, loc_kw()) is None) by {
        if t.subrange(0, 4) == loc_kw() {
            assert(t.subrange(0, 4)[1] == 'l');
            assert(t[1] == 's');
        }
    }
    assert(kw_rest(t, section_kw()) is None) by {
        if t.len() > 8 && t.subrange(0, 8) == section_kw() {
            assert(t.subrange(0, 8)[3] == 'c');
            assert(t[3] == 't');
        }
    }
    assert(t.subrange(0, 4) =~= set_kw());
    assert(is_ws(t[4]));
    let tail = t.subrange(4, t.len() as int);
    let a = trim(tail);
    assert(kw_rest(t, set_kw()) == Option::Some(a));
    if value.len() > 0 {
        assert(tail =~= seq![' '] + name + seq![',', ' '] + value);
        assert(tail[0] == ' ');
        assert(tail[1] == name[0]);
        assert(tail[tail.len() - 1] == value[value.len() - 1]);
        lemma_trim_is(tail, 1, tail.len() as int);
        assert(a =~= name + seq![',', ' '] + value);
        lemma_scan_to_is(a, ',', name.len() as int);
        assert(a.subrange(0, name.len() as int) =~= name);
        lemma_trim_noop(name);
        let vtail = a.subrange(name.len() as int + 1, a.len() as int);
        assert(vtail =~= seq![' '] + value);
        lemma_ws_run_is(vtail, 1);
        assert(trim_start(vtail) =~= value);
        assert(parse_set_args(a) == Option::Some((name, value)));
    } else {
        assert(tail =~= seq![' '] + name + seq![',']);
        assert(tail[0] == ' ');
        assert(tail[1] == name[0]);
        assert(tail[tail.len() - 1] == ',');
        lemma_trim_is(tail, 1, tail.len() as int);
        assert(a =~= name + seq![',']);
        lemma_scan_to_is(a, ',', name.len() as int);
        assert(a.subrange(0, name.len() as int) =~= name);
        lemma_trim_noop(name);
        let vtail = a.subrange(name.len() as int + 1, a.len() as int);
        assert(vtail =~= Seq::<char>::empty());
        assert(ws_run(vtail) == 0);
        assert(trim_start(vtail) =~= value);
        assert(parse_set_args(a) == Option::Some((name, value)));
    }
    assert(classify_line(render_stmt(StmtView::SetD { name, value })) =~= StmtView::SetD {
        name,
        value,
    });
}

#[verifier::rlimit(100)]
#[verifier::spinoff_prover]
proof fn lemma_rt_loc_plain(file: int, line: int, column: int, extra: Seq<char>)
    requires
        wf_stmt(StmtView::LocDir { file, line, column, extra }),
        extra.len() == 0 && column == 0,
    ensures
        classify_line(render_stmt(StmtView::LocDir { file, line, column, extra }))
            == (StmtView::LocDir { file, line, column, extra }),
{
    let decf = dec_str(file);
    let decl = dec_str(line);
    let decc = dec_str(column);
    lemma_dec_str(file);
    lemma_dec_str(line);
    lemma_dec_str(column);
    let head = seq!['\t'] + loc_kw() + seq!['\t'] + decf + seq![' '] + decl;
    let s = render_stmt(StmtView::LocDir { file, line, column, extra });
    assert(s[0] == '\t');
    assert(s[1] == '.');
    assert(!is_ws(s[s.len() - 1])) by {
        if extra.len() > 0 {
            assert(s[s.len() - 1] == extra[extra.len() - 1]);
        } else if column > 0 {
            assert(s =~= head + seq![' '] + decc);
            assert(s[s.len() - 1] == decc[decc.len() - 1]);
        } else {
            assert(s =~= head);
            assert(s[s.len() - 1] == decl[decl.len() - 1]);
        }
    }
    lemma_trim_is(s, 1, s.len() as int);
    let t = s.subrange(1, s.len() as int);
    assert(t[t.len() - 1] == s[s.len() - 1]);
    assert(!is_label_stmt(t)) by {
        assert(t[4] == '\t');
        if is_label_stmt(t) {
            let id = t.subrange(0, t.len() - 1);
            assert(4 < t.len() - 1);
            assert(id[4] == '\t');
            assert(is_label_char('\t'));
        }
    }
    assert(t[0] == '.');
    assert(t != svs_kw()) by {
        if t == svs_kw() {
            assert(t[1] == svs_kw()[1]);
            assert(t[1] == 'l');
        }
    }
    assert(kw_rest(t, file_kw()) is None) by {
        if t.len() > 5 && t.subrange(0, 5) == file_kw() {
            assert(t.subrange(0, 5)[1] == 'f');
            assert(t[1] == 'l');
        }
    }
    assert(t.subrange(0, 4) =~= loc_kw());
    assert(is_ws(t[4]));
    let tail = t.subrange(4, t.len() as int);
    assert(tail[0] == '\t');
    assert(tail[1] == decf[0]);
    assert(tail[tail.len() - 1] == t[t.len() - 1]);
    lemma_trim_is(tail, 1, tail.len() as int);
    let a = tail.subrange(1, tail.len() as int);
    assert(kw_rest(t, loc_kw()) == Option::Some(a));
    let d1 = decf.len() as int;
    let d2 = decl.len() as int;
    let d3 = decc.len() as int;
    assert(s =~= head);
    assert(a =~= decf + seq![' '] + decl);
    lemma_digit_run_is(a, d1);
    assert(a.subrange(0, d1) =~= decf);
    assert(is_ws(a[d1]));
    let tl = a.subrange(d1, a.len() as int);
    assert(tl =~= seq![' '] + decl);
    lemma_ws_run_is(tl, 1);
    let r1 = trim_start(tl);
    assert(r1 =~= decl);
    lemma_digit_run_is(r1, d2);
    assert(r1.subrange(0, d2) =~= decl);
    assert(parse_loc_args(a) == Option::Some((file, line, 0int, Seq::<char>::empty())));
    assert(classify_line(s) =~= StmtView::LocDir { file, line, column, extra });
}


#[verifier::rlimit(100)]
#[verifier::spinoff_prover]
proof fn lemma_rt_loc_col(file: int, line: int, column: int, extra: Seq<char>)
    requires
        wf_stmt(StmtView::LocDir { file, line, column, extra }),
        extra.len() == 0 && column > 0,
    ensures
        classify_line(render_stmt(StmtView::LocDir { file, line, column, extra }))
            == (StmtView::LocDir { file, line, column, extra }),
{
    let decf = dec_str(file);
    let decl = dec_str(line);
    let decc = dec_str(column);
    lemma_dec_str(file);
    lemma_dec_str(line);
    lemma_dec_str(column);
    let head = seq!['\t'] + loc_kw() + seq!['\t'] + decf + seq![' '] + decl;
    let s = render_stmt(StmtView::LocDir { file, line, column, extra });
    assert(s[0] == '\t');
    assert(s[1] == '.');
    assert(!is_ws(s[s.len() - 1])) by {
        if extra.len() > 0 {
            assert(s[s.len() - 1] == extra[extra.len() - 1]);
        } else if column > 0 {
            assert(s =~= head + seq![' '] + decc);
            assert(s[s.len() - 1] == decc[decc.len() - 1]);
        } else {
            assert(s =~= head);
            assert(s[s.len() - 1] == decl[decl.len() - 1]);
        }
    }
    lemma_trim_is(s, 1, s.len() as int);
    let t = s.subrange(1, s.len() as int);
    assert(t[t.len() - 1] == s[s.len() - 1]);
    assert(!is_label_stmt(t)) by {
        assert(t[4] == '\t');
        if is_label_stmt(t) {
            let id = t.subrange(0, t.len() - 1);
            assert(4 < t.len() - 1);
            assert(id[4] == '\t');
            assert(is_label_char('\t'));
        }
    }
    assert(t[0] == '.');
    assert(t != svs_kw()) by {
        if t == svs_kw() {
            assert(t[1] == svs_kw()[1]);
            assert(t[1] == 'l');
        }
    }
    assert(kw_rest(t, file_kw()) is None) by {
        if t.len() > 5 && t.subrange(0, 5) == file_kw() {
            assert(t.subrange(0, 5)[1] == 'f');
            assert(t[1] == 'l');
        }
    }
    assert(t.subrange(0, 4) =~= loc_kw());
    assert(is_ws(t[4]));
    let tail = t.subrange(4, t.len() as int);
    assert(tail[0] == '\t');
    assert(tail[1] == decf[0]);
    assert(tail[tail.len() - 1] == t[t.len() - 1]);
    lemma_trim_is(tail, 1, tail.len() as int);
    let a = tail.subrange(1, tail.len() as int);
    assert(kw_rest(t, loc_kw()) == Option::Some(a));
    let d1 = decf.len() as int;
    let d2 = decl.len() as int;
    let d3 = decc.len() as int;
    assert(s =~= head + seq![' '] + decc);
    assert(a =~= decf + seq![' '] + decl + seq![' '] + decc);
    lemma_digit_run_is(a, d1);
    assert(a.subrange(0, d1) =~= decf);
    assert(is_ws(a[d1]));
    let tl = a.subrange(d1, a.len() as int);
    assert(tl =~= seq![' '] + decl + seq![' '] + decc);
    lemma_ws_run_is(tl, 1);
    let r1 = trim_start(tl);
    assert(r1 =~= decl + seq![' '] + decc);
    lemma_digit_run_is(r1, d2);
    assert(r1.subrange(0, d2) =~= decl);
    assert(is_ws(r1[d2]));
    let tl2 = r1.subrange(d2, r1.len() as int);
    assert(tl2 =~= seq![' '] + decc);
    lemma_ws_run_is(tl2, 1);
    let r2 = trim_start(tl2);
    assert(r2 =~= decc);
    lemma_digit_run_is(r2, d3);
    assert(r2.subrange(0, d3) =~= decc);
    assert(parse_loc_args(a) == Option::Some((file, line, column, Seq::<char>::empty())));
    assert(classify_line(s) =~= StmtView::LocDir { file, line, column, extra });
}


#[verifier::rlimit(100)]
#[verifier::spinoff_prover]
proof fn lemma_rt_loc_extra(file: int, line: int, column: int, extra: Seq<char>)
    requires
        wf_stmt(StmtView::LocDir { file, line, column, extra }),
        extra.len() > 0,
    ensures
        classify_line(render_stmt(StmtView::LocDir { file, line, column, extra }))
            == (StmtView::LocDir { file, line, column, extra }),
{
    let decf = dec_str(file);
    let decl = dec_str(line);
    let decc = dec_str(column);
    lemma_dec_str(file);
    lemma_dec_str(line);
    lemma_dec_str(column);
    let head = seq!['\t'] + loc_kw() + seq!['\t'] + decf + seq![' '] + decl;
    let s = render_stmt(StmtView::LocDir { file, line, column, extra });
    assert(s[0] == '\t');
    assert(s[1] == '.');
    assert(!is_ws(s[s.len() - 1])) by {
        if extra.len() > 0 {
            assert(s[s.len() - 1] == extra[extra.len() - 1]);
        } else if column > 0 {
            assert(s =~= head + seq![' '] + decc);
            assert(s[s.len() - 1] == decc[decc.len() - 1]);
        } else {
            assert(s =~= head);
            assert(s[s.len() - 1] == decl[decl.len() - 1]);
        }
    }
    lemma_trim_is(s, 1, s.len() as int);
    let t = s.subrange(1, s.len() as int);
    assert(t[t.len() - 1] == s[s.len() - 1]);
    assert(!is_label_stmt(t)) by {
        assert(t[4] == '\t');
        if is_label_stmt(t) {
            let id = t.subrange(0, t.len() - 1);
            assert(4 < t.len() - 1);
            assert(id[4] == '\t');
            assert(is_label_char('\t'));
        }
    }
    assert(t[0] == '.');
    assert(t != svs_kw()) by {
        if t == svs_kw() {
            assert(t[1] == svs_kw()[1]);
            assert(t[1] == 'l');
        }
    }
    assert(kw_rest(t, file_kw()) is None) by {
        if t.len() > 5 && t.subrange(0, 5) == file_kw() {
            assert(t.subrange(0, 5)[1] == 'f');
            assert(t[1] == 'l');
        }
    }
    assert(t.subrange(0, 4) =~= loc_kw());
    assert(is_ws(t[4]));
    let tail = t.subrange(4, t.len() as int);
    assert(tail[0] == '\t');
    assert(tail[1] == decf[0]);
    assert(tail[tail.len() - 1] == t[t.len() - 1]);
    lemma_trim_is(tail, 1, tail.len() as int);
    let a = tail.subrange(1, tail.len() as int);
    assert(kw_rest(t, loc_kw()) == Option::Some(a));
    let d1 = decf.len() as int;
    let d2 = decl.len() as int;
    let d3 = decc.len() as int;
    let withc = head + seq![' '] + decc;
    assert(s =~= withc + seq![' '] + extra);
    assert(a =~= decf + seq![' '] + decl + seq![' '] + decc + seq![' '] + extra);
    lemma_digit_run_is(a, d1);
    assert(a.subrange(0, d1) =~= decf);
    assert(is_ws(a[d1]));
    let tl = a.subrange(d1, a.len() as int);
    assert(tl =~= seq![' '] + decl + seq![' '] + decc + seq![' '] + extra);
    lemma_ws_run_is(tl, 1);
    let r1 = trim_start(tl);
    assert(r1 =~= decl + seq![' '] + decc + seq![' '] + extra);
    lemma_digit_run_is(r1, d2);
    assert(r1.subrange(0, d2) =~= decl);
    assert(is_ws(r1[d2]));
    let tl2 = r1.subrange(d2, r1.len() as int);
    assert(tl2 =~= seq![' '] + decc + seq![' '] + extra);
    lemma_ws_run_is(tl2, 1);
    let r2 = trim_start(tl2);
    assert(r2 =~= decc + seq![' '] + extra);
    lemma_digit_run_is(r2, d3);
    assert(r2.subrange(0, d3) =~= decc);
    assert(is_ws(r2[d3]));
    let tl3 = r2.subrange(d3, r2.len() as int);
    assert(tl3 =~= seq![' '] + extra);
    lemma_ws_run_is(tl3, 1);
    assert(trim_start(tl3) =~= extra);
    assert(parse_loc_args(a) == Option::Some((file, line, column, extra)));
    assert(classify_line(s) =~= StmtView::LocDir { file, line, column, extra });
}


proof fn lemma_rt_loc(file: int, line: int, column: int, extra: Seq<char>)
    requires
        wf_stmt(StmtView::LocDir { file, line, column, extra }),
    ensures
        classify_line(render_stmt(StmtView::LocDir { file, line, column, extra }))
            == (StmtView::LocDir { file, line, column, extra }),
{
    if extra.len() == 0 && column == 0 {
        lemma_rt_loc_plain(file, line, column, extra);
    } else if extra.len() == 0 {
        lemma_rt_loc_col(file, line, column, extra);
    } else {
        lemma_rt_loc_extra(file, line, column, extra);
    }
}

/// Re-parsing the canonical rendering of a well-formed statement gives the
/// statement back.
pub proof fn lemma_render_classify(v: StmtView)
    requires
        wf_stmt(v),
    ensures
        classify_line(render_stmt(v)) == v,
{
    match v {
        StmtView::Nothing => {
            let e = Seq::<char>::empty();
            assert(ws_run(e) == 0);
            assert(trim_start(e) =~= e);
            assert(trim(e) =~= e);
        },
        StmtView::Dunno { text } => {
            lemma_trim_noop(text);
        },
        StmtView::Lab { id, kind } => {
            lemma_rt_label(id, kind);
        },
        StmtView::Inst { mnemonic, args } => {
            lemma_rt_inst(mnemonic, args);
        },
        StmtView::FileDir { index, path } => {
            lemma_rt_file(index, path);
        },
        StmtView::LocDir { file, line, column, extra } => {
            lemma_rt_loc(file, line, column, extra);
        },
        StmtView::Section { name } => {
            lemma_rt_section(name);
        },
        StmtView::SetD { name, value } => {
            lemma_rt_set(name, value);
        },
        StmtView::Svs => {
            lemma_rt_svs();
        },
        StmtView::Dir { text } => {
            lemma_rt_dir(text);
        },
    }
}

/// Idempotent round trip at the line level: re-parsing the canonical
/// rendering of any line's parse yields the same statement.
pub proof fn theorem_line_round_trip(raw: Seq<char>)
    ensures
        classify_line(render_stmt(classify_line(raw))) == classify_line(raw),
{
    lemma_classify_wf(raw);
    lemma_render_classify(classify_line(raw));
}

/// Canonical rendering of a statement sequence, one line per statement.
pub open spec fn render_lines(vs: Seq<StmtView>) -> Seq<char>
    decreases vs.len(),
{
    if vs.len() == 0 {
        Seq::empty()
    } else {
        render_stmt(vs[0]).push('\n') + render_lines(vs.subrange(1, vs.len() as int))
    }
}

proof fn lemma_no_nl_dec(n: int)
    requires
        n >= 0,
    ensures
        no_nl(dec_str(n)),
{
    lemma_dec_str(n);
    assert forall|i: int| 0 <= i < dec_str(n).len() implies dec_str(n)[i] != '\n' by {
        assert(is_digit(dec_str(n)[i]));
    }
}

proof fn lemma_render_no_nl(v: StmtView)
    requires
        wf_stmt(v),
        stmt_no_nl(v),
    ensures
        no_nl(render_stmt(v)),
{
    match v {
        StmtView::Nothing => {},
        StmtView::Dunno { text } => {},
        StmtView::Lab { id, kind } => {
            let s = id.push(':');
            assert forall|i: int| 0 <= i < s.len() implies s[i] != '\n' by {
                if i < id.len() {
                    assert(s[i] == id[i]);
                }
            }
        },
        StmtView::Inst { mnemonic, args } => {
            assert forall|i: int| 0 <= i < render_stmt(v).len() implies render_stmt(v)[i]
                != '\n' by {}
        },
        StmtView::FileDir { index, path } => {
            lemma_no_nl_dec(index);
            assert forall|i: int| 0 <= i < render_stmt(v).len() implies render_stmt(v)[i]
                != '\n' by {}
        },
        StmtView::LocDir { file, line, column, extra } => {
            lemma_no_nl_dec(file);
            lemma_no_nl_dec(line);
            lemma_no_nl_dec(column);
            assert forall|i: int| 0 <= i < render_stmt(v).len() implies render_stmt(v)[i]
                != '\n' by {}
        },
        StmtView::Section { name } => {
            assert forall|i: int| 0 <= i < render_stmt(v).len() implies render_stmt(v)[i]
                != '\n' by {}
        },
        StmtView::SetD { name, value } => {
            assert forall|i: int| 0 <= i < render_stmt(v).len() implies render_stmt(v)[i]
                != '\n' by {}
        },
        StmtView::Svs => {
            assert forall|i: int| 0 <= i < render_stmt(v).len() implies render_stmt(v)[i]
                != '\n' by {}
        },
        StmtView::Dir { text } => {
            assert forall|i: int| 0 <= i < render_stmt(v).len() implies render_stmt(v)[i]
                != '\n' by {}
        },
    }
}

/// The rendering of a well-formed statement sequence is newline-terminated
/// (so the parser accepts it) and parses back to the same sequence.
#[verifier::rlimit(100)]
#[verifier::spinoff_prover]
pub proof fn lemma_parse_render_lines(vs: Seq<StmtView>)
    requires
        forall|i: int| 0 <= i < vs.len() ==> wf_stmt(vs[i]) && stmt_no_nl(vs[i]),
    ensures
        render_lines(vs).len() == 0 || render_lines(vs)[render_lines(vs).len() - 1] == '\n',
        crate::parse::parse_lines(render_lines(vs)) == vs,
    decreases vs.len(),
{
    if vs.len() == 0 {
        assert(crate::parse::parse_lines(Seq::<char>::empty()) =~= vs);
    } else {
        let line = render_stmt(vs[0]);
        lemma_render_no_nl(vs[0]);
        let rest = vs.subrange(1, vs.len() as int);
        let tailtext = render_lines(rest);
        let s = line.push('\n') + tailtext;
        assert(s == render_lines(vs));
        assert forall|i: int| 0 <= i < line.len() implies s[i] != '\n' by {
            assert(s[i] == line.push('\n')[i]);
            assert(line.push('\n')[i] == line[i]);
        }
        assert(s[line.len() as int] == '\n');
        lemma_scan_to_is(s, '\n', line.len() as int);
        assert(s.subrange(0, line.len() as int) =~= line);
        assert(s.subrange(line.len() as int + 1, s.len() as int) =~= tailtext);
        lemma_parse_render_lines(rest);
        lemma_render_classify(vs[0]);
        assert(crate::parse::split_lines(s) == seq![line] + crate::parse::split_lines(tailtext));
        assert(crate::parse::parse_lines(s) =~= vs) by {
            let sp = crate::parse::split_lines(s);
            let spt = crate::parse::split_lines(tailtext);
            assert(crate::parse::parse_lines(tailtext) == rest);
            assert(crate::parse::parse_lines(tailtext).len() == spt.len());
            assert(sp == seq![line] + spt);
            assert(crate::parse::parse_lines(s).len() == vs.len());
            assert forall|i: int| 0 <= i < vs.len() implies crate::parse::parse_lines(s)[i]
                == vs[i] by {
                if i == 0 {
                    assert(sp[0] == line);
                    assert(crate::parse::parse_lines(s)[0] == classify_line(line));
                } else {
                    assert(sp[i] == spt[i - 1]);
                    assert(crate::parse::parse_lines(s)[i] == classify_line(spt[i - 1]));
                    assert(crate::parse::parse_lines(tailtext)[i - 1] == classify_line(
                        spt[i - 1],
                    ));
                    assert(rest[i - 1] == vs[i]);
                }
            }
        }
        if tailtext.len() == 0 {
            assert(s[s.len() - 1] == '\n');
        } else {
            assert(s[s.len() - 1] == tailtext[tailtext.len() - 1]);
        }
    }
}

proof fn lemma_split_lines_no_nl(s: Seq<char>)
    ensures
        forall|i: int|
            0 <= i < crate::parse::split_lines(s).len() ==> no_nl(
                #[trigger] crate::parse::split_lines(s)[i],
            ),
    decreases s.len(),
{
    if s.len() > 0 {
        let k = scan_to(s, '\n');
        lemma_scan_to(s, '\n');
        if k >= s.len() {
            assert(crate::parse::split_lines(s) == seq![s]);
            assert(no_nl(s));
        } else {
            let rest = s.subrange(k + 1, s.len() as int);
            lemma_split_lines_no_nl(rest);
            let first = s.subrange(0, k);
            assert(no_nl(first)) by {
                assert forall|j: int| 0 <= j < first.len() implies first[j] != '\n' by {
                    assert(first[j] == s[j]);
                }
            }
            assert forall|i: int| 0 <= i < crate::parse::split_lines(s).len() implies no_nl(
                crate::parse::split_lines(s)[i],
            ) by {
                if i == 0 {
                    assert(crate::parse::split_lines(s)[0] == first);
                } else {
                    assert(crate::parse::split_lines(s)[i] == crate::parse::split_lines(rest)[i
                        - 1]);
                }
            }
        }
    }
}

/// Idempotent round trip for whole inputs: for every input the parser
/// accepts, re-serializing the parsed statement sequence and re-parsing
/// it yields the same sequence.
pub proof fn theorem_parse_round_trip(input: Seq<char>)
    ensures
        crate::parse::parse_lines(render_lines(crate::parse::parse_lines(input)))
            == crate::parse::parse_lines(input),
        render_lines(crate::parse::parse_lines(input)).len() == 0 || render_lines(
            crate::parse::parse_lines(input),
        ).last() == '\n',
{
    let vs = crate::parse::parse_lines(input);
    lemma_split_lines_no_nl(input);
    assert forall|i: int| 0 <= i < vs.len() implies wf_stmt(vs[i]) && stmt_no_nl(vs[i]) by {
        let li = crate::parse::split_lines(input)[i];
        assert(vs[i] == classify_line(li));
        lemma_classify_wf(li);
    }
    lemma_parse_render_lines(vs);
}

} // verus!
