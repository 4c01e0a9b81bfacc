//! The item extractor: a single forward scan over the statement sequence
//! that partitions it into per-function items, modeled as an explicit
//! state machine with one transition per statement.

use vstd::prelude::*;

use crate::demangle::{demangle_of, demangled};
use crate::parse::views_of;
use crate::statements::{
    is_end_of_fn_s, is_global_s, is_section_start_s, starts_with, Directive, LabelKind, Statement,
    StmtView,
};
use crate::{
    fold_insert_view, item_lt, sorted_insert_view, Item, ItemMap, ItemView, StmtRange,
};

verus! {

/// An item that has been opened by a label but not yet closed.
#[verifier::ext_equal]
pub ghost struct Pending {
    pub name: Seq<char>,
    pub hashed: Seq<char>,
    pub index: int,
    pub start: int,
}

/// The extractor's scan state.
#[verifier::ext_equal]
pub ghost struct ExtState {
    /// index of the current section boundary candidate
    pub sec_start: int,
    /// the in-progress item, if one is open
    pub cur: Option<Pending>,
    /// occurrence counts per display name, in first-seen order
    pub names: Seq<(Seq<char>, int)>,
    /// discovered items with their ranges, in scan order
    pub found: Seq<(ItemView, (int, int))>,
}

pub open spec fn init_state() -> ExtState {
    ExtState { sec_start: 0, cur: Option::None, names: Seq::empty(), found: Seq::empty() }
}

/// Occurrence count recorded for `k` (0 when unseen).
pub open spec fn name_count(names: Seq<(Seq<char>, int)>, k: Seq<char>) -> int
    decreases names.len(),
{
    if names.len() == 0 {
        0
    } else if names[0].0 == k {
        names[0].1
    } else {
        name_count(names.subrange(1, names.len() as int), k)
    }
}

/// Occurrence count bump for `k`.
pub open spec fn bump_name(names: Seq<(Seq<char>, int)>, k: Seq<char>) -> Seq<(Seq<char>, int)>
    decreases names.len(),
{
    if names.len() == 0 {
        seq![(k, 1int)]
    } else if names[0].0 == k {
        seq![(names[0].0, names[0].1 + 1)] + names.subrange(1, names.len() as int)
    } else {
        seq![names[0]] + bump_name(names.subrange(1, names.len() as int), k)
    }
}

pub open spec fn text_section_prefix() -> Seq<char> {
    seq!['.', 't', 'e', 'x', 't', '.']
}

/// An undemangled label of unknown kind still opens an item when the
/// active section is a `.text.<label>` section dedicated to it.
pub open spec fn synth_open(stmts: Seq<StmtView>, sec_start: int, id: Seq<char>) -> bool {
    0 <= sec_start < stmts.len() && match stmts[sec_start] {
        StmtView::Section { name } => starts_with(name, text_section_prefix()) && starts_with(
            name.subrange(6, name.len() as int),
            id,
        ),
        _ => false,
    }
}

/// One transition of the extractor, for the statement at index `ix`.
pub open spec fn ext_step(
    stmts: Seq<StmtView>,
    st: ExtState,
    ix: int,
    dem: spec_fn(Seq<char>) -> Option<(Seq<char>, Seq<char>)>,
) -> ExtState {
    let v = stmts[ix];
    if is_section_start_s(v) {
        if st.cur is None {
            ExtState { sec_start: ix, ..st }
        } else {
            // a duplicate section emitted inside the same function
            // (exception-handling side tables) must not open a new item
            st
        }
    } else if is_global_s(v) && st.sec_start + 3 < ix {
        ExtState { sec_start: ix, ..st }
    } else if is_end_of_fn_s(v) {
        match st.cur {
            Option::Some(p) => ExtState {
                cur: Option::None,
                found: st.found.push(
                    (
                        ItemView {
                            name: p.name,
                            hashed: p.hashed,
                            index: p.index,
                            len: ix - p.start,
                        },
                        (st.sec_start, ix),
                    ),
                ),
                ..st
            },
            Option::None => st,
        }
    } else {
        match v {
            StmtView::Lab { id, kind } => match dem(id) {
                Option::Some(nh) => ExtState {
                    cur: Option::Some(
                        Pending {
                            name: nh.0,
                            hashed: nh.1,
                            index: name_count(st.names, nh.0),
                            start: ix,
                        },
                    ),
                    names: bump_name(st.names, nh.0),
                    ..st
                },
                Option::None => if kind == LabelKind::Unknown && synth_open(
                    stmts,
                    st.sec_start,
                    id,
                ) {
                    ExtState {
                        cur: Option::Some(
                            Pending {
                                name: id,
                                hashed: id,
                                index: name_count(st.names, id),
                                start: ix,
                            },
                        ),
                        names: bump_name(st.names, id),
                        ..st
                    }
                } else {
                    st
                },
            },
            _ => st,
        }
    }
}

/// The state after scanning the first `i` statements.
pub open spec fn ext_run(
    stmts: Seq<StmtView>,
    i: int,
    dem: spec_fn(Seq<char>) -> Option<(Seq<char>, Seq<char>)>,
) -> ExtState
    decreases i,
{
    if i <= 0 {
        init_state()
    } else {
        ext_step(stmts, ext_run(stmts, i - 1, dem), i - 1, dem)
    }
}

/// The state after scanning the first `i` statements, with the
/// demangling collaborator deciding which labels open items.
pub open spec fn run_i(stmts: Seq<StmtView>, i: int) -> ExtState {
    ext_run(stmts, i, |id: Seq<char>| demangle_of(id))
}

/// The items the scan discovers, in scan order.
pub open spec fn extract_items(stmts: Seq<StmtView>) -> Seq<(ItemView, (int, int))> {
    run_i(stmts, stmts.len() as int).found
}

/// Consecutive functions are separated by a section start: between every
/// end-of-function marker and any later label that could open an item,
/// some section-start statement intervenes.  Real compiler output has
/// this shape, because every function body is emitted into a section.
pub open spec fn section_separated(stmts: Seq<StmtView>) -> bool {
    forall|e: int, j: int|
        0 <= e < j < stmts.len() && is_end_of_fn_s(#[trigger] stmts[e]) && (#[trigger] stmts[j])
            is Lab && !is_end_of_fn_s(stmts[j]) ==> exists|k: int|
            e < k < j && is_section_start_s(#[trigger] stmts[k])
}

pub open spec fn last_end(found: Seq<(ItemView, (int, int))>) -> int {
    if found.len() == 0 {
        0
    } else {
        found[found.len() - 1].1.1
    }
}

/// The extractor's scan invariant.
pub open spec fn ext_inv(stmts: Seq<StmtView>, st: ExtState, i: int) -> bool {
    &&& 0 <= st.sec_start
    &&& st.sec_start == 0 || st.sec_start < i
    &&& (match st.cur {
        Option::Some(p) => 0 <= p.start < i && stmts[p.start] is Lab && !is_end_of_fn_s(
            stmts[p.start],
        ),
        Option::None => true,
    })
    &&& forall|q: int|
        0 <= q < st.found.len() ==> 0 <= (#[trigger] st.found[q]).1.0 < st.found[q].1.1 < i
    &&& forall|q: int| 0 <= q < st.found.len() ==> is_end_of_fn_s(stmts[(#[trigger] st.found[q]).1.1])
    &&& forall|p: int, q: int|
        0 <= p < q < st.found.len() ==> (#[trigger] st.found[p]).1.1 < (#[trigger] st.found[q]).1.1
    &&& (section_separated(stmts) ==> {
        &&& forall|p: int, q: int|
            0 <= p < q < st.found.len() ==> (#[trigger] st.found[p]).1.1
                <= (#[trigger] st.found[q]).1.0
        &&& (st.cur is Some ==> st.sec_start >= last_end(st.found))
        &&& (st.cur is None ==> forall|k: int|
            last_end(st.found) <= k < i && is_section_start_s(#[trigger] stmts[k])
                ==> st.sec_start >= k)
    })
}

/// The scan invariant holds of every reachable state.
pub proof fn lemma_ext_inv(stmts: Seq<StmtView>, i: int)
    requires
        0 <= i <= stmts.len(),
    ensures
        ext_inv(stmts, run_i(stmts, i), i),
    decreases i,
{
    if i > 0 {
        lemma_ext_inv(stmts, i - 1);
        let st = run_i(stmts, i - 1);
        let st2 = run_i(stmts, i);
        let ix = i - 1;
        let v = stmts[ix];
        if is_section_start_s(v) {
        } else if is_global_s(v) && st.sec_start + 3 < ix {
        } else if is_end_of_fn_s(v) {
            match st.cur {
                Option::Some(p) => {
                    assert(st2.found == st.found.push(
                        (
                            ItemView {
                                name: p.name,
                                hashed: p.hashed,
                                index: p.index,
                                len: ix - p.start,
                            },
                            (st.sec_start, ix),
                        ),
                    ));
                    assert(st.sec_start < ix) by {
                        assert(0 <= p.start < ix);
                    }
                    if section_separated(stmts) {
                        assert forall|p2: int, q: int|
                            0 <= p2 < q < st2.found.len() implies (#[trigger] st2.found[p2]).1.1
                            <= (#[trigger] st2.found[q]).1.0 by {
                            if q < st.found.len() {
                                assert(st2.found[p2] == st.found[p2]);
                                assert(st2.found[q] == st.found[q]);
                            } else {
                                assert(st2.found[q].1.0 == st.sec_start);
                                assert(st2.found[p2] == st.found[p2]);
                                assert(st.sec_start >= last_end(st.found));
                                if p2 < st.found.len() - 1 {
                                    assert(st.found[p2].1.1 < st.found[st.found.len() - 1].1.1);
                                }
                            }
                        }
                    }
                },
                Option::None => {},
            }
        } else {
            match v {
                StmtView::Lab { id, kind } => {
                    if st2.cur != st.cur && section_separated(stmts) && st.cur is None {
                        // an item opens at ix; the previous function, if
                        // any, is separated from this label by a section
                        // start, which moved the boundary past its end
                        if st.found.len() > 0 {
                            let e = last_end(st.found);
                            assert(is_end_of_fn_s(stmts[e]));
                            assert(0 <= e < ix < stmts.len());
                            assert(stmts[ix] is Lab && !is_end_of_fn_s(stmts[ix]));
                            assert(exists|k: int|
                                e < k < ix && is_section_start_s(#[trigger] stmts[k]));
                            let k = choose|k: int|
                                e < k < ix && is_section_start_s(#[trigger] stmts[k]);
                            assert(st.sec_start >= k);
                        }
                    }
                },
                _ => {},
            }
        }
    }
}

/// Every produced range is non-empty and in bounds, and ranges close in
/// strictly increasing scan order; when consecutive functions are
/// separated by section starts, the ranges are also pairwise
/// non-overlapping and appear in non-decreasing start order in scan
/// order.
pub proof fn theorem_item_ranges(stmts: Seq<StmtView>)
    ensures
        forall|q: int|
            0 <= q < extract_items(stmts).len() ==> 0 <= (#[trigger] extract_items(stmts)[q]).1.0
                < extract_items(stmts)[q].1.1 <= stmts.len(),
        forall|p: int, q: int|
            0 <= p < q < extract_items(stmts).len() ==> (#[trigger] extract_items(stmts)[p]).1.1
                < (#[trigger] extract_items(stmts)[q]).1.1,
        section_separated(stmts) ==> forall|p: int, q: int|
            0 <= p < q < extract_items(stmts).len() ==> (#[trigger] extract_items(stmts)[p]).1.1
                <= (#[trigger] extract_items(stmts)[q]).1.0,
{
    lemma_ext_inv(stmts, stmts.len() as int);
}

/// An in-progress item in the executable scan.
pub struct PendingItem {
    pub name: String,
    pub hashed: String,
    pub index: usize,
    pub start: usize,
}

pub open spec fn names_view(s: Seq<(String, usize)>) -> Seq<(Seq<char>, int)> {
    s.map(|i: int, e: (String, usize)| (e.0@, e.1 as int))
}

/// Characterizes `name_count` and `bump_name` at the first position whose
/// key equals `k` (or at the end, when `k` is absent).
proof fn lemma_assoc_at(s: Seq<(Seq<char>, int)>, k: Seq<char>, j: int)
    requires
        0 <= j <= s.len(),
        forall|p: int| 0 <= p < j ==> (#[trigger] s[p]).0 != k,
        j < s.len() ==> s[j].0 == k,
    ensures
        j < s.len() ==> name_count(s, k) == s[j].1 && bump_name(s, k) == s.update(
            j,
            (s[j].0, s[j].1 + 1),
        ),
        j == s.len() ==> name_count(s, k) == 0 && bump_name(s, k) == s.push((k, 1int)),
    decreases s.len(),
{
    if s.len() == 0 {
        assert(bump_name(s, k) =~= s.push((k, 1int)));
    } else if j == 0 {
        assert(bump_name(s, k) =~= s.update(0, (s[0].0, s[0].1 + 1)));
    } else {
        let s1 = s.subrange(1, s.len() as int);
        assert(forall|p: int| 0 <= p < j - 1 ==> (#[trigger] s1[p]).0 != k);
        lemma_assoc_at(s1, k, j - 1);
        if j < s.len() {
            assert(s1[j - 1] == s[j]);
            assert(bump_name(s, k) == seq![s[0]] + bump_name(s1, k));
            assert(bump_name(s, k) =~= s.update(j, (s[j].0, s[j].1 + 1)));
        } else {
            assert(bump_name(s, k) == seq![s[0]] + bump_name(s1, k));
            assert(bump_name(s, k) =~= s.push((k, 1int)));
        }
    }
}

/// Bumping one count raises the bound on all counts by at most one.
proof fn lemma_bump_bound(s: Seq<(Seq<char>, int)>, k: Seq<char>, b: int)
    requires
        forall|p: int| 0 <= p < s.len() ==> (#[trigger] s[p]).1 <= b,
        b >= 0,
    ensures
        forall|p: int| 0 <= p < bump_name(s, k).len() ==> (#[trigger] bump_name(s, k)[p]).1 <= b
            + 1,
    decreases s.len(),
{
    let out = bump_name(s, k);
    if s.len() == 0 {
    } else if s[0].0 == k {
        assert forall|p: int| 0 <= p < out.len() implies (#[trigger] out[p]).1 <= b + 1 by {
            if p > 0 {
                assert(out[p] == s[p]);
            }
        }
    } else {
        let s1 = s.subrange(1, s.len() as int);
        assert(forall|p: int| 0 <= p < s1.len() ==> (#[trigger] s1[p]).1 <= b);
        lemma_bump_bound(s1, k, b);
        assert forall|p: int| 0 <= p < out.len() implies (#[trigger] out[p]).1 <= b + 1 by {
            if p > 0 {
                assert(out[p] == bump_name(s1, k)[p - 1]);
            }
        }
    }
}

/// Looks up and increments the occurrence count of `k`, returning the
/// updated counts and the count before the increment.
#[verifier::loop_isolation(false)]
fn name_bump(names: Vec<(String, usize)>, k: &String) -> (r: (Vec<(String, usize)>, usize))
    requires
        forall|p: int| 0 <= p < names@.len() ==> (#[trigger] names@[p]).1 < usize::MAX,
    ensures
        r.1 as int == name_count(names_view(names@), k@),
        names_view(r.0@) == bump_name(names_view(names@), k@),
{
    let ghost s = names_view(names@);
    let mut out = names;
    let n = out.len();
    let mut j: usize = 0;
    while j < n
        invariant
            0 <= j <= n == out@.len(),
            s == names_view(out@),
            forall|p: int| 0 <= p < out@.len() ==> (#[trigger] out@[p]).1 < usize::MAX,
            forall|p: int| 0 <= p < j ==> (#[trigger] s[p]).0 != k@,
        decreases n - j,
    {
        proof {
            assert(s[j as int] == (out@[j as int].0@, out@[j as int].1 as int));
        }
        if out[j].0 == *k {
            proof {
                assert(s[j as int].0 == k@);
                lemma_assoc_at(s, k@, j as int);
            }
            let c = out[j].1;
            let kept = out[j].0.clone();
            out.set(j, (kept, c + 1));
            proof {
                assert(c as int == s[j as int].1);
                assert forall|p: int|
                    0 <= p < out@.len() implies names_view(out@)[p] == bump_name(s, k@)[p] by {
                    assert(names_view(out@)[p] == (out@[p].0@, out@[p].1 as int));
                }
                assert(names_view(out@) =~= bump_name(s, k@));
            }
            return (out, c);
        }
        j = j + 1;
    }
    proof {
        lemma_assoc_at(s, k@, n as int);
    }
    out.push((k.clone(), 1));
    proof {
        assert forall|p: int|
            0 <= p < out@.len() implies names_view(out@)[p] == bump_name(s, k@)[p] by {
            assert(names_view(out@)[p] == (out@[p].0@, out@[p].1 as int));
            if p < n {
                assert(bump_name(s, k@)[p] == s[p]);
            }
        }
        assert(names_view(out@) =~= bump_name(s, k@));
    }
    (out, 0)
}

/// Scans the statement sequence and produces the ordered mapping from
/// discovered items to their half-open statement-index ranges.
pub fn find_items(stmts: &Vec<Statement>) -> (m: ItemMap)
    ensures
        m.wf(),
        m@ == fold_insert_view(extract_items(views_of(stmts@))),
{
    let ghost svs = views_of(stmts@);
    let n = stmts.len();
    let mut m = ItemMap::new();
    let mut sec_start: usize = 0;
    let mut cur: Option<PendingItem> = Option::None;
    let mut names: Vec<(String, usize)> = Vec::new();
    let mut i: usize = 0;
    proof {
        assert(names_view(names@) =~= Seq::<(Seq<char>, int)>::empty());
        assert(run_i(svs, 0) == init_state());
        assert(m@ =~= fold_insert_view(init_state().found));
    }
    while i < n
        invariant
            i <= n == stmts@.len(),
            svs == views_of(stmts@),
            svs.len() == n,
            ({
                let st = run_i(svs, i as int);
                &&& st.sec_start == sec_start as int
                &&& sec_start < n || sec_start == 0
                &&& (match (cur, st.cur) {
                    (Option::Some(c), Option::Some(p)) => c.name@ == p.name && c.hashed@ == p.hashed
                        && c.index as int == p.index && c.start as int == p.start && p.start < i,
                    (Option::None, Option::None) => true,
                    _ => false,
                })
                &&& names_view(names@) == st.names
                &&& m@ == fold_insert_view(st.found)
                &&& m.wf()
            }),
            forall|p: int| 0 <= p < names@.len() ==> (#[trigger] names@[p]).1 <= i,
        decreases n - i,
    {
        let ghost st = run_i(svs, i as int);
        let ghost st2 = run_i(svs, i + 1);
        proof {
            assert(svs[i as int] == stmts@[i as int]@);
        }
        let line = &stmts[i];
        if line.is_section_start() {
            if cur.is_none() {
                sec_start = i;
            }
        } else if line.is_global() && i > 3 && sec_start < i - 3 {
            sec_start = i;
        } else if line.is_end_of_fn() {
            match cur {
                Option::Some(p) => {
                    proof {
                        assert(p.start < i);
                    }
                    let item = Item {
                        name: p.name,
                        hashed: p.hashed,
                        index: p.index,
                        len: i - p.start,
                    };
                    let range = StmtRange { start: sec_start, end: i };
                    let ghost before = m@;
                    m.insert(item, range);
                    cur = Option::None;
                    proof {
                        let stp = st.cur.unwrap();
                        let iv = ItemView {
                            name: stp.name,
                            hashed: stp.hashed,
                            index: stp.index,
                            len: i - stp.start,
                        };
                        assert(st2.found == st.found.push((iv, (st.sec_start, i as int))));
                        assert(st2.found.subrange(0, st2.found.len() - 1) =~= st.found);
                        assert(m@ == sorted_insert_view(before, iv, (st.sec_start, i as int)));
                        assert(m@ == fold_insert_view(st2.found));
                    }
                },
                Option::None => {
                    cur = Option::None;
                },
            }
        } else {
            match line {
                Statement::Label(l) => {
                    match demangled(l.id.as_str()) {
                        Option::Some(nh) => {
                            let ghost nv0 = names_view(names@);
                            proof {
                                assert forall|p: int|
                                    0 <= p < names@.len() implies (#[trigger] names@[p]).1
                                    < usize::MAX by {
                                    assert(names@[p].1 <= i);
                                }
                                assert forall|p: int|
                                    0 <= p < nv0.len() implies (#[trigger] nv0[p]).1 <= i as int by {
                                    assert(nv0[p] == (names@[p].0@, names@[p].1 as int));
                                }
                                lemma_bump_bound(nv0, nh.0@, i as int);
                            }
                            let nb = name_bump(names, &nh.0);
                            names = nb.0;
                            let idx = nb.1;
                            proof {
                                assert forall|p: int|
                                    0 <= p < names@.len() implies (#[trigger] names@[p]).1 <= i
                                    + 1 by {
                                    assert(names_view(names@)[p] == (names@[p].0@, names@[p].1
                                        as int));
                                }
                            }
                            cur = Option::Some(
                                PendingItem { name: nh.0, hashed: nh.1, index: idx, start: i },
                            );
                        },
                        Option::None => {
                            proof {
                                assert(sec_start < n);
                            }
                            if matches!(l.kind, LabelKind::Unknown) && sec_start < n {
                                let is_synth = match &stmts[sec_start] {
                                    Statement::Directive(Directive::SectionStart(ss)) => {
                                        if crate::text::str_has_prefix(ss.as_str(), ".text.") {
                                            proof {
                                                reveal_strlit(".text.");
                                                assert(".text."@ =~= text_section_prefix());
                                            }
                                            section_suffix_has_prefix(ss.as_str(), l.id.as_str())
                                        } else {
                                            proof {
                                                reveal_strlit(".text.");
                                                assert(".text."@ =~= text_section_prefix());
                                            }
                                            false
                                        }
                                    },
                                    _ => false,
                                };
                                proof {
                                    assert(is_synth == synth_open(svs, st.sec_start, l.id@));
                                }
                                if is_synth {
                                    let ghost nv0 = names_view(names@);
                                    proof {
                                        assert forall|p: int|
                                            0 <= p < names@.len() implies (#[trigger] names@[p]).1
                                            < usize::MAX by {
                                            assert(names@[p].1 <= i);
                                        }
                                        assert forall|p: int|
                                            0 <= p < nv0.len() implies (#[trigger] nv0[p]).1 <= i
                                            as int by {
                                            assert(nv0[p] == (names@[p].0@, names@[p].1 as int));
                                        }
                                        lemma_bump_bound(nv0, l.id@, i as int);
                                    }
                                    let nb = name_bump(names, &l.id);
                                    names = nb.0;
                                    let idx = nb.1;
                                    proof {
                                        assert forall|p: int|
                                            0 <= p < names@.len() implies (#[trigger] names@[p]).1
                                            <= i + 1 by {
                                            assert(names_view(names@)[p] == (names@[p].0@,
                                            names@[p].1 as int));
                                        }
                                    }
                                    cur = Option::Some(
                                        PendingItem {
                                            name: l.id.clone(),
                                            hashed: l.id.clone(),
                                            index: idx,
                                            start: i,
                                        },
                                    );
                                }
                            }
                        },
                    }
                },
                _ => {},
            }
        }
        i = i + 1;
    }
    m
}

/// Tests whether the section name's part after `.text.` begins with `id`.
fn section_suffix_has_prefix(ss: &str, id: &str) -> (b: bool)
    requires
        ss@.len() >= 6,
    ensures
        b == starts_with(ss@.subrange(6, ss@.len() as int), id@),
{
    let n = ss.unicode_len();
    let m = id.unicode_len();
    if n - 6 < m {
        return false;
    }
    let mut i: usize = 0;
    while i < m
        invariant
            i <= m == id@.len(),
            n == ss@.len(),
            m <= n - 6,
            forall|k: int| 0 <= k < i ==> ss@[6 + k] == id@[k],
        decreases m - i,
    {
        if ss.get_char(6 + i) != id.get_char(i) {
            proof {
                assert(ss@.subrange(6, ss@.len() as int)[i as int] != id@[i as int]);
            }
            return false;
        }
        i = i + 1;
    }
    proof {
        assert(ss@.subrange(6, ss@.len() as int).subrange(0, m as int) =~= id@);
    }
    true
}

} // verus!
