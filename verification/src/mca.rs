//! The text handed to the external machine-code-analysis tool: the raw
//! lines of the selected range, trimmed, with location and file
//! directives filtered out, an optional syntax-selection directive in
//! front, and a synthesized end-of-procedure marker appended.

use vstd::prelude::*;

use crate::statements::starts_with;
use crate::text::{chars_to_string, str_to_chars, trim, trim_chars};

verus! {

pub open spec fn loc_directive_prefix() -> Seq<char> {
    ".loc"@
}

pub open spec fn file_directive_prefix() -> Seq<char> {
    ".file"@
}

/// The body lines fed to the analysis tool: each line trimmed, with
/// location and file declarations dropped.
pub open spec fn mca_body(lines: Seq<Seq<char>>, lo: int, hi: int) -> Seq<Seq<char>>
    decreases hi - lo,
{
    if lo < 0 || lo >= hi || hi > lines.len() {
        Seq::empty()
    } else {
        let t = trim(lines[lo]);
        let rest = mca_body(lines, lo + 1, hi);
        if starts_with(t, loc_directive_prefix()) || starts_with(t, file_directive_prefix()) {
            rest
        } else {
            seq![t] + rest
        }
    }
}

/// Everything fed to the analysis tool, in order.
pub open spec fn mca_input_spec(lines: Seq<Seq<char>>, lo: int, hi: int, intel: bool) -> Seq<
    Seq<char>,
> {
    let head: Seq<Seq<char>> = if intel {
        seq![".intel_syntax"@]
    } else {
        Seq::empty()
    };
    head + mca_body(lines, lo, hi) + seq![".cfi_endproc"@]
}

fn line_skipped(t: &Vec<char>) -> (r: bool)
    ensures
        r == (starts_with(t@, loc_directive_prefix()) || starts_with(t@, file_directive_prefix())),
{
    let s = chars_to_string(t);
    let a = crate::text::str_has_prefix(s.as_str(), ".loc");
    let b = crate::text::str_has_prefix(s.as_str(), ".file");
    proof {
        reveal_strlit(".loc");
        reveal_strlit(".file");
    }
    a || b
}

/// Prepares the analysis tool's input from the raw lines of the range.
pub fn mca_input(lines: &Vec<String>, lo: usize, hi: usize, intel: bool) -> (r: Vec<String>)
    requires
        lo <= hi <= lines@.len(),
    ensures
        r@.map(|i: int, s: String| s@) == mca_input_spec(
            lines@.map(|i: int, s: String| s@),
            lo as int,
            hi as int,
            intel,
        ),
{
    let ghost lv = lines@.map(|i: int, s: String| s@);
    let mut out: Vec<String> = Vec::new();
    if intel {
        out.push(lit_intel());
    }
    let ghost head = if intel {
        seq![".intel_syntax"@]
    } else {
        Seq::<Seq<char>>::empty()
    };
    proof {
        assert(out@.map(|i: int, s: String| s@) =~= head);
    }
    let mut i: usize = lo;
    while i < hi
        invariant
            lo <= i <= hi <= lines@.len(),
            lv == lines@.map(|q: int, s: String| s@),
            head == if intel {
                seq![".intel_syntax"@]
            } else {
                Seq::<Seq<char>>::empty()
            },
            out@.map(|q: int, s: String| s@) =~= head + mca_body(lv, lo as int, i as int),
        decreases hi - i,
    {
        let chars = str_to_chars(lines[i].as_str());
        let t = trim_chars(&chars);
        proof {
            assert(lv[i as int] == lines@[i as int]@);
            assert(t@ == trim(lv[i as int]));
            lemma_mca_body_snoc(lv, lo as int, i as int);
        }
        let ghost before = out@.map(|q: int, s: String| s@);
        if !line_skipped(&t) {
            out.push(chars_to_string(&t));
            proof {
                assert(out@.map(|q: int, s: String| s@) =~= before + seq![t@]);
                assert(head + mca_body(lv, lo as int, i + 1) =~= (head + mca_body(
                    lv,
                    lo as int,
                    i as int,
                )) + seq![t@]);
            }
        }
        proof {
            assert(out@.map(|q: int, s: String| s@) =~= head + mca_body(lv, lo as int, i + 1));
        }
        i = i + 1;
    }
    out.push(lit_endproc());
    proof {
        assert(out@.map(|q: int, s: String| s@) =~= mca_input_spec(
            lv,
            lo as int,
            hi as int,
            intel,
        ));
    }
    out
}

/// Appending one more line to the scanned range appends its contribution.
proof fn lemma_mca_body_snoc(lines: Seq<Seq<char>>, lo: int, i: int)
    requires
        0 <= lo <= i < lines.len(),
    ensures
        ({
            let t = trim(lines[i]);
            mca_body(lines, lo, i + 1) == if starts_with(t, loc_directive_prefix())
                || starts_with(t, file_directive_prefix()) {
                mca_body(lines, lo, i)
            } else {
                mca_body(lines, lo, i) + seq![t]
            }
        }),
    decreases i - lo,
{
    let t = trim(lines[i]);
    let skipi = starts_with(t, loc_directive_prefix()) || starts_with(t, file_directive_prefix());
    if lo == i {
        assert(mca_body(lines, lo + 1, i + 1) =~= Seq::<Seq<char>>::empty());
        assert(mca_body(lines, lo, i) =~= Seq::<Seq<char>>::empty());
        if skipi {
            assert(mca_body(lines, lo, i + 1) =~= Seq::<Seq<char>>::empty());
        } else {
            assert(mca_body(lines, lo, i + 1) =~= seq![t] + Seq::<Seq<char>>::empty());
            assert(mca_body(lines, lo, i + 1) =~= mca_body(lines, lo, i) + seq![t]);
        }
    } else {
        lemma_mca_body_snoc(lines, lo + 1, i);
        let t0 = trim(lines[lo]);
        let skip0 = starts_with(t0, loc_directive_prefix()) || starts_with(
            t0,
            file_directive_prefix(),
        );
        if skip0 {
            assert(mca_body(lines, lo, i + 1) == mca_body(lines, lo + 1, i + 1));
            assert(mca_body(lines, lo, i) == mca_body(lines, lo + 1, i));
        } else {
            assert(mca_body(lines, lo, i + 1) == seq![t0] + mca_body(lines, lo + 1, i + 1));
            assert(mca_body(lines, lo, i) == seq![t0] + mca_body(lines, lo + 1, i));
            if !skipi {
                assert(mca_body(lines, lo, i + 1) =~= (seq![t0] + mca_body(lines, lo + 1, i))
                    + seq![t]);
            }
        }
    }
}

fn lit_intel() -> (r: String)
    ensures
        r@ == ".intel_syntax"@,
{
    let mut v: Vec<char> = Vec::new();
    crate::text::append_str_chars(&mut v, ".intel_syntax");
    proof {
        assert(v@ =~= ".intel_syntax"@);
    }
    chars_to_string(&v)
}

fn lit_endproc() -> (r: String)
    ensures
        r@ == ".cfi_endproc"@,
{
    let mut v: Vec<char> = Vec::new();
    crate::text::append_str_chars(&mut v, ".cfi_endproc");
    proof {
        assert(v@ =~= ".cfi_endproc"@);
    }
    chars_to_string(&v)
}

} // verus!
