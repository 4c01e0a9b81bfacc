//! Character-level text model shared by the parser, the renderer and the
//! protocol: whitespace trimming, digit runs, label-identifier characters,
//! and decimal number formatting/reading, each with a specification.

use vstd::prelude::*;

verus! {

/// Whitespace at the granularity the trimmers work on: a carriage
/// return counts, so that input with Windows line endings trims cleanly,
/// and a newline counts, so that a whole request line trims cleanly.
/// Lines handed to the parser never contain a newline.
pub open spec fn is_ws(c: char) -> bool {
    c == ' ' || c == '\t' || c == '\r' || c == '\n'
}

pub open spec fn is_digit(c: char) -> bool {
    48 <= c as u32 <= 57
}

/// Characters that may appear in an assembler label identifier.
pub open spec fn is_label_char(c: char) -> bool {
    (48 <= c as u32 <= 57) || (65 <= c as u32 <= 90) || (97 <= c as u32 <= 122) || c == '_'
        || c == '.' || c == '$'
}

pub fn char_is_ws(c: char) -> (b: bool)
    ensures
        b == is_ws(c),
{
    c == ' ' || c == '\t' || c == '\r' || c == '\n'
}

pub fn char_is_digit(c: char) -> (b: bool)
    ensures
        b == is_digit(c),
{
    let u: u32 = c as u32;
    48 <= u && u <= 57
}

pub fn char_is_label(c: char) -> (b: bool)
    ensures
        b == is_label_char(c),
{
    let u: u32 = c as u32;
    (48 <= u && u <= 57) || (65 <= u && u <= 90) || (97 <= u && u <= 122) || c == '_' || c == '.'
        || c == '$'
}

/// Length of the leading whitespace run.
pub open spec fn ws_run(s: Seq<char>) -> int
    decreases s.len(),
{
    if s.len() == 0 {
        0
    } else if !is_ws(s[0]) {
        0
    } else {
        1 + ws_run(s.subrange(1, s.len() as int))
    }
}

/// Length of the trailing whitespace run.
pub open spec fn ws_run_end(s: Seq<char>) -> int
    decreases s.len(),
{
    if s.len() == 0 {
        0
    } else if !is_ws(s[s.len() - 1]) {
        0
    } else {
        1 + ws_run_end(s.subrange(0, s.len() - 1))
    }
}

/// Length of the leading run of non-whitespace characters.
pub open spec fn nonws_run(s: Seq<char>) -> int
    decreases s.len(),
{
    if s.len() == 0 {
        0
    } else if is_ws(s[0]) {
        0
    } else {
        1 + nonws_run(s.subrange(1, s.len() as int))
    }
}

/// Length of the leading run of characters other than `stop`.
pub open spec fn scan_to(s: Seq<char>, stop: char) -> int
    decreases s.len(),
{
    if s.len() == 0 {
        0
    } else if s[0] == stop {
        0
    } else {
        1 + scan_to(s.subrange(1, s.len() as int), stop)
    }
}

/// Length of the leading run of label-identifier characters.
pub open spec fn label_run(s: Seq<char>) -> int
    decreases s.len(),
{
    if s.len() == 0 {
        0
    } else if !is_label_char(s[0]) {
        0
    } else {
        1 + label_run(s.subrange(1, s.len() as int))
    }
}

/// Length of the leading digit run.
pub open spec fn digit_run(s: Seq<char>) -> int
    decreases s.len(),
{
    if s.len() == 0 {
        0
    } else if !is_digit(s[0]) {
        0
    } else {
        1 + digit_run(s.subrange(1, s.len() as int))
    }
}

pub open spec fn trim_start(s: Seq<char>) -> Seq<char> {
    s.subrange(ws_run(s), s.len() as int)
}

pub open spec fn trim_end(s: Seq<char>) -> Seq<char> {
    s.subrange(0, s.len() - ws_run_end(s))
}

pub open spec fn trim(s: Seq<char>) -> Seq<char> {
    trim_end(trim_start(s))
}

pub proof fn lemma_ws_run(s: Seq<char>)
    ensures
        0 <= ws_run(s) <= s.len(),
        forall|i: int| 0 <= i < ws_run(s) ==> is_ws(s[i]),
        ws_run(s) < s.len() ==> !is_ws(s[ws_run(s)]),
    decreases s.len(),
{
    if s.len() > 0 && is_ws(s[0]) {
        let t = s.subrange(1, s.len() as int);
        lemma_ws_run(t);
        assert forall|i: int| 0 <= i < ws_run(s) implies is_ws(s[i]) by {
            if i > 0 {
                assert(s[i] == t[i - 1]);
            }
        }
        if ws_run(s) < s.len() {
            assert(s[ws_run(s)] == t[ws_run(t)]);
        }
    }
}

pub proof fn lemma_ws_run_is(s: Seq<char>, n: int)
    requires
        0 <= n <= s.len(),
        forall|i: int| 0 <= i < n ==> is_ws(s[i]),
        n < s.len() ==> !is_ws(s[n]),
    ensures
        ws_run(s) == n,
    decreases s.len(),
{
    if s.len() > 0 && is_ws(s[0]) {
        let t = s.subrange(1, s.len() as int);
        assert(forall|i: int| 0 <= i < n - 1 ==> is_ws(t[i]));
        lemma_ws_run_is(t, n - 1);
    }
}

pub proof fn lemma_ws_run_end(s: Seq<char>)
    ensures
        0 <= ws_run_end(s) <= s.len(),
        forall|i: int| s.len() - ws_run_end(s) <= i < s.len() ==> is_ws(s[i]),
        ws_run_end(s) < s.len() ==> !is_ws(s[s.len() - ws_run_end(s) - 1]),
    decreases s.len(),
{
    if s.len() > 0 && is_ws(s[s.len() - 1]) {
        let t = s.subrange(0, s.len() - 1);
        lemma_ws_run_end(t);
        assert forall|i: int| s.len() - ws_run_end(s) <= i < s.len() implies is_ws(s[i]) by {
            if i < s.len() - 1 {
                assert(s[i] == t[i]);
            }
        }
        if ws_run_end(s) < s.len() {
            assert(s[s.len() - ws_run_end(s) - 1] == t[t.len() - ws_run_end(t) - 1]);
        }
    }
}

pub proof fn lemma_ws_run_end_is(s: Seq<char>, n: int)
    requires
        0 <= n <= s.len(),
        forall|i: int| s.len() - n <= i < s.len() ==> is_ws(s[i]),
        n < s.len() ==> !is_ws(s[s.len() - n - 1]),
    ensures
        ws_run_end(s) == n,
    decreases s.len(),
{
    if s.len() > 0 && is_ws(s[s.len() - 1]) {
        let t = s.subrange(0, s.len() - 1);
        assert(forall|i: int| t.len() - (n - 1) <= i < t.len() ==> is_ws(t[i]));
        lemma_ws_run_end_is(t, n - 1);
    }
}

pub proof fn lemma_digit_run(s: Seq<char>)
    ensures
        0 <= digit_run(s) <= s.len(),
        forall|i: int| 0 <= i < digit_run(s) ==> is_digit(s[i]),
        digit_run(s) < s.len() ==> !is_digit(s[digit_run(s)]),
    decreases s.len(),
{
    if s.len() > 0 && is_digit(s[0]) {
        let t = s.subrange(1, s.len() as int);
        lemma_digit_run(t);
        assert forall|i: int| 0 <= i < digit_run(s) implies is_digit(s[i]) by {
            if i > 0 {
                assert(s[i] == t[i - 1]);
            }
        }
        if digit_run(s) < s.len() {
            assert(s[digit_run(s)] == t[digit_run(t)]);
        }
    }
}

pub proof fn lemma_digit_run_is(s: Seq<char>, n: int)
    requires
        0 <= n <= s.len(),
        forall|i: int| 0 <= i < n ==> is_digit(s[i]),
        n < s.len() ==> !is_digit(s[n]),
    ensures
        digit_run(s) == n,
    decreases s.len(),
{
    if s.len() > 0 && is_digit(s[0]) {
        let t = s.subrange(1, s.len() as int);
        assert(forall|i: int| 0 <= i < n - 1 ==> is_digit(t[i]));
        lemma_digit_run_is(t, n - 1);
    }
}

pub proof fn lemma_nonws_run(s: Seq<char>)
    ensures
        0 <= nonws_run(s) <= s.len(),
        forall|i: int| 0 <= i < nonws_run(s) ==> !is_ws(s[i]),
        nonws_run(s) < s.len() ==> is_ws(s[nonws_run(s)]),
    decreases s.len(),
{
    if s.len() > 0 && !is_ws(s[0]) {
        let t = s.subrange(1, s.len() as int);
        lemma_nonws_run(t);
        assert forall|i: int| 0 <= i < nonws_run(s) implies !is_ws(s[i]) by {
            if i > 0 {
                assert(s[i] == t[i - 1]);
            }
        }
        if nonws_run(s) < s.len() {
            assert(s[nonws_run(s)] == t[nonws_run(t)]);
        }
    }
}

pub proof fn lemma_nonws_run_is(s: Seq<char>, n: int)
    requires
        0 <= n <= s.len(),
        forall|i: int| 0 <= i < n ==> !is_ws(s[i]),
        n < s.len() ==> is_ws(s[n]),
    ensures
        nonws_run(s) == n,
    decreases s.len(),
{
    if s.len() > 0 && !is_ws(s[0]) {
        let t = s.subrange(1, s.len() as int);
        assert(forall|i: int| 0 <= i < n - 1 ==> !is_ws(t[i]));
        lemma_nonws_run_is(t, n - 1);
    }
}

pub proof fn lemma_scan_to(s: Seq<char>, stop: char)
    ensures
        0 <= scan_to(s, stop) <= s.len(),
        forall|i: int| 0 <= i < scan_to(s, stop) ==> s[i] != stop,
        scan_to(s, stop) < s.len() ==> s[scan_to(s, stop)] == stop,
    decreases s.len(),
{
    if s.len() > 0 && s[0] != stop {
        let t = s.subrange(1, s.len() as int);
        lemma_scan_to(t, stop);
        assert forall|i: int| 0 <= i < scan_to(s, stop) implies s[i] != stop by {
            if i > 0 {
                assert(s[i] == t[i - 1]);
            }
        }
        if scan_to(s, stop) < s.len() {
            assert(s[scan_to(s, stop)] == t[scan_to(t, stop)]);
        }
    }
}

pub proof fn lemma_scan_to_is(s: Seq<char>, stop: char, n: int)
    requires
        0 <= n <= s.len(),
        forall|i: int| 0 <= i < n ==> s[i] != stop,
        n < s.len() ==> s[n] == stop,
    ensures
        scan_to(s, stop) == n,
    decreases s.len(),
{
    if s.len() > 0 && s[0] != stop {
        let t = s.subrange(1, s.len() as int);
        assert(forall|i: int| 0 <= i < n - 1 ==> t[i] != stop);
        lemma_scan_to_is(t, stop, n - 1);
    }
}

pub proof fn lemma_label_run(s: Seq<char>)
    ensures
        0 <= label_run(s) <= s.len(),
        forall|i: int| 0 <= i < label_run(s) ==> is_label_char(s[i]),
        label_run(s) < s.len() ==> !is_label_char(s[label_run(s)]),
    decreases s.len(),
{
    if s.len() > 0 && is_label_char(s[0]) {
        let t = s.subrange(1, s.len() as int);
        lemma_label_run(t);
        assert forall|i: int| 0 <= i < label_run(s) implies is_label_char(s[i]) by {
            if i > 0 {
                assert(s[i] == t[i - 1]);
            }
        }
        if label_run(s) < s.len() {
            assert(s[label_run(s)] == t[label_run(t)]);
        }
    }
}

pub proof fn lemma_label_run_is(s: Seq<char>, n: int)
    requires
        0 <= n <= s.len(),
        forall|i: int| 0 <= i < n ==> is_label_char(s[i]),
        n < s.len() ==> !is_label_char(s[n]),
    ensures
        label_run(s) == n,
    decreases s.len(),
{
    if s.len() > 0 && is_label_char(s[0]) {
        let t = s.subrange(1, s.len() as int);
        assert(forall|i: int| 0 <= i < n - 1 ==> is_label_char(t[i]));
        lemma_label_run_is(t, n - 1);
    }
}

/// Counts the label-character run of `v` starting at `from`.
pub fn label_run_from(v: &Vec<char>, from: usize) -> (n: usize)
    requires
        from <= v@.len(),
    ensures
        n == label_run(v@.subrange(from as int, v@.len() as int)),
        from + n <= v@.len(),
{
    let ghost s = v@.subrange(from as int, v@.len() as int);
    let mut i: usize = from;
    while i < v.len() && char_is_label(v[i])
        invariant
            from <= i <= v@.len(),
            forall|k: int| from <= k < i ==> is_label_char(v@[k]),
        decreases v@.len() - i,
    {
        i = i + 1;
    }
    proof {
        assert(forall|k: int| 0 <= k < i - from ==> s[k] == v@[from + k] && is_label_char(s[k]));
        if i - from < s.len() {
            assert(s[i - from] == v@[i as int]);
        }
        lemma_label_run_is(s, i - from);
    }
    i - from
}

/// `trim` of a sequence equals the subrange between the first and one past
/// the last non-whitespace character.
pub proof fn lemma_trim_is(s: Seq<char>, lo: int, hi: int)
    requires
        0 <= lo <= hi <= s.len(),
        forall|i: int| 0 <= i < lo ==> is_ws(s[i]),
        forall|i: int| hi <= i < s.len() ==> is_ws(s[i]),
        lo < hi ==> !is_ws(s[lo]) && !is_ws(s[hi - 1]),
        lo == hi ==> forall|i: int| 0 <= i < s.len() ==> is_ws(s[i]),
    ensures
        trim(s) == s.subrange(lo, hi),
{
    if lo < hi {
        lemma_ws_run_is(s, lo);
        let t = trim_start(s);
        assert(t == s.subrange(lo, s.len() as int));
        assert(forall|i: int| t.len() - (s.len() - hi) <= i < t.len() ==> is_ws(t[i]));
        assert(!is_ws(t[t.len() - (s.len() - hi) - 1]));
        lemma_ws_run_end_is(t, s.len() - hi);
        assert(trim(s) =~= s.subrange(lo, hi));
    } else {
        lemma_ws_run_is(s, s.len() as int);
        assert(trim_start(s) =~= Seq::<char>::empty());
        assert(trim(s) =~= s.subrange(lo, hi));
    }
}

/// Trimming a sequence with no leading or trailing whitespace is the identity.
pub proof fn lemma_trim_noop(s: Seq<char>)
    requires
        s.len() > 0 ==> !is_ws(s[0]) && !is_ws(s[s.len() - 1]),
    ensures
        trim(s) == s,
{
    if s.len() > 0 {
        lemma_trim_is(s, 0, s.len() as int);
        assert(trim(s) =~= s);
    } else {
        lemma_trim_is(s, 0, 0);
        assert(trim(s) =~= s);
    }
}

pub proof fn lemma_trim_props(s: Seq<char>)
    ensures
        trim(s).len() <= s.len(),
        trim(s).len() > 0 ==> !is_ws(trim(s)[0]) && !is_ws(trim(s)[trim(s).len() - 1]),
        trim(trim(s)) == trim(s),
{
    lemma_ws_run(s);
    let t = trim_start(s);
    lemma_ws_run_end(t);
    let u = trim(s);
    assert(u == t.subrange(0, t.len() - ws_run_end(t)));
    if u.len() > 0 {
        assert(u[0] == t[0]);
        assert(!is_ws(t[0]));
    }
    lemma_trim_noop(u);
}

pub proof fn lemma_trim_start_props(s: Seq<char>)
    ensures
        trim_start(s).len() == s.len() - ws_run(s),
        trim_start(s).len() > 0 ==> !is_ws(trim_start(s)[0]),
        forall|j: int| 0 <= j < trim_start(s).len() ==> trim_start(s)[j] == s[ws_run(s) + j],
{
    lemma_ws_run(s);
}

/// Every character of `trim(s)` is a character of `s`, at offset `ws_run(s)`.
pub proof fn lemma_trim_decomp(s: Seq<char>)
    ensures
        trim(s).len() <= s.len() - ws_run(s),
        forall|j: int| 0 <= j < trim(s).len() ==> trim(s)[j] == s[ws_run(s) + j],
{
    lemma_ws_run(s);
    let t = trim_start(s);
    lemma_ws_run_end(t);
    assert(forall|j: int| 0 <= j < trim(s).len() ==> trim(s)[j] == t[j]);
    assert(forall|j: int| 0 <= j < t.len() ==> t[j] == s[ws_run(s) + j]);
}

/// Copies `v[lo..hi]` into a fresh vector.
pub fn copy_range(v: &Vec<char>, lo: usize, hi: usize) -> (r: Vec<char>)
    requires
        lo <= hi <= v@.len(),
    ensures
        r@ == v@.subrange(lo as int, hi as int),
{
    let mut r: Vec<char> = Vec::new();
    let mut i: usize = lo;
    while i < hi
        invariant
            lo <= i <= hi <= v@.len(),
            r@ == v@.subrange(lo as int, i as int),
        decreases hi - i,
    {
        r.push(v[i]);
        proof {
            assert(r@ =~= v@.subrange(lo as int, i + 1 as int));
        }
        i = i + 1;
    }
    r
}

/// Trims leading and trailing whitespace from a character vector.
pub fn trim_chars(v: &Vec<char>) -> (r: Vec<char>)
    ensures
        r@ == trim(v@),
{
    let n = v.len();
    let mut lo: usize = 0;
    while lo < n && char_is_ws(v[lo as usize])
        invariant
            0 <= lo <= n == v@.len(),
            forall|i: int| 0 <= i < lo ==> is_ws(v@[i]),
        decreases n - lo,
    {
        lo = lo + 1;
    }
    let mut hi: usize = n;
    while hi > lo && char_is_ws(v[hi - 1])
        invariant
            lo <= hi <= n == v@.len(),
            forall|i: int| hi <= i < n ==> is_ws(v@[i]),
        decreases hi,
    {
        hi = hi - 1;
    }
    proof {
        if lo == hi {
            assert(forall|i: int| 0 <= i < v@.len() ==> is_ws(v@[i]));
        }
        lemma_trim_is(v@, lo as int, hi as int);
    }
    copy_range(v, lo, hi)
}

/// Trims leading whitespace from a character vector.
pub fn trim_start_chars(v: &Vec<char>) -> (r: Vec<char>)
    ensures
        r@ == trim_start(v@),
{
    let n = v.len();
    let mut lo: usize = 0;
    while lo < n && char_is_ws(v[lo as usize])
        invariant
            0 <= lo <= n == v@.len(),
            forall|i: int| 0 <= i < lo ==> is_ws(v@[i]),
        decreases n - lo,
    {
        lo = lo + 1;
    }
    proof {
        lemma_ws_run_is(v@, lo as int);
    }
    copy_range(v, lo, n)
}

/// The decimal digit with value `d`.
pub open spec fn digit_char(d: int) -> char {
    if d == 0 {
        '0'
    } else if d == 1 {
        '1'
    } else if d == 2 {
        '2'
    } else if d == 3 {
        '3'
    } else if d == 4 {
        '4'
    } else if d == 5 {
        '5'
    } else if d == 6 {
        '6'
    } else if d == 7 {
        '7'
    } else if d == 8 {
        '8'
    } else {
        '9'
    }
}

pub open spec fn digit_val(c: char) -> int {
    c as u32 - 48
}

/// The value of a sequence of decimal digits, most significant first.
pub open spec fn dec_val(s: Seq<char>) -> int
    decreases s.len(),
{
    if s.len() == 0 {
        0
    } else {
        dec_val(s.subrange(0, s.len() - 1)) * 10 + digit_val(s[s.len() - 1])
    }
}

/// The canonical decimal rendering of `n >= 0`, without leading zeros.
pub open spec fn dec_str(n: int) -> Seq<char>
    decreases n,
{
    if n < 10 {
        seq![digit_char(n)]
    } else {
        dec_str(n / 10).push(digit_char(n % 10))
    }
}

pub proof fn lemma_dec_val_nonneg(s: Seq<char>)
    requires
        forall|i: int| 0 <= i < s.len() ==> is_digit(s[i]),
    ensures
        dec_val(s) >= 0,
    decreases s.len(),
{
    if s.len() > 0 {
        let t = s.subrange(0, s.len() - 1);
        lemma_dec_val_nonneg(t);
    }
}

/// `dec_str(n)` is all digits and reads back as `n`.
pub proof fn lemma_dec_str(n: int)
    requires
        n >= 0,
    ensures
        dec_str(n).len() >= 1,
        forall|i: int| 0 <= i < dec_str(n).len() ==> is_digit(dec_str(n)[i]),
        dec_val(dec_str(n)) == n,
    decreases n,
{
    if n < 10 {
        assert(dec_str(n) == seq![digit_char(n)]);
        assert(is_digit(digit_char(n)));
        assert(dec_val(dec_str(n)) == dec_val(Seq::<char>::empty()) * 10 + digit_val(digit_char(n)))
            by {
            assert(dec_str(n).subrange(0, 0) =~= Seq::<char>::empty());
        }
        assert(digit_val(digit_char(n)) == n);
    } else {
        lemma_dec_str(n / 10);
        let u = dec_str(n / 10);
        let s = u.push(digit_char(n % 10));
        assert(dec_str(n) == s);
        assert(s.subrange(0, s.len() - 1) =~= u);
        assert(s[s.len() - 1] == digit_char(n % 10));
        assert(digit_val(digit_char(n % 10)) == n % 10);
        assert(dec_val(s) == (n / 10) * 10 + n % 10);
        assert((n / 10) * 10 + n % 10 == n) by (nonlinear_arith)
            requires
                n >= 10,
        ;
    }
}

/// Each prefix of a digit sequence reads as at most the whole.
pub proof fn lemma_dec_val_prefix_le(s: Seq<char>, i: int)
    requires
        forall|k: int| 0 <= k < s.len() ==> is_digit(s[k]),
        0 <= i <= s.len(),
    ensures
        dec_val(s.subrange(0, i)) <= dec_val(s),
    decreases s.len() - i,
{
    if i < s.len() {
        let p = s.subrange(0, i + 1);
        assert(p.subrange(0, i) =~= s.subrange(0, i));
        let a = dec_val(s.subrange(0, i));
        lemma_dec_val_nonneg(s.subrange(0, i));
        assert(is_digit(s[i]));
        assert(digit_val(s[i]) >= 0);
        assert(dec_val(p) == a * 10 + digit_val(p[i]));
        assert(a * 10 >= a) by (nonlinear_arith)
            requires
                a >= 0,
        ;
        lemma_dec_val_prefix_le(s, i + 1);
    } else {
        assert(s.subrange(0, i) =~= s);
    }
}

pub fn digit_to_char(d: u64) -> (c: char)
    requires
        d < 10,
    ensures
        c == digit_char(d as int),
{
    if d == 0 {
        '0'
    } else if d == 1 {
        '1'
    } else if d == 2 {
        '2'
    } else if d == 3 {
        '3'
    } else if d == 4 {
        '4'
    } else if d == 5 {
        '5'
    } else if d == 6 {
        '6'
    } else if d == 7 {
        '7'
    } else if d == 8 {
        '8'
    } else {
        '9'
    }
}

/// Renders `n` in decimal.
pub fn u64_to_chars(n: u64) -> (v: Vec<char>)
    ensures
        v@ == dec_str(n as int),
    decreases n,
{
    if n < 10 {
        let c = digit_to_char(n);
        let mut v: Vec<char> = Vec::new();
        v.push(c);
        proof {
            assert(v@ =~= seq![digit_char(n as int)]);
        }
        v
    } else {
        let mut v = u64_to_chars(n / 10);
        let c = digit_to_char(n % 10);
        v.push(c);
        v
    }
}

/// Reads the decimal value of `v[lo..hi]`; `None` when the value exceeds
/// `u64::MAX`.
pub fn chars_to_u64(v: &Vec<char>, lo: usize, hi: usize) -> (r: Option<u64>)
    requires
        lo <= hi <= v@.len(),
        forall|i: int| lo <= i < hi ==> is_digit(v@[i]),
    ensures
        match r {
            Some(x) => x as int == dec_val(v@.subrange(lo as int, hi as int)),
            None => dec_val(v@.subrange(lo as int, hi as int)) > u64::MAX,
        },
{
    let ghost s = v@.subrange(lo as int, hi as int);
    proof {
        assert(forall|k: int| 0 <= k < s.len() ==> is_digit(s[k]));
    }
    let mut acc: u64 = 0;
    let mut i: usize = lo;
    while i < hi
        invariant
            lo <= i <= hi <= v@.len(),
            s == v@.subrange(lo as int, hi as int),
            forall|k: int| 0 <= k < s.len() ==> is_digit(s[k]),
            acc as int == dec_val(s.subrange(0, i - lo)),
        decreases hi - i,
    {
        let c = v[i];
        proof {
            assert(s[i - lo] == v@[i as int]);
            assert(is_digit(v@[i as int]));
        }
        let u: u32 = c as u32;
        let d: u64 = (u - 48) as u64;
        proof {
            assert(d < 10);
        }
        if acc > (u64::MAX - d) / 10 {
            proof {
                let p = s.subrange(0, i - lo + 1);
                assert(p.subrange(0, p.len() - 1) =~= s.subrange(0, i - lo));
                assert(p[p.len() - 1] == s[i - lo] == v@[i as int]);
                assert(digit_val(v@[i as int]) == d);
                assert(dec_val(p) == acc * 10 + d);
                assert(acc * 10 + d > u64::MAX) by (nonlinear_arith)
                    requires
                        acc > (u64::MAX - d) / 10,
                        d < 10,
                ;
                lemma_dec_val_prefix_le(s, i - lo + 1);
            }
            return None;
        }
        proof {
            assert(acc * 10 + d <= u64::MAX) by (nonlinear_arith)
                requires
                    acc <= (u64::MAX - d) / 10,
                    d < 10,
            ;
            assert(acc * 10 >= 0) by (nonlinear_arith)
                requires
                    acc >= 0,
            ;
            let p = s.subrange(0, i - lo + 1);
            assert(p.subrange(0, p.len() - 1) =~= s.subrange(0, i - lo));
            assert(p[p.len() - 1] == s[i - lo] == v@[i as int]);
            assert(digit_val(v@[i as int]) == d);
        }
        acc = acc * 10 + d;
        i = i + 1;
    }
    proof {
        assert(s.subrange(0, i - lo) =~= s);
    }
    Some(acc)
}

/// Counts the digit run of `v` starting at `from`.
pub fn digit_run_from(v: &Vec<char>, from: usize) -> (n: usize)
    requires
        from <= v@.len(),
    ensures
        n == digit_run(v@.subrange(from as int, v@.len() as int)),
        from + n <= v@.len(),
{
    let ghost s = v@.subrange(from as int, v@.len() as int);
    let mut i: usize = from;
    while i < v.len() && char_is_digit(v[i])
        invariant
            from <= i <= v@.len(),
            forall|k: int| from <= k < i ==> is_digit(v@[k]),
        decreases v@.len() - i,
    {
        i = i + 1;
    }
    proof {
        assert(forall|k: int| 0 <= k < i - from ==> s[k] == v@[from + k] && is_digit(s[k]));
        if i - from < s.len() {
            assert(s[i - from] == v@[i as int]);
        }
        lemma_digit_run_is(s, i - from);
    }
    i - from
}

/// Counts the non-whitespace run of `v` starting at `from`.
pub fn nonws_run_from(v: &Vec<char>, from: usize) -> (n: usize)
    requires
        from <= v@.len(),
    ensures
        n == nonws_run(v@.subrange(from as int, v@.len() as int)),
        from + n <= v@.len(),
{
    let ghost s = v@.subrange(from as int, v@.len() as int);
    let mut i: usize = from;
    while i < v.len() && !char_is_ws(v[i])
        invariant
            from <= i <= v@.len(),
            forall|k: int| from <= k < i ==> !is_ws(v@[k]),
        decreases v@.len() - i,
    {
        i = i + 1;
    }
    proof {
        assert(forall|k: int| 0 <= k < i - from ==> s[k] == v@[from + k] && !is_ws(s[k]));
        if i - from < s.len() {
            assert(s[i - from] == v@[i as int]);
        }
        lemma_nonws_run_is(s, i - from);
    }
    i - from
}

/// Counts the whitespace run of `v` starting at `from`.
pub fn ws_run_from(v: &Vec<char>, from: usize) -> (n: usize)
    requires
        from <= v@.len(),
    ensures
        n == ws_run(v@.subrange(from as int, v@.len() as int)),
        from + n <= v@.len(),
{
    let ghost s = v@.subrange(from as int, v@.len() as int);
    let mut i: usize = from;
    while i < v.len() && char_is_ws(v[i])
        invariant
            from <= i <= v@.len(),
            forall|k: int| from <= k < i ==> is_ws(v@[k]),
        decreases v@.len() - i,
    {
        i = i + 1;
    }
    proof {
        assert(forall|k: int| 0 <= k < i - from ==> s[k] == v@[from + k] && is_ws(s[k]));
        if i - from < s.len() {
            assert(s[i - from] == v@[i as int]);
        }
        lemma_ws_run_is(s, i - from);
    }
    i - from
}

/// Counts the run of characters other than `stop` in `v` starting at `from`.
pub fn scan_to_from(v: &Vec<char>, from: usize, stop: char) -> (n: usize)
    requires
        from <= v@.len(),
    ensures
        n == scan_to(v@.subrange(from as int, v@.len() as int), stop),
        from + n <= v@.len(),
{
    let ghost s = v@.subrange(from as int, v@.len() as int);
    let mut i: usize = from;
    while i < v.len() && v[i] != stop
        invariant
            from <= i <= v@.len(),
            forall|k: int| from <= k < i ==> v@[k] != stop,
        decreases v@.len() - i,
    {
        i = i + 1;
    }
    proof {
        assert(forall|k: int| 0 <= k < i - from ==> s[k] == v@[from + k] && s[k] != stop);
        if i - from < s.len() {
            assert(s[i - from] == v@[i as int]);
        }
        lemma_scan_to_is(s, stop, i - from);
    }
    i - from
}

/// Tests whether `s` starts with `p`, character by character.
pub fn str_has_prefix(s: &str, p: &str) -> (b: bool)
    ensures
        b == (s@.len() >= p@.len() && s@.subrange(0, p@.len() as int) == p@),
{
    let n = s.unicode_len();
    let m = p.unicode_len();
    if n < m {
        return false;
    }
    let mut i: usize = 0;
    while i < m
        invariant
            i <= m == p@.len() <= n == s@.len(),
            forall|k: int| 0 <= k < i ==> s@[k] == p@[k],
        decreases m - i,
    {
        if s.get_char(i) != p.get_char(i) {
            proof {
                assert(s@.subrange(0, m as int)[i as int] != p@[i as int]);
            }
            return false;
        }
        i = i + 1;
    }
    proof {
        assert(s@.subrange(0, m as int) =~= p@);
    }
    true
}

/// Relies on `String::push`: appends exactly the one character.
#[verifier::external_body]
pub fn push_char(s: &mut String, c: char)
    ensures
        final(s)@ == old(s)@.push(c),
{
    s.push(c);
}

/// Builds a `String` holding exactly the characters of `v`.
pub fn chars_to_string(v: &Vec<char>) -> (r: String)
    ensures
        r@ == v@,
{
    let mut r = String::new();
    let mut i: usize = 0;
    while i < v.len()
        invariant
            i <= v@.len(),
            r@ == v@.subrange(0, i as int),
        decreases v@.len() - i,
    {
        push_char(&mut r, v[i]);
        proof {
            assert(r@ =~= v@.subrange(0, i + 1 as int));
        }
        i = i + 1;
    }
    proof {
        assert(r@ =~= v@);
    }
    r
}

/// Collects the characters of `s` into a vector.
pub fn str_to_chars(s: &str) -> (v: Vec<char>)
    ensures
        v@ == s@,
{
    let n = s.unicode_len();
    let mut v: Vec<char> = Vec::new();
    let mut i: usize = 0;
    while i < n
        invariant
            i <= n == s@.len(),
            v@ == s@.subrange(0, i as int),
        decreases n - i,
    {
        v.push(s.get_char(i));
        proof {
            assert(v@ =~= s@.subrange(0, i + 1 as int));
        }
        i = i + 1;
    }
    proof {
        assert(v@ =~= s@);
    }
    v
}

/// Appends every character of `src` to `dst`.
pub fn append_chars(dst: &mut Vec<char>, src: &Vec<char>)
    ensures
        final(dst)@ == old(dst)@ + src@,
{
    let mut i: usize = 0;
    while i < src.len()
        invariant
            i <= src@.len(),
            dst@ == old(dst)@ + src@.subrange(0, i as int),
        decreases src@.len() - i,
    {
        dst.push(src[i]);
        proof {
            assert(dst@ =~= old(dst)@ + src@.subrange(0, i + 1 as int));
        }
        i = i + 1;
    }
    proof {
        assert(dst@ =~= old(dst)@ + src@);
    }
}

/// Appends every character of the string slice `src` to `dst`.
pub fn append_str_chars(dst: &mut Vec<char>, src: &str)
    ensures
        final(dst)@ == old(dst)@ + src@,
{
    let n = src.unicode_len();
    let mut i: usize = 0;
    while i < n
        invariant
            i <= n == src@.len(),
            dst@ == old(dst)@ + src@.subrange(0, i as int),
        decreases n - i,
    {
        dst.push(src.get_char(i));
        proof {
            assert(dst@ =~= old(dst)@ + src@.subrange(0, i + 1 as int));
        }
        i = i + 1;
    }
    proof {
        assert(dst@ =~= old(dst)@ + src@);
    }
}

/// Compares the contents of two character vectors.
pub fn chars_eq(a: &Vec<char>, b: &Vec<char>) -> (r: bool)
    ensures
        r == (a@ == b@),
{
    if a.len() != b.len() {
        proof {
            assert(a@ != b@);
        }
        return false;
    }
    let mut i: usize = 0;
    while i < a.len()
        invariant
            i <= a@.len() == b@.len(),
            forall|k: int| 0 <= k < i ==> a@[k] == b@[k],
        decreases a@.len() - i,
    {
        if a[i] != b[i] {
            return false;
        }
        i = i + 1;
    }
    proof {
        assert(a@ =~= b@);
    }
    true
}

} // verus!
