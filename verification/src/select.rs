//! The boundary with the external fuzzy-selection process: one line per
//! item written to the finder, and the chosen line's index parsed back
//! out, plus the choice of finder program.

use vstd::prelude::*;

use crate::text::{
    char_is_digit, char_is_ws, chars_to_string, chars_to_u64, copy_range, dec_str, dec_val,
    digit_run, is_digit, is_ws, lemma_dec_val_nonneg, lemma_digit_run, str_to_chars,
    trim_start, trim_start_chars, u64_to_chars, ws_run, lemma_ws_run, lemma_trim_start_props,
};
use crate::{ItemMap, ItemView};

verus! {

/// The fixed delimiter between index and function name in finder lines.
pub open spec fn delim() -> Seq<char> {
    seq![':', ' ']
}

/// Spaces used to right-align indices.
pub open spec fn spaces(n: int) -> Seq<char>
    decreases n,
{
    if n <= 0 {
        Seq::empty()
    } else {
        spaces(n - 1).push(' ')
    }
}

pub open spec fn pad_left(s: Seq<char>, w: int) -> Seq<char> {
    if s.len() >= w {
        s
    } else {
        spaces(w - s.len()) + s
    }
}

/// Digit count of `n` in decimal, i.e. one more than its floor log.
pub open spec fn floor_log10(n: int) -> int
    decreases n,
{
    if n < 10 {
        0
    } else {
        1 + floor_log10(n / 10)
    }
}

/// One finder line per item: the right-aligned index, the delimiter, and
/// the item's display name.
pub open spec fn ser_lines(m: Seq<(ItemView, (int, int))>, w: int, i: int) -> Seq<char>
    decreases m.len() - i,
{
    if i < 0 || i >= m.len() {
        Seq::empty()
    } else {
        pad_left(dec_str(i), w) + delim() + m[i].0.name + seq!['\n'] + ser_lines(m, w, i + 1)
    }
}

pub open spec fn serialize_spec(m: Seq<(ItemView, (int, int))>) -> Seq<char> {
    ser_lines(m, floor_log10(m.len() as int) + 1, 0)
}

proof fn lemma_floor_log10_bounds(n: int)
    requires
        n >= 1,
    ensures
        0 <= floor_log10(n) < n,
    decreases n,
{
    if n >= 10 {
        lemma_floor_log10_bounds(n / 10);
    }
}

fn width_of(n: usize) -> (w: usize)
    requires
        n >= 1,
    ensures
        w == floor_log10(n as int) + 1,
{
    let mut w: usize = 1;
    let mut x: usize = n;
    proof {
        lemma_floor_log10_bounds(n as int);
    }
    while x >= 10
        invariant
            x >= 1,
            w >= 1,
            n >= 1,
            floor_log10(n as int) + 1 == floor_log10(x as int) + w,
            floor_log10(n as int) < n <= usize::MAX,
        decreases x,
    {
        proof {
            lemma_floor_log10_bounds(x as int / 10);
            assert(floor_log10(x as int) == 1 + floor_log10(x as int / 10));
        }
        x = x / 10;
        w = w + 1;
    }
    w
}

fn push_padded_index(v: &mut Vec<char>, i: usize, w: usize)
    ensures
        final(v)@ == old(v)@ + pad_left(dec_str(i as int), w as int),
{
    let num = u64_to_chars(i as u64);
    let ghost before = v@;
    if num.len() < w {
        let mut k: usize = 0;
        let pad = w - num.len();
        while k < pad
            invariant
                k <= pad,
                v@ == before + spaces(k as int),
            decreases pad - k,
        {
            v.push(' ');
            k = k + 1;
        }
        crate::text::append_chars(v, &num);
        proof {
            assert(v@ =~= before + pad_left(dec_str(i as int), w as int));
        }
    } else {
        crate::text::append_chars(v, &num);
    }
}

/// Writes the finder lines for the item map: each line is the item's
/// position in enumeration order, right-aligned with spaces to the
/// width of the largest index, then the delimiter and its display name.
pub fn serialize(items: &ItemMap) -> (r: String)
    requires
        items@.len() >= 1,
    ensures
        r@ == serialize_spec(items@),
{
    let n = items.len();
    let w = width_of(n);
    let ghost wg = w as int;
    let mut v: Vec<char> = Vec::new();
    let mut i: usize = 0;
    proof {
        assert(v@ =~= Seq::<char>::empty());
        assert(serialize_spec(items@) == ser_lines(items@, wg, 0));
    }
    while i < n
        invariant
            i <= n == items@.len(),
            wg == w as int,
            ser_lines(items@, wg, 0) =~= v@ + ser_lines(items@, wg, i as int),
        decreases n - i,
    {
        let ghost before = v@;
        push_padded_index(&mut v, i, w);
        v.push(':');
        v.push(' ');
        let e = items.get(i);
        crate::text::append_str_chars(&mut v, e.0.name.as_str());
        v.push('\n');
        proof {
            assert(v@ =~= before + (pad_left(dec_str(i as int), wg) + delim()
                + items@[i as int].0.name + seq!['\n']));
            assert(ser_lines(items@, wg, i as int) == pad_left(dec_str(i as int), wg) + delim()
                + items@[i as int].0.name + seq!['\n'] + ser_lines(items@, wg, i + 1));
            assert(ser_lines(items@, wg, 0) =~= v@ + ser_lines(items@, wg, i + 1));
        }
        i = i + 1;
    }
    proof {
        assert(ser_lines(items@, wg, n as int) =~= Seq::<char>::empty());
        assert(v@ =~= ser_lines(items@, wg, 0));
    }
    chars_to_string(&v)
}

/// Position of the first occurrence of the delimiter, or past the end.
pub open spec fn delim_pos(s: Seq<char>) -> int
    decreases s.len(),
{
    if s.len() < 2 {
        s.len() as int
    } else if s[0] == ':' && s[1] == ' ' {
        0
    } else {
        1 + delim_pos(s.subrange(1, s.len() as int))
    }
}

pub proof fn lemma_delim_pos(s: Seq<char>)
    ensures
        0 <= delim_pos(s) <= s.len(),
        delim_pos(s) + 2 <= s.len() ==> s[delim_pos(s)] == ':' && s[delim_pos(s) + 1] == ' ',
        forall|i: int|
            0 <= i < delim_pos(s) && i + 2 <= s.len() ==> !(#[trigger] s[i] == ':' && s[i + 1]
                == ' '),
    decreases s.len(),
{
    if s.len() >= 2 && !(s[0] == ':' && s[1] == ' ') {
        let t = s.subrange(1, s.len() as int);
        lemma_delim_pos(t);
        let p = delim_pos(s);
        if p + 2 <= s.len() {
            assert(s[p] == t[p - 1]);
            assert(s[p + 1] == t[p]);
        }
        assert forall|i: int|
            0 <= i < p && i + 2 <= s.len() implies !(#[trigger] s[i] == ':' && s[i + 1]
            == ' ') by {
            if i > 0 {
                assert(s[i] == t[i - 1]);
                assert(s[i + 1] == t[i]);
            }
        }
    }
}

/// Why a finder line could not be read back.
#[derive(Clone, Copy, Debug, PartialEq, Eq, Structural)]
pub enum DeserializeError {
    /// no delimiter in the line
    NoDelimiter,
    /// the part before the delimiter is not a decimal index
    BadNumber,
}

/// What `deserialize` returns on `buffer`: after trimming leading
/// whitespace, the digits before the first delimiter, read as an index.
pub open spec fn deserialize_spec(s: Seq<char>) -> Result<int, DeserializeError> {
    let t = trim_start(s);
    let p = delim_pos(t);
    if p + 2 > t.len() {
        Result::Err(DeserializeError::NoDelimiter)
    } else {
        let num = t.subrange(0, p);
        if num.len() > 0 && digit_run(num) == num.len() && dec_val(num) <= usize::MAX as int {
            Result::Ok(dec_val(num))
        } else {
            Result::Err(DeserializeError::BadNumber)
        }
    }
}

/// Reads the chosen finder line back: the index before the delimiter.
pub fn deserialize(buffer: &str) -> (r: Result<usize, DeserializeError>)
    ensures
        match r {
            Result::Ok(i) => deserialize_spec(buffer@) == Result::<int, DeserializeError>::Ok(
                i as int,
            ),
            Result::Err(e) => deserialize_spec(buffer@) == Result::<int, DeserializeError>::Err(e),
        },
{
    let chars = str_to_chars(buffer);
    let t = trim_start_chars(&chars);
    let n = t.len();
    let mut p: usize = 0;
    while n >= 2 && p <= n - 2 && !(t[p] == ':' && t[p + 1] == ' ')
        invariant
            p <= n == t@.len(),
            forall|i: int|
                0 <= i < p && i + 2 <= n ==> !(#[trigger] t@[i] == ':' && t@[i + 1] == ' '),
        decreases n - p,
    {
        p = p + 1;
    }
    proof {
        lemma_delim_pos(t@);
        if n >= 2 && p <= n - 2 {
            // the scan stopped on the delimiter, which is its first
            // occurrence
            assert(delim_pos(t@) == p) by {
                if delim_pos(t@) < p {
                    assert(!(t@[delim_pos(t@)] == ':' && t@[delim_pos(t@) + 1] == ' '));
                }
                if delim_pos(t@) > p {
                    assert(!(t@[p as int] == ':' && t@[p as int + 1] == ' '));
                }
            }
        } else {
            assert(delim_pos(t@) + 2 > t@.len()) by {
                if delim_pos(t@) + 2 <= t@.len() {
                    assert(!(t@[delim_pos(t@)] == ':' && t@[delim_pos(t@) + 1] == ' '));
                }
            }
        }
    }
    if n < 2 || p > n - 2 {
        return Result::Err(DeserializeError::NoDelimiter);
    }
    let ghost num = t@.subrange(0, p as int);
    let dr = crate::text::digit_run_from(&t, 0);
    proof {
        assert(t@.subrange(0, n as int) =~= t@);
        lemma_digit_run(t@);
        lemma_digit_run(num);
        assert(forall|i: int| 0 <= i < num.len() ==> num[i] == t@[i]);
    }
    if p == 0 {
        proof {
            assert(num.len() == 0);
        }
        return Result::Err(DeserializeError::BadNumber);
    }
    let all_digits = dr >= p;
    proof {
        if all_digits {
            assert forall|i: int| 0 <= i < num.len() implies is_digit(num[i]) by {
                assert(num[i] == t@[i]);
            }
            crate::text::lemma_digit_run_is(num, num.len() as int);
        } else {
            assert(!is_digit(t@[dr as int]));
            assert(digit_run(num) != num.len()) by {
                if digit_run(num) == num.len() {
                    assert(is_digit(num[dr as int]));
                }
            }
        }
    }
    if !all_digits {
        return Result::Err(DeserializeError::BadNumber);
    }
    match chars_to_u64(&t, 0, p) {
        Option::Some(x) => {
            if x <= usize::MAX as u64 {
                Result::Ok(x as usize)
            } else {
                Result::Err(DeserializeError::BadNumber)
            }
        },
        Option::None => Result::Err(DeserializeError::BadNumber),
    }
}

/// The known fuzzy finders, in order of preference, plus a custom
/// command with its preview arguments.
pub enum Finder {
    Fzf,
    Skim,
    Fzy,
    Custom { command: Vec<String>, preview: Vec<String> },
}

impl Finder {
    /// The executable a finder is started as.
    pub open spec fn spec_executable(&self) -> Seq<char> {
        match self {
            Finder::Fzf => seq!['f', 'z', 'f'],
            Finder::Skim => seq!['s', 'k'],
            Finder::Fzy => seq!['f', 'z', 'y'],
            Finder::Custom { command, preview } => command@[0]@,
        }
    }

    pub fn get_executable(&self) -> (r: String)
        requires
            self is Custom ==> self->command@.len() > 0,
        ensures
            r@ == self.spec_executable(),
    {
        match self {
            Finder::Fzf => {
                let s = fzf_name();
                s
            },
            Finder::Skim => {
                let mut v: Vec<char> = Vec::new();
                v.push('s');
                v.push('k');
                proof {
                    assert(v@ =~= seq!['s', 'k']);
                }
                chars_to_string(&v)
            },
            Finder::Fzy => {
                let mut v: Vec<char> = Vec::new();
                v.push('f');
                v.push('z');
                v.push('y');
                proof {
                    assert(v@ =~= seq!['f', 'z', 'y']);
                }
                chars_to_string(&v)
            },
            Finder::Custom { command, preview } => {
                let mut v: Vec<char> = Vec::new();
                crate::text::append_str_chars(&mut v, command[0].as_str());
                proof {
                    assert(v@ =~= command@[0]@);
                }
                chars_to_string(&v)
            },
        }
    }

    /// Whether the finder supports a live preview pane.
    pub fn has_preview_support(&self) -> (r: bool)
        ensures
            r == match self {
                Finder::Fzf => true,
                Finder::Skim => true,
                Finder::Fzy => false,
                Finder::Custom { command, preview } => preview@.len() > 0,
            },
    {
        match self {
            Finder::Fzf => true,
            Finder::Skim => true,
            Finder::Fzy => false,
            Finder::Custom { command, preview } => preview.len() > 0,
        }
    }
}

fn fzf_name() -> (r: String)
    ensures
        r@ == seq!['f', 'z', 'f'],
{
    let mut v: Vec<char> = Vec::new();
    v.push('f');
    v.push('z');
    v.push('f');
    proof {
        assert(v@ =~= seq!['f', 'z', 'f']);
    }
    chars_to_string(&v)
}

/// The preview command handed to a finder with preview support: this
/// program in client mode, against the given server address, with the
/// finder's selected index placeholder.
pub open spec fn preview_spec(exe: Seq<char>, address: Seq<char>) -> Seq<char> {
    exe + " --client --server-name=\""@ + address + "\" --select {1}"@
}

/// Assembles the preview command line for the finder.
pub fn preview_command(exe: &str, address: &str) -> (r: String)
    ensures
        r@ == preview_spec(exe@, address@),
{
    let mut v: Vec<char> = Vec::new();
    crate::text::append_str_chars(&mut v, exe);
    crate::text::append_str_chars(&mut v, " --client --server-name=\"");
    crate::text::append_str_chars(&mut v, address);
    crate::text::append_str_chars(&mut v, "\" --select {1}");
    proof {
        assert(v@ =~= preview_spec(exe@, address@));
    }
    chars_to_string(&v)
}

/// The single finder picked from which of the known ones are installed,
/// in order of preference.
pub fn preferred_finder(fzf: bool, skim: bool, fzy: bool) -> (r: Option<Finder>)
    ensures
        fzf ==> r is Some && r->0 is Fzf,
        !fzf && skim ==> r is Some && r->0 is Skim,
        !fzf && !skim && fzy ==> r is Some && r->0 is Fzy,
        !fzf && !skim && !fzy ==> r is None,
{
    if fzf {
        Option::Some(Finder::Fzf)
    } else if skim {
        Option::Some(Finder::Skim)
    } else if fzy {
        Option::Some(Finder::Fzy)
    } else {
        Option::None
    }
}

} // verus!
