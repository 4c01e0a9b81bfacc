//! The demangling collaborator: a pure function from a raw symbol to its
//! two demangled display forms, provided by an outside crate.

use vstd::prelude::*;

verus! {

/// The demangled forms of a symbol: `Some((name, hashed))` where `name`
/// is the display form without the compiler's disambiguation hash and
/// `hashed` keeps it; `None` when the symbol is not mangled.  The result
/// depends on the symbol's characters alone.
pub uninterp spec fn demangle_of(sym: Seq<char>) -> Option<(Seq<char>, Seq<char>)>;

/// Relies on `rustc_demangle::try_demangle`: recognizes a mangled Rust
/// symbol and, through its `Display` impl, yields the demangled name
/// (`{:#}` drops the trailing hash, `{}` keeps it).  The outcome is a
/// function of the symbol text alone.
#[verifier::external_body]
pub fn demangled(sym: &str) -> (r: Option<(String, String)>)
    ensures
        match r {
            Option::Some(p) => demangle_of(sym@) == Option::Some((p.0@, p.1@)),
            Option::None => demangle_of(sym@) is None,
        },
{
    match rustc_demangle::try_demangle(sym) {
        Ok(d) => Some((format!("{:#}", d), format!("{}", d))),
        Err(_) => None,
    }
}

/// The replacement for one identifier-shaped token: its demangled form
/// (the hashed form when `full` is set), or the token itself when it is
/// not a mangled symbol.
pub open spec fn demangle_pick(
    nh: Option<(Seq<char>, Seq<char>)>,
    tok: Seq<char>,
    full: bool,
) -> Seq<char> {
    match nh {
        Option::Some(p) => if full {
            p.1
        } else {
            p.0
        },
        Option::None => tok,
    }
}

/// The text with every identifier-shaped token passed through the
/// demangler: mangled symbol references come out readable, everything
/// else is unchanged.
pub open spec fn demangled_text(s: Seq<char>, full: bool) -> Seq<char>
    decreases s.len(),
{
    if s.len() == 0 {
        s
    } else if !crate::text::is_label_char(s[0]) {
        seq![s[0]] + demangled_text(s.subrange(1, s.len() as int), full)
    } else {
        let n = crate::text::label_run(s);
        let n1 = if 1 <= n <= s.len() {
            n
        } else {
            1
        };
        let tok = s.subrange(0, n1);
        demangle_pick(demangle_of(tok), tok, full) + demangled_text(
            s.subrange(n1, s.len() as int),
            full,
        )
    }
}

/// Rewrites every mangled symbol reference inside a line of text to its
/// demangled form, leaving everything else in place.  Used on the output
/// of the external analysis tool.
pub fn demangle_contents(line: &str, full: bool) -> (r: String)
    ensures
        r@ == demangled_text(line@, full),
{
    let chars = crate::text::str_to_chars(line);
    let n = chars.len();
    let mut out: Vec<char> = Vec::new();
    let mut pos: usize = 0;
    proof {
        assert(chars@.subrange(0, n as int) =~= chars@);
    }
    while pos < n
        invariant
            pos <= n == chars@.len(),
            chars@ == line@,
            demangled_text(line@, full) =~= out@ + demangled_text(
                chars@.subrange(pos as int, n as int),
                full,
            ),
        decreases n - pos,
    {
        let ghost suf = chars@.subrange(pos as int, n as int);
        let ghost out0 = out@;
        if crate::text::char_is_label(chars[pos]) {
            let run = crate::text::label_run_from(&chars, pos);
            proof {
                crate::text::lemma_label_run(suf);
                assert(suf[0] == chars@[pos as int]);
                assert(crate::text::label_run(suf) >= 1) by {
                    if crate::text::label_run(suf) == 0 {
                        assert(!crate::text::is_label_char(suf[0]));
                    }
                }
            }
            let tok = crate::text::copy_range(&chars, pos, pos + run);
            proof {
                assert(tok@ =~= suf.subrange(0, crate::text::label_run(suf)));
                assert(suf.subrange(crate::text::label_run(suf), suf.len() as int)
                    =~= chars@.subrange(pos + run, n as int));
            }
            let ts = crate::text::chars_to_string(&tok);
            match demangled(ts.as_str()) {
                Option::Some(nh) => {
                    if full {
                        crate::text::append_str_chars(&mut out, nh.1.as_str());
                    } else {
                        crate::text::append_str_chars(&mut out, nh.0.as_str());
                    }
                },
                Option::None => {
                    crate::text::append_chars(&mut out, &tok);
                },
            }
            proof {
                assert(out@ =~= out0 + demangle_pick(demangle_of(tok@), tok@, full));
                assert(demangled_text(line@, full) =~= out@ + demangled_text(
                    chars@.subrange(pos + run, n as int),
                    full,
                ));
            }
            pos = pos + run;
        } else {
            out.push(chars[pos]);
            proof {
                assert(suf[0] == chars@[pos as int]);
                assert(suf.subrange(1, suf.len() as int) =~= chars@.subrange(
                    pos + 1,
                    n as int,
                ));
                assert(out@ =~= out0 + seq![suf[0]]);
                assert(demangled_text(line@, full) =~= out@ + demangled_text(
                    chars@.subrange(pos + 1, n as int),
                    full,
                ));
            }
            pos = pos + 1;
        }
    }
    proof {
        assert(demangled_text(chars@.subrange(n as int, n as int), full)
            =~= Seq::<char>::empty());
        assert(out@ =~= demangled_text(line@, full));
    }
    crate::text::chars_to_string(&out)
}

} // verus!
