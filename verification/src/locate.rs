//! The source locator: given a debug-location path reference, decides
//! where the file can be found locally, understanding the compiler's
//! internal source-tree conventions and the dependency-registry layout.

use vstd::prelude::*;

use crate::statements::starts_with;
use crate::text::{chars_to_string, scan_to, scan_to_from, str_to_chars};

verus! {

/// How a referenced path is classified, with the rewritten candidate
/// where a rewrite rule applies.
pub enum PathClass {
    /// no rewrite rule applies
    Verbatim,
    /// a compiler-internal source tree reference, rewritten under the
    /// sysroot's standard-library source directory
    RustcStyle { candidate: String },
    /// a dependency-registry reference, rewritten under the home
    /// registry cache
    Registry { candidate: String },
}

/// The outcome of resolving a referenced path.
pub enum Resolution {
    /// this local path holds the file
    Found(String),
    /// the standard-library sources are not installed: an actionable
    /// configuration error
    MissingRustSrc,
    /// the registry cache lacks the crate: a build environment
    /// inconsistency
    RegistryMissing,
    /// no rule found the file; rendering proceeds without source lines
    NotFound,
}

pub open spec fn rustc_prefix() -> Seq<char> {
    "/rustc/"@
}

pub open spec fn mac_prefix() -> Seq<char> {
    "/private/tmp"@
}

pub open spec fn sysroot_sub() -> Seq<char> {
    "/lib/rustlib/src/rust"@
}

pub open spec fn lib_segment() -> Seq<char> {
    "/library/"@
}

pub open spec fn cargo_registry_seg() -> Seq<char> {
    "/cargo/registry"@
}

pub open spec fn dot_cargo_registry_seg() -> Seq<char> {
    "/.cargo/registry"@
}

/// Least index at which `pat` occurs in `s`, or -1 when it never does.
pub open spec fn first_at(s: Seq<char>, pat: Seq<char>) -> int
    decreases s.len(),
{
    if s.len() < pat.len() {
        -1
    } else if pat.len() == 0 {
        0
    } else if s.subrange(0, pat.len() as int) == pat {
        0
    } else {
        let r = first_at(s.subrange(1, s.len() as int), pat);
        if r < 0 {
            -1
        } else {
            1 + r
        }
    }
}

pub proof fn lemma_first_at(s: Seq<char>, pat: Seq<char>)
    ensures
        first_at(s, pat) == -1 || (0 <= first_at(s, pat) && first_at(s, pat) + pat.len()
            <= s.len()),
        first_at(s, pat) >= 0 ==> s.subrange(first_at(s, pat), first_at(s, pat) + pat.len() as int)
            == pat,
        forall|i: int|
            0 <= i && i + pat.len() <= s.len() && (first_at(s, pat) == -1 || i < first_at(s, pat))
                ==> #[trigger] s.subrange(i, i + pat.len() as int) != pat,
    decreases s.len(),
{
    if s.len() >= pat.len() && pat.len() > 0 && s.subrange(0, pat.len() as int) != pat {
        let t = s.subrange(1, s.len() as int);
        lemma_first_at(t, pat);
        let f = first_at(s, pat);
        if f >= 0 {
            assert(f >= 1);
            assert(f - 1 == first_at(t, pat));
            assert(s.subrange(f, f + pat.len() as int) =~= t.subrange(
                f - 1,
                (f - 1) + pat.len() as int,
            ));
        }
        assert forall|i: int|
            0 <= i && i + pat.len() <= s.len() && (f == -1 || i < f) implies #[trigger] s.subrange(
            i,
            i + pat.len() as int,
        ) != pat by {
            if i > 0 {
                assert(s.subrange(i, i + pat.len() as int) =~= t.subrange(
                    i - 1,
                    (i - 1) + pat.len() as int,
                ));
                assert(t.subrange(i - 1, (i - 1) + pat.len() as int) != pat);
            }
        }
    }
}

/// The candidate under the sysroot for a `/rustc/<hash>/...` reference:
/// the sysroot's source directory joined with everything after the hash
/// component.
pub open spec fn rustc_candidate(path: Seq<char>, sysroot: Seq<char>) -> Seq<char> {
    let after = path.subrange(7, path.len() as int);
    let k = scan_to(after, '/');
    sysroot + sysroot_sub() + after.subrange(k, after.len() as int)
}

/// The compiler's source tree as packaged on the other platform: a
/// temporary build directory that still holds a library directory.
pub open spec fn mac_applies(path: Seq<char>) -> bool {
    starts_with(path, mac_prefix()) && first_at(path, lib_segment()) >= 0
}

/// Its candidate: the sysroot's source directory joined with the path
/// from its first library segment on.
pub open spec fn mac_candidate(path: Seq<char>, sysroot: Seq<char>) -> Seq<char> {
    sysroot + sysroot_sub() + path.subrange(first_at(path, lib_segment()), path.len() as int)
}

/// A dependency-registry reference: a cargo (or .cargo) segment followed
/// by a registry segment.
pub open spec fn registry_applies(path: Seq<char>) -> bool {
    first_at(path, cargo_registry_seg()) >= 0 || first_at(path, dot_cargo_registry_seg()) >= 0
}

/// Where the registry part of the path begins: just past the earliest
/// cargo (or .cargo) segment that a registry segment follows.
pub open spec fn reg_from(path: Seq<char>) -> int {
    let a = first_at(path, cargo_registry_seg());
    let b = first_at(path, dot_cargo_registry_seg());
    if a >= 0 && b >= 0 {
        if a + 6 <= b + 7 {
            a + 6
        } else {
            b + 7
        }
    } else if a >= 0 {
        a + 6
    } else {
        b + 7
    }
}

/// The candidate under the home registry cache for a registry
/// reference: home, `/.cargo`, and everything from the registry part on.
pub open spec fn registry_candidate(path: Seq<char>, home: Seq<char>, from: int) -> Seq<char> {
    home + "/.cargo"@ + path.subrange(from, path.len() as int)
}

/// Decides what a resolved path is, given which probes succeeded: a path
/// that exists verbatim is returned unchanged, without consulting any
/// rewrite rule; otherwise the classification's candidate decides, and a
/// missing candidate is a configuration or environment error for the
/// compiler-tree and registry conventions respectively.
pub fn resolve_decision(
    path: &String,
    class: &PathClass,
    exists_orig: bool,
    exists_candidate: bool,
) -> (r: Resolution)
    ensures
        exists_orig ==> r is Found && r->Found_0@ == path@,
        !exists_orig ==> match class {
            PathClass::Verbatim => r is NotFound,
            PathClass::RustcStyle { candidate } => if exists_candidate {
                r is Found && r->Found_0@ == candidate@
            } else {
                r is MissingRustSrc
            },
            PathClass::Registry { candidate } => if exists_candidate {
                r is Found && r->Found_0@ == candidate@
            } else {
                r is RegistryMissing
            },
        },
{
    if exists_orig {
        return Resolution::Found(clone_str(path));
    }
    match class {
        PathClass::Verbatim => Resolution::NotFound,
        PathClass::RustcStyle { candidate } => {
            if exists_candidate {
                Resolution::Found(clone_str(candidate))
            } else {
                Resolution::MissingRustSrc
            }
        },
        PathClass::Registry { candidate } => {
            if exists_candidate {
                Resolution::Found(clone_str(candidate))
            } else {
                Resolution::RegistryMissing
            }
        },
    }
}

fn clone_str(s: &String) -> (r: String)
    ensures
        r@ == s@,
{
    s.clone()
}

/// Classifies a referenced path and computes its rewrite candidate: a
/// compiler source-tree reference (either convention) is rewritten
/// against the sysroot, else a registry reference against the home
/// registry cache, and anything else is left verbatim.  The class and
/// the candidate are both determined by the path alone.
pub fn classify_path(path: &str, sysroot: &str, home: &str) -> (r: PathClass)
    ensures
        match r {
            PathClass::RustcStyle { candidate } => (starts_with(path@, rustc_prefix())
                && candidate@ == rustc_candidate(path@, sysroot@)) || (!starts_with(
                path@,
                rustc_prefix(),
            ) && mac_applies(path@) && candidate@ == mac_candidate(path@, sysroot@)),
            PathClass::Registry { candidate } => !starts_with(path@, rustc_prefix())
                && !mac_applies(path@) && registry_applies(path@) && candidate@
                == registry_candidate(path@, home@, reg_from(path@)),
            PathClass::Verbatim => !starts_with(path@, rustc_prefix()) && !mac_applies(path@)
                && !registry_applies(path@),
        },
{
    let chars = str_to_chars(path);
    let n = chars.len();
    proof {
        reveal_strlit("/rustc/");
        reveal_strlit("/private/tmp");
        reveal_strlit("/cargo/registry");
        reveal_strlit("/.cargo/registry");
        reveal_strlit("/library/");
    }
    if crate::text::str_has_prefix(path, "/rustc/") {
        // everything after the hash component, joined under the sysroot
        let after_start: usize = 7;
        let k = scan_to_from(&chars, after_start, '/');
        let mut v: Vec<char> = Vec::new();
        crate::text::append_str_chars(&mut v, sysroot);
        crate::text::append_str_chars(&mut v, "/lib/rustlib/src/rust");
        let tail = crate::text::copy_range(&chars, after_start + k, n);
        crate::text::append_chars(&mut v, &tail);
        proof {
            reveal_strlit("/lib/rustlib/src/rust");
            let after = path@.subrange(7, path@.len() as int);
            assert(after =~= chars@.subrange(7, n as int));
            assert(scan_to(after, '/') == k);
            assert(tail@ =~= after.subrange(k as int, after.len() as int));
            assert(v@ =~= rustc_candidate(path@, sysroot@));
        }
        return PathClass::RustcStyle { candidate: chars_to_string(&v) };
    }
    let has_mac_prefix = crate::text::str_has_prefix(path, "/private/tmp");
    if has_mac_prefix {
        match find_sub(&chars, "/library/") {
            Option::Some(p) => {
                let mut v: Vec<char> = Vec::new();
                crate::text::append_str_chars(&mut v, sysroot);
                crate::text::append_str_chars(&mut v, "/lib/rustlib/src/rust");
                let tail = crate::text::copy_range(&chars, p, n);
                crate::text::append_chars(&mut v, &tail);
                proof {
                    reveal_strlit("/lib/rustlib/src/rust");
                    assert(tail@ =~= path@.subrange(p as int, path@.len() as int));
                    assert(v@ =~= mac_candidate(path@, sysroot@));
                }
                return PathClass::RustcStyle { candidate: chars_to_string(&v) };
            },
            Option::None => {},
        }
    }
    let w1 = find_sub(&chars, "/cargo/registry");
    let w2 = find_sub(&chars, "/.cargo/registry");
    let from: Option<usize> = match (w1, w2) {
        (Option::Some(a), Option::Some(b)) => Option::Some(
            if a + 6 <= b + 7 {
                a + 6
            } else {
                b + 7
            },
        ),
        (Option::Some(a), Option::None) => Option::Some(a + 6),
        (Option::None, Option::Some(b)) => Option::Some(b + 7),
        (Option::None, Option::None) => Option::None,
    };
    match from {
        Option::Some(f) => {
            proof {
                assert(f + 9 <= n);
                assert(f as int == reg_from(path@));
            }
            let mut v: Vec<char> = Vec::new();
            crate::text::append_str_chars(&mut v, home);
            crate::text::append_str_chars(&mut v, "/.cargo");
            let tail = crate::text::copy_range(&chars, f, n);
            crate::text::append_chars(&mut v, &tail);
            proof {
                reveal_strlit("/.cargo");
                assert(tail@ =~= path@.subrange(f as int, path@.len() as int));
                assert(v@ =~= registry_candidate(path@, home@, f as int));
            }
            PathClass::Registry { candidate: chars_to_string(&v) }
        },
        Option::None => PathClass::Verbatim,
    }
}

/// Position of the first occurrence of `pat` in `v`, if any.
fn find_sub(v: &Vec<char>, pat: &str) -> (r: Option<usize>)
    requires
        pat@.len() >= 1,
    ensures
        match r {
            Option::Some(p) => p as int == first_at(v@, pat@) && p + pat@.len() <= v@.len()
                && v@.subrange(p as int, p + pat@.len() as int) == pat@,
            Option::None => first_at(v@, pat@) == -1,
        },
{
    let m = pat.unicode_len();
    let n = v.len();
    proof {
        lemma_first_at(v@, pat@);
    }
    if m > n {
        return Option::None;
    }
    let mut i: usize = 0;
    while i <= n - m
        invariant
            1 <= m <= n == v@.len(),
            m == pat@.len(),
            i <= n - m + 1,
            forall|q: int|
                0 <= q < i ==> #[trigger] v@.subrange(q, q + pat@.len() as int) != pat@,
        decreases n - m + 1 - i,
    {
        let mut k: usize = 0;
        let mut ok = true;
        while k < m && ok
            invariant
                k <= m,
                i + m <= n,
                m == pat@.len(),
                n == v@.len(),
                ok ==> forall|q: int| 0 <= q < k ==> v@[i + q] == pat@[q],
                !ok ==> k < m && v@[i + k as int] != pat@[k as int],
            decreases m - k + (if ok {
                1int
            } else {
                0int
            }),
        {
            if v[i + k] != pat.get_char(k) {
                ok = false;
            } else {
                k = k + 1;
            }
        }
        if ok {
            proof {
                assert(v@.subrange(i as int, i + m) =~= pat@);
                lemma_first_at(v@, pat@);
                let f = first_at(v@, pat@);
                assert(f == i as int) by {
                    if f == -1 || f > i as int {
                        assert(v@.subrange(i as int, i as int + pat@.len() as int) != pat@);
                    }
                    if 0 <= f < i as int {
                        assert(v@.subrange(f, f + pat@.len() as int) != pat@);
                        assert(v@.subrange(f, f + pat@.len() as int) == pat@);
                    }
                }
            }
            return Option::Some(i);
        }
        proof {
            assert(v@.subrange(i as int, i + m)[k as int] == v@[i + k as int]);
            assert(v@.subrange(i as int, i as int + pat@.len() as int) != pat@);
        }
        i = i + 1;
    }
    proof {
        lemma_first_at(v@, pat@);
        let f = first_at(v@, pat@);
        if f >= 0 {
            assert(v@.subrange(f, f + pat@.len() as int) != pat@);
            assert(v@.subrange(f, f + pat@.len() as int) == pat@);
        }
    }
    Option::None
}

} // verus!
