//! The pure core of the render-service protocol: the derived socket
//! address, the wire-format reader for one request line, and the decision
//! of what to answer.  The request/response protocol is line-oriented:
//! `Request: <index>` asks for the item at that position in enumeration
//! order, `Stop` ends the server loop.

use vstd::prelude::*;

use crate::text::{
    chars_to_string, chars_to_u64, dec_str, dec_val, digit_run, is_digit, lemma_digit_run,
    str_to_chars, trim, trim_chars, u64_to_chars,
};
use crate::{ItemMap, StmtRange};

verus! {

/// The socket path (or, on platforms with a namespaced socket scheme,
/// the namespaced name) derived from the server's process id, so that
/// concurrent runs never collide.
pub open spec fn address_spec(pid: int, namespaced: bool) -> Seq<char> {
    if namespaced {
        "@cargo_show_asm.server"@ + dec_str(pid) + ".sock"@
    } else {
        "/tmp/cargo_show_asm/server"@ + dec_str(pid) + ".sock"@
    }
}

/// Builds the server address for a process id.
pub fn server_address(pid: u64, namespaced: bool) -> (r: String)
    ensures
        r@ == address_spec(pid as int, namespaced),
{
    let mut v: Vec<char> = Vec::new();
    if namespaced {
        crate::text::append_str_chars(&mut v, "@cargo_show_asm.server");
    } else {
        crate::text::append_str_chars(&mut v, "/tmp/cargo_show_asm/server");
    }
    let num = u64_to_chars(pid);
    crate::text::append_chars(&mut v, &num);
    crate::text::append_str_chars(&mut v, ".sock");
    proof {
        assert(v@ =~= address_spec(pid as int, namespaced));
    }
    chars_to_string(&v)
}

/// One request read from a connection.
#[derive(Clone, Copy, Debug, PartialEq, Eq, Structural)]
pub enum Request {
    /// finish the current connection and shut the server down
    Stop,
    /// render the item at this position in enumeration order
    Render { index: usize },
    /// anything else
    Malformed,
}

/// Position just after the first occurrence of `"Request: "`, or -1.
pub open spec fn request_payload_pos(s: Seq<char>) -> int
    decreases s.len(),
{
    if s.len() < 9 {
        -1
    } else if s.subrange(0, 9) == "Request: "@ {
        9
    } else {
        let r = request_payload_pos(s.subrange(1, s.len() as int));
        if r < 0 {
            -1
        } else {
            1 + r
        }
    }
}

/// The meaning of one request line, exactly as the server reads it: the
/// line `Stop` (with its newline) stops the server; otherwise the line is
/// trimmed, the text after the first `"Request: "` must be a decimal
/// index; anything else is malformed.
pub open spec fn request_spec(line: Seq<char>) -> Request {
    if line == "Stop\n"@ {
        Request::Stop
    } else {
        let t = trim(line);
        let p = request_payload_pos(t);
        if p < 0 {
            Request::Malformed
        } else {
            let num = t.subrange(p, t.len() as int);
            if num.len() > 0 && digit_run(num) == num.len() && dec_val(num) <= usize::MAX as int {
                Request::Render { index: dec_val(num) as usize }
            } else {
                Request::Malformed
            }
        }
    }
}

proof fn lemma_request_payload_pos(s: Seq<char>)
    ensures
        request_payload_pos(s) == -1 || 9 <= request_payload_pos(s) <= s.len(),
        request_payload_pos(s) >= 9 ==> s.subrange(
            request_payload_pos(s) - 9,
            request_payload_pos(s),
        ) == "Request: "@,
        forall|i: int|
            0 <= i && i + 9 <= s.len() && (request_payload_pos(s) == -1 || i + 9
                < request_payload_pos(s)) ==> #[trigger] s.subrange(i, i + 9) != "Request: "@,
    decreases s.len(),
{
    if s.len() >= 9 && s.subrange(0, 9) != "Request: "@ {
        let t = s.subrange(1, s.len() as int);
        lemma_request_payload_pos(t);
        let p = request_payload_pos(s);
        if p >= 9 {
            assert(s.subrange(p - 9, p) =~= t.subrange(p - 10, p - 1));
        }
        assert forall|i: int|
            0 <= i && i + 9 <= s.len() && (p == -1 || i + 9 < p) implies #[trigger] s.subrange(
            i,
            i + 9,
        ) != "Request: "@ by {
            if i > 0 {
                assert(s.subrange(i, i + 9) =~= t.subrange(i - 1, i + 8));
                assert(t.subrange(i - 1, (i - 1) + 9) != "Request: "@);
            }
        }
    }
}

/// Reads one request line.
pub fn parse_request(line: &str) -> (r: Request)
    ensures
        r == request_spec(line@),
{
    let stop = "Stop\n";
    if crate::text::str_has_prefix(line, stop) && line.unicode_len() == 5 {
        proof {
            reveal_strlit("Stop\n");
            assert(line@.subrange(0, 5) =~= line@);
        }
        return Request::Stop;
    }
    proof {
        reveal_strlit("Stop\n");
        if line@ == "Stop\n"@ {
            assert(line@.len() == 5);
            assert(line@.subrange(0, 5) =~= line@);
        }
    }
    let chars = str_to_chars(line);
    let t = trim_chars(&chars);
    let n = t.len();
    let ghost req = "Request: "@;
    let patv = str_to_chars("Request: ");
    proof {
        reveal_strlit("Request: ");
        assert(patv@ =~= req);
        assert(req.len() == 9);
    }
    let mut i: usize = 0;
    let mut found = false;
    while !found && n >= 9 && i <= n - 9
        invariant
            i <= n + 1,
            n == t@.len(),
            req == "Request: "@,
            req.len() == 9,
            patv@ == req,
            forall|q: int| 0 <= q < i && q + 9 <= n ==> #[trigger] t@.subrange(q, q + 9) != req,
            found ==> i + 9 <= n && t@.subrange(i as int, i + 9) == req,
        decreases n + 1 - i + (if found {
            0int
        } else {
            1int
        }),
    {
        let mut k: usize = 0;
        let mut ok = true;
        while k < 9 && ok
            invariant
                k <= 9,
                i + 9 <= n == t@.len(),
                patv@ == req,
                req.len() == 9,
                ok ==> forall|q: int| 0 <= q < k ==> t@[i + q] == req[q],
                !ok ==> k < 9 && t@[i + k as int] != req[k as int],
            decreases 9 - k + (if ok {
                1int
            } else {
                0int
            }),
        {
            if t[i + k] != patv[k] {
                ok = false;
            } else {
                k = k + 1;
            }
        }
        if ok {
            proof {
                assert(t@.subrange(i as int, i + 9) =~= req);
            }
            found = true;
        } else {
            proof {
                assert(t@.subrange(i as int, i + 9)[k as int] == t@[i + k as int]);
                assert(t@.subrange(i as int, i + 9) != req);
            }
            i = i + 1;
        }
    }
    proof {
        lemma_request_payload_pos(t@);
        if found {
            assert(request_payload_pos(t@) != -1) by {
                if request_payload_pos(t@) == -1 {
                    assert(t@.subrange(i as int, i + 9) != req);
                }
            }
            assert(request_payload_pos(t@) == i + 9) by {
                let p = request_payload_pos(t@);
                if p < i + 9 {
                    let q0 = p - 9;
                    assert(t@.subrange(p - 9, p) == req);
                    assert(t@.subrange(q0, q0 + 9) == t@.subrange(p - 9, p));
                    assert(t@.subrange(q0, q0 + 9) != req);
                }
                if p > i + 9 {
                    assert(t@.subrange(i as int, i + 9) != req);
                }
            }
        } else {
            assert(request_payload_pos(t@) == -1) by {
                let p = request_payload_pos(t@);
                if p >= 9 {
                    let q0 = p - 9;
                    assert(t@.subrange(p - 9, p) == req);
                    assert(t@.subrange(q0, q0 + 9) == t@.subrange(p - 9, p));
                    assert(t@.subrange(q0, q0 + 9) != req);
                }
            }
        }
    }
    if !found {
        return Request::Malformed;
    }
    let start = i + 9;
    let ghost sub = t@.subrange(start as int, n as int);
    if start == n {
        proof {
            assert(sub.len() == 0);
        }
        return Request::Malformed;
    }
    let dr = crate::text::digit_run_from(&t, start);
    let all_digits = dr >= n - start;
    proof {
        lemma_digit_run(sub);
        if all_digits {
            assert(digit_run(sub) == sub.len());
        } else {
            assert(!is_digit(sub[digit_run(sub)]));
            assert(digit_run(sub) != sub.len());
        }
    }
    if !all_digits {
        return Request::Malformed;
    }
    proof {
        assert forall|q: int| start <= q < n implies is_digit(t@[q]) by {
            assert(sub[q - start] == t@[q]);
        }
    }
    match chars_to_u64(&t, start, n) {
        Option::Some(x) => {
            if x <= usize::MAX as u64 {
                Request::Render { index: x as usize }
            } else {
                Request::Malformed
            }
        },
        Option::None => Request::Malformed,
    }
}

/// What the server answers on one connection.
pub enum Reply {
    /// finish and shut down, sending nothing
    Stop,
    /// render and send this statement range
    Dump(StmtRange),
    /// send this error line and keep serving
    ErrorLine(String),
}

/// The error line for a malformed request.
pub open spec fn malformed_msg() -> Seq<char> {
    "Error: Malformed Message Expected:\nRequest: idx\n"@
}

/// The error line for an index that no item has.
pub open spec fn bad_index_msg(index: int) -> Seq<char> {
    "Error: the requested index "@ + dec_str(index) + " is not found\n"@
}

/// Decides the reply to one request line against the item map: a request
/// for a held index yields that item's range; an out-of-range index or a
/// malformed line yields an error line and never a crash; `Stop` ends
/// the loop.
pub fn respond(line: &str, items: &ItemMap) -> (r: Reply)
    ensures
        request_spec(line@) == Request::Stop ==> r is Stop,
        (forall|i: usize| request_spec(line@) != (Request::Render { index: i }))
            && request_spec(line@) != Request::Stop ==> r is ErrorLine && r->ErrorLine_0@
            == malformed_msg(),
        forall|i: usize|
            request_spec(line@) == (Request::Render { index: i }) ==> if (i as int) < items@.len() {
                r == Reply::Dump(
                    StmtRange {
                        start: items@[i as int].1.0 as usize,
                        end: items@[i as int].1.1 as usize,
                    },
                )
            } else {
                r is ErrorLine && r->ErrorLine_0@ == bad_index_msg(i as int)
            },
{
    match parse_request(line) {
        Request::Stop => Reply::Stop,
        Request::Malformed => {
            let mut v: Vec<char> = Vec::new();
            crate::text::append_str_chars(
                &mut v,
                "Error: Malformed Message Expected:\nRequest: idx\n",
            );
            proof {
                assert(v@ =~= malformed_msg());
            }
            Reply::ErrorLine(chars_to_string(&v))
        },
        Request::Render { index } => {
            match items.nth_range(index) {
                Option::Some(sp) => Reply::Dump(sp),
                Option::None => {
                    let mut v: Vec<char> = Vec::new();
                    crate::text::append_str_chars(&mut v, "Error: the requested index ");
                    let num = u64_to_chars(index as u64);
                    crate::text::append_chars(&mut v, &num);
                    crate::text::append_str_chars(&mut v, " is not found\n");
                    proof {
                        assert(v@ =~= bad_index_msg(index as int));
                    }
                    Reply::ErrorLine(chars_to_string(&v))
                },
            }
        },
    }
}

} // verus!
