//! Parsing of the HTTP request line and resolution of its target.
//!
//! Only the first line of a request matters: its second whitespace-separated
//! field is the request-target. The target is percent-decoded and resolved to
//! root-relative segments; a malformed request line yields no target at all.
use vstd::prelude::*;
use crate::paths::{normalize_segments, resolve_chars, split_segments, views_of};

verus! {

/// Whitespace separating request-line fields.
pub open spec fn is_ws(c: char) -> bool {
    c == ' ' || c == '\t' || c == '\r'
}

/// Index of the first newline at or after `i`, or the length if none.
pub open spec fn line_end(s: Seq<char>, i: int) -> int
    decreases s.len() - i,
{
    if 0 <= i < s.len() {
        if s[i] == '\n' {
            i
        } else {
            line_end(s, i + 1)
        }
    } else {
        i
    }
}

/// Index of the first non-whitespace character at or after `i`, or the length.
pub open spec fn skip_ws(s: Seq<char>, i: int) -> int
    decreases s.len() - i,
{
    if 0 <= i < s.len() {
        if is_ws(s[i]) {
            skip_ws(s, i + 1)
        } else {
            i
        }
    } else {
        i
    }
}

/// Index of the first whitespace character at or after `i`, or the length.
pub open spec fn skip_tok(s: Seq<char>, i: int) -> int
    decreases s.len() - i,
{
    if 0 <= i < s.len() {
        if !is_ws(s[i]) {
            skip_tok(s, i + 1)
        } else {
            i
        }
    } else {
        i
    }
}

/// The request-target: the second whitespace-separated field of the first
/// line, or `None` when the line has no second field.
pub open spec fn target_of(s: Seq<char>) -> Option<Seq<char>> {
    let l = s.take(line_end(s, 0));
    let a = skip_ws(l, 0);
    let b = skip_tok(l, a);
    let c = skip_ws(l, b);
    let d = skip_tok(l, c);
    if c < l.len() {
        Some(l.subrange(c, d))
    } else {
        None
    }
}

/// First non-whitespace position at or after `start`.
fn scan_ws(l: &str, start: usize) -> (r: usize)
    requires
        start <= l@.len(),
    ensures
        r == skip_ws(l@, start as int),
        start <= r <= l@.len(),
{
    let n = l.unicode_len();
    let mut j: usize = start;
    while j < n
        invariant
            n == l@.len(),
            start <= j <= n,
            skip_ws(l@, start as int) == skip_ws(l@, j as int),
        ensures
            j == skip_ws(l@, start as int),
            start <= j <= n,
        decreases n - j,
    {
        let c = l.get_char(j);
        if !(c == ' ' || c == '\t' || c == '\r') {
            break;
        }
        j = j + 1;
    }
    j
}

/// First whitespace position at or after `start`.
fn scan_tok(l: &str, start: usize) -> (r: usize)
    requires
        start <= l@.len(),
    ensures
        r == skip_tok(l@, start as int),
        start <= r <= l@.len(),
{
    let n = l.unicode_len();
    let mut j: usize = start;
    while j < n
        invariant
            n == l@.len(),
            start <= j <= n,
            skip_tok(l@, start as int) == skip_tok(l@, j as int),
        ensures
            j == skip_tok(l@, start as int),
            start <= j <= n,
        decreases n - j,
    {
        let c = l.get_char(j);
        if c == ' ' || c == '\t' || c == '\r' {
            break;
        }
        j = j + 1;
    }
    j
}

/// Extract the request-target from the raw request text.
pub fn request_target(req: &str) -> (r: Option<String>)
    ensures
        match r {
            Some(t) => target_of(req@) == Some(t@),
            None => target_of(req@) is None,
        },
{
    let n = req.unicode_len();
    let mut e: usize = 0;
    while e < n
        invariant
            n == req@.len(),
            e <= n,
            line_end(req@, 0) == line_end(req@, e as int),
        ensures
            e <= n,
            e == line_end(req@, 0),
        decreases n - e,
    {
        if req.get_char(e) == '\n' {
            break;
        }
        e = e + 1;
    }
    let l = req.substring_char(0, e);
    proof {
        assert(l@ =~= req@.take(line_end(req@, 0)));
    }
    let a = scan_ws(l, 0);
    let b = scan_tok(l, a);
    let c = scan_ws(l, b);
    let d = scan_tok(l, c);
    if c < l.unicode_len() {
        let t = String::from_str(l.substring_char(c, d));
        Some(t)
    } else {
        None
    }
}

/// What `url_escape::decode` returns for given characters; the result is a
/// function of the input alone.
pub uninterp spec fn decoded_of(s: Seq<char>) -> Seq<char>;

/// Relies on `url_escape::decode`: percent-decoding with lossy UTF-8 — a pure
/// function of its input; malformed escapes pass through unchanged.
#[verifier::external_body]
fn decode_percent(s: &str) -> (r: String)
    ensures
        r@ == decoded_of(s@),
{
    url_escape::decode(s).to_string()
}

/// The root-relative segments a raw request-target resolves to.
pub open spec fn resolved_target(target: Seq<char>) -> Seq<Seq<char>> {
    resolve_chars(decoded_of(target))
}

/// Percent-decode the request-target and resolve it under the root.
pub fn resolve_target(target: &str) -> (r: Vec<String>)
    ensures
        views_of(r@) == resolved_target(target@),
{
    let d = decode_percent(target);
    let segs = split_segments(d.as_str());
    normalize_segments(segs)
}

/// Parse the request and resolve its target; `None` for a request whose first
/// line has no second field.
pub fn parse_and_resolve(req: &str) -> (r: Option<Vec<String>>)
    ensures
        match r {
            Some(v) => target_of(req@) matches Some(t) && views_of(v@) == resolved_target(t),
            None => target_of(req@) is None,
        },
{
    match request_target(req) {
        Some(t) => Some(resolve_target(t.as_str())),
        None => None,
    }
}

} // verus!
