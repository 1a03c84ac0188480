//! Content classification: a `Content-Type` for a file, from its bytes and
//! its name.
//!
//! Sniffing of the bytes comes first; a file whose extension is in the
//! forced-text allow-list (`rs`, `toml`, `lock`) reports `text/plain` no
//! matter what its bytes sniff as, so that it renders as text in a browser.
use vstd::prelude::*;

verus! {

/// Index of the last `.` at or before `i`, or `-1` if there is none.
pub open spec fn rfind_dot(s: Seq<char>, i: int) -> int
    decreases i + 1,
{
    if i < 0 {
        -1
    } else if s[i] == '.' {
        i
    } else {
        rfind_dot(s, i - 1)
    }
}

/// The extension of a file name: the part after the last `.`, provided that
/// dot is neither absent nor leading.
pub open spec fn ext_of(name: Seq<char>) -> Option<Seq<char>> {
    let j = rfind_dot(name, name.len() - 1);
    if j <= 0 {
        None
    } else {
        Some(name.subrange(j + 1, name.len() as int))
    }
}

/// Extensions whose files are always reported as plain text.
pub open spec fn forced_text(name: Seq<char>) -> bool {
    ||| ext_of(name) == Some("rs"@)
    ||| ext_of(name) == Some("toml"@)
    ||| ext_of(name) == Some("lock"@)
}

/// What sniffing the given bytes yields; the result is a function of the
/// bytes alone.
pub uninterp spec fn sniffed_mime(bytes: Seq<u8>) -> Option<Seq<char>>;

/// Relies on `infer::get` and `infer::Type::mime_type`: magic-number sniffing
/// of the leading bytes, yielding a static MIME string — a pure function of
/// the bytes alone.
#[verifier::external_body]
fn sniff_mime(content: &Vec<u8>) -> (r: Option<String>)
    ensures
        match r {
            Some(m) => sniffed_mime(content@) == Some(m@),
            None => sniffed_mime(content@) is None,
        },
{
    match infer::get(content.as_slice()) {
        Some(t) => Some(t.mime_type().to_string()),
        None => None,
    }
}

/// The sniffed MIME type, defaulting to `text/plain` when nothing matches.
pub open spec fn mime_of(bytes: Seq<u8>) -> Seq<char> {
    match sniffed_mime(bytes) {
        Some(m) => m,
        None => "text/plain"@,
    }
}

/// Does the MIME type start with `text/`?
pub open spec fn starts_with_text(m: Seq<char>) -> bool {
    m.len() >= 5 && m.subrange(0, 5) == "text/"@
}

/// MIME types displayed inline rather than downloaded.
pub open spec fn inline_mime(m: Seq<char>) -> bool {
    ||| starts_with_text(m)
    ||| m == "application/json"@
    ||| m == "image/jpeg"@
    ||| m == "image/png"@
    ||| m == "image/gif"@
    ||| m == "application/pdf"@
}

/// The `Content-Type` reported for a file: `text/plain` for forced-text
/// extensions, the sniffed type (default `text/plain`) otherwise.
pub open spec fn ctype_of(name: Seq<char>, bytes: Seq<u8>) -> Seq<char> {
    if forced_text(name) {
        "text/plain"@
    } else {
        mime_of(bytes)
    }
}

/// The inline-displayable signal: text-like MIME or forced-text extension.
pub open spec fn is_text_of(name: Seq<char>, bytes: Seq<u8>) -> bool {
    inline_mime(mime_of(bytes)) || forced_text(name)
}

/// A forced-text extension always yields `text/plain`, whatever the bytes
/// sniff as.
pub proof fn lemma_forced_text_overrides(name: Seq<char>, bytes: Seq<u8>)
    requires
        forced_text(name),
    ensures
        ctype_of(name, bytes) == "text/plain"@,
{
}

/// Character-for-character equality of two string slices.
pub fn str_eq(a: &str, b: &str) -> (r: bool)
    ensures
        r == (a@ == b@),
{
    let sa = String::from_str(a);
    let sb = String::from_str(b);
    sa == sb
}

/// The extension of a file name, if any.
pub fn extension(name: &str) -> (r: Option<String>)
    ensures
        match r {
            Some(e) => ext_of(name@) == Some(e@),
            None => ext_of(name@) is None,
        },
{
    let n = name.unicode_len();
    let mut j: usize = n;
    while j > 0
        invariant
            n == name@.len(),
            j <= n,
            rfind_dot(name@, n as int - 1) == rfind_dot(name@, j as int - 1),
        ensures
            j <= n,
            rfind_dot(name@, n as int - 1) == j as int - 1,
        decreases j,
    {
        if name.get_char(j - 1) == '.' {
            break;
        }
        j = j - 1;
    }
    if j <= 1 {
        None
    } else {
        Some(String::from_str(name.substring_char(j, n)))
    }
}

/// Is the name's extension in the forced-text allow-list?
pub fn has_forced_text_ext(name: &str) -> (r: bool)
    ensures
        r == forced_text(name@),
{
    match extension(name) {
        Some(e) => {
            str_eq(e.as_str(), "rs") || str_eq(e.as_str(), "toml") || str_eq(e.as_str(), "lock")
        },
        None => false,
    }
}

/// Does the MIME string start with `text/`?
fn mime_starts_text(m: &String) -> (r: bool)
    ensures
        r == starts_with_text(m@),
{
    if m.as_str().unicode_len() >= 5 {
        let p = m.as_str().substring_char(0, 5);
        str_eq(p, "text/")
    } else {
        false
    }
}

/// Classify a file: the `Content-Type` to report and the inline-displayable
/// signal, from the file's name and its full contents.
pub fn classify(name: &str, content: &Vec<u8>) -> (r: (String, bool))
    ensures
        r.0@ == ctype_of(name@, content@),
        r.1 == is_text_of(name@, content@),
{
    let forced = has_forced_text_ext(name);
    let mime: String = match sniff_mime(content) {
        Some(m) => m,
        None => String::from_str("text/plain"),
    };
    let inline = mime_starts_text(&mime) || str_eq(mime.as_str(), "application/json") || str_eq(
        mime.as_str(),
        "image/jpeg",
    ) || str_eq(mime.as_str(), "image/png") || str_eq(mime.as_str(), "image/gif") || str_eq(
        mime.as_str(),
        "application/pdf",
    );
    let is_text = inline || forced;
    let ctype = if forced {
        String::from_str("text/plain")
    } else {
        mime
    };
    (ctype, is_text)
}

} // verus!
