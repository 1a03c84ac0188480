//! HTTP response assembly: status line, headers and body.
//!
//! Every head produced here carries a `Content-Length` that equals the exact
//! byte length of the body it is paired with: the constructors state this in
//! their `ensures`, through `head_chars` applied to the body's length.
use vstd::prelude::*;
use vstd::string::StringSliceAdditionalSpecFns;
use crate::numfmt::{dec_chars, dec_string};

verus! {

/// The characters of a response head: status line, optional `Content-Type`,
/// `Content-Length: <len>`, and the blank line that ends the head.
pub open spec fn head_chars(status: Seq<char>, ctype: Option<Seq<char>>, len: nat) -> Seq<char> {
    "HTTP/1.1 "@ + status + (match ctype {
        Some(t) => "\r\nContent-Type: "@ + t,
        None => Seq::<char>::empty(),
    }) + "\r\nContent-Length: "@ + dec_chars(len) + "\r\n\r\n"@
}

/// A complete response: the textual head, then the raw body bytes.
/// The wire image of the response is the head's bytes followed by `body`.
pub struct HttpResponse {
    pub head: String,
    pub body: Vec<u8>,
}

impl HttpResponse {
    /// The head announces exactly the byte length of the body that follows it.
    pub open spec fn wf(self) -> bool {
        exists|status: Seq<char>, ctype: Option<Seq<char>>|
            self.head@ == head_chars(status, ctype, self.body@.len() as nat)
    }
}

/// Build a head for the given status, optional content type, and body length.
fn build_head(status: &str, ctype: Option<&str>, len: usize) -> (r: String)
    ensures
        r@ == head_chars(
            status@,
            match ctype {
                Some(t) => Some(t@),
                None => None,
            },
            len as nat,
        ),
{
    let mut h = String::from_str("HTTP/1.1 ");
    h.append(status);
    match ctype {
        Some(t) => {
            h.append("\r\nContent-Type: ");
            h.append(t);
        },
        None => {},
    }
    h.append("\r\nContent-Length: ");
    let d = dec_string(len);
    h.append(d.as_str());
    h.append("\r\n\r\n");
    h
}

/// A `200 OK` response with the given content type and body.
pub fn ok_response(ctype: &str, body: Vec<u8>) -> (r: HttpResponse)
    ensures
        r.body@ == body@,
        r.head@ == head_chars("200 OK"@, Some(ctype@), r.body@.len() as nat),
        r.wf(),
{
    let head = build_head("200 OK", Some(ctype), body.len());
    HttpResponse { head, body }
}

/// A `404 NOT FOUND` response with an empty body.
pub fn not_found_response() -> (r: HttpResponse)
    ensures
        r.body@ == Seq::<u8>::empty(),
        r.head@ == head_chars("404 NOT FOUND"@, None::<Seq<char>>, 0),
        r.wf(),
{
    let body: Vec<u8> = Vec::new();
    let head = build_head("404 NOT FOUND", None, body.len());
    assert(body@ =~= Seq::<u8>::empty());
    let r = HttpResponse { head, body };
    assert(r.head@ == head_chars("404 NOT FOUND"@, None::<Seq<char>>, r.body@.len() as nat));
    r
}

/// A `500 INTERNAL SERVER ERROR` response with a short plain-text body.
pub fn internal_error_response() -> (r: HttpResponse)
    ensures
        r.body@ == "Unable to read file".spec_bytes(),
        r.head@ == head_chars(
            "500 INTERNAL SERVER ERROR"@,
            Some("text/plain"@),
            r.body@.len() as nat,
        ),
        r.wf(),
{
    let body: Vec<u8> = "Unable to read file".as_bytes_vec();
    let head = build_head("500 INTERNAL SERVER ERROR", Some("text/plain"), body.len());
    HttpResponse { head, body }
}

} // verus!
