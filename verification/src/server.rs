//! Dispatch: the response for what the filesystem found at a resolved path.
//!
//! The caller probes the filesystem and hands over what it found — a
//! directory's immediate children, a file's full contents, or one of the
//! failure outcomes — and receives the complete response to write back.
use vstd::prelude::*;
use vstd::string::StringSliceAdditionalSpecFns;
use vstd::utf8::encode_utf8;
use crate::classify::{classify, ctype_of};
use crate::listing::{entry_leq, entry_views, listing_html, render_listing, DirEntry};
use crate::paths::views_of;
use crate::response::{
    head_chars, internal_error_response, not_found_response, ok_response, HttpResponse,
};

verus! {

/// What the filesystem said about the resolved path, with the data the
/// response needs.
pub enum Resource {
    /// An existing directory, with its immediate children (any order).
    Directory(Vec<DirEntry>),
    /// An existing file whose contents were read in full.
    FileContents(Vec<u8>),
    /// A file that could not be opened.
    OpenFailed,
    /// A file that was opened but could not be read.
    ReadFailed,
    /// Neither a directory nor a regular file.
    Missing,
}

/// The file name a resolved path addresses: its last segment, or nothing at
/// the root.
pub open spec fn last_name(rel: Seq<Seq<char>>) -> Seq<char> {
    if rel.len() == 0 {
        Seq::<char>::empty()
    } else {
        rel.last()
    }
}

/// The listing response for the directory at `rel` under `root`.
pub fn directory_response(root: &str, rel: &Vec<String>, entries: Vec<DirEntry>) -> (r:
    HttpResponse)
    ensures
        r.body@ == encode_utf8(
            listing_html(root@, views_of(rel@), entry_views(entries@).sort_by(entry_leq())),
        ),
        r.head@ == head_chars("200 OK"@, Some("text/html"@), r.body@.len() as nat),
        r.wf(),
{
    let html = render_listing(root, rel, entries);
    let body = html.as_str().as_bytes_vec();
    ok_response("text/html", body)
}

/// The response for the file called `name` whose full contents are `content`.
pub fn file_response(name: &str, content: Vec<u8>) -> (r: HttpResponse)
    ensures
        r.body@ == content@,
        r.head@ == head_chars("200 OK"@, Some(ctype_of(name@, content@)), content@.len() as nat),
        r.wf(),
{
    let (ctype, _is_text) = classify(name, &content);
    ok_response(ctype.as_str(), content)
}

/// The response for a resolved path, given what the filesystem found there:
/// a listing for a directory, the exact bytes for a readable file, `404` for
/// anything missing or unopenable, `500` for a file that failed mid-read.
pub fn response_for(root: &str, rel: &Vec<String>, res: Resource) -> (r: HttpResponse)
    ensures
        r.wf(),
        match res {
            Resource::Directory(entries) => r.body@ == encode_utf8(
                listing_html(root@, views_of(rel@), entry_views(entries@).sort_by(entry_leq())),
            ) && r.head@ == head_chars("200 OK"@, Some("text/html"@), r.body@.len() as nat),
            Resource::FileContents(content) => r.body@ == content@ && r.head@ == head_chars(
                "200 OK"@,
                Some(ctype_of(last_name(views_of(rel@)), content@)),
                content@.len() as nat,
            ),
            Resource::OpenFailed => r.body@ == Seq::<u8>::empty() && r.head@ == head_chars(
                "404 NOT FOUND"@,
                None::<Seq<char>>,
                0,
            ),
            Resource::ReadFailed => r.body@ == "Unable to read file".spec_bytes() && r.head@
                == head_chars(
                "500 INTERNAL SERVER ERROR"@,
                Some("text/plain"@),
                r.body@.len() as nat,
            ),
            Resource::Missing => r.body@ == Seq::<u8>::empty() && r.head@ == head_chars(
                "404 NOT FOUND"@,
                None::<Seq<char>>,
                0,
            ),
        },
{
    match res {
        Resource::Directory(entries) => directory_response(root, rel, entries),
        Resource::FileContents(content) => {
            if rel.len() > 0 {
                let name = &rel[rel.len() - 1];
                proof {
                    assert(name@ == last_name(views_of(rel@)));
                }
                file_response(name.as_str(), content)
            } else {
                proof {
                    reveal_strlit("");
                    assert(""@ =~= last_name(views_of(rel@)));
                }
                file_response("", content)
            }
        },
        Resource::OpenFailed => not_found_response(),
        Resource::ReadFailed => internal_error_response(),
        Resource::Missing => not_found_response(),
    }
}

} // verus!
