//! Directory listings rendered as a complete HTML document.
//!
//! Entries are sorted by name, so the rendered page is a function of the set
//! of entries alone: two enumerations of an unchanged directory render
//! byte-identical HTML, whatever order the filesystem handed them out in.
use vstd::prelude::*;
use vstd::multiset::Multiset;
use vstd::relations::{sorted_by, strongly_connected, total_ordering, transitive};
use vstd::seq_lib::lemma_sorted_unique;
use crate::classify::str_eq;
use crate::paths::{join_slash, join_segments, views_of};

verus! {

/// One immediate child of the listed directory.
pub struct DirEntry {
    pub name: String,
    pub is_dir: bool,
}

/// The mathematical value of an entry: its name and whether it is a directory.
pub open spec fn entry_view(e: DirEntry) -> (Seq<char>, bool) {
    (e.name@, e.is_dir)
}

/// The values of a sequence of entries.
pub open spec fn entry_views(es: Seq<DirEntry>) -> Seq<(Seq<char>, bool)> {
    es.map_values(|e: DirEntry| entry_view(e))
}

/// Lexicographic order on names, by code point.
pub open spec fn lex_le(a: Seq<char>, b: Seq<char>) -> bool
    decreases a.len(),
{
    if a.len() == 0 {
        true
    } else if b.len() == 0 {
        false
    } else if a[0] != b[0] {
        (a[0] as u32) < (b[0] as u32)
    } else {
        lex_le(a.drop_first(), b.drop_first())
    }
}

/// Order on entry values: by name; on a name tie, directories first.
pub open spec fn entry_le(a: (Seq<char>, bool), b: (Seq<char>, bool)) -> bool {
    if a.0 == b.0 {
        a.1 ==> b.1
    } else {
        lex_le(a.0, b.0)
    }
}

/// The entry order as a relation value.
pub open spec fn entry_leq() -> spec_fn((Seq<char>, bool), (Seq<char>, bool)) -> bool {
    |a: (Seq<char>, bool), b: (Seq<char>, bool)| entry_le(a, b)
}

proof fn lemma_lex_le_total(a: Seq<char>, b: Seq<char>)
    ensures
        lex_le(a, b) || lex_le(b, a),
    decreases a.len(),
{
    if a.len() > 0 && b.len() > 0 {
        if a[0] == b[0] {
            lemma_lex_le_total(a.drop_first(), b.drop_first());
        } else {
            vstd::utf8::char_u32_cast(a[0], a[0] as u32);
            vstd::utf8::char_u32_cast(b[0], b[0] as u32);
            assert((a[0] as u32) != (b[0] as u32));
        }
    }
}

proof fn lemma_lex_le_antisym(a: Seq<char>, b: Seq<char>)
    requires
        lex_le(a, b),
        lex_le(b, a),
    ensures
        a == b,
    decreases a.len(),
{
    if a.len() == 0 {
        assert(b.len() == 0);
        assert(a =~= b);
    } else {
        assert(b.len() > 0);
        assert(a[0] == b[0]);
        lemma_lex_le_antisym(a.drop_first(), b.drop_first());
        assert(a.drop_first().len() == b.drop_first().len());
        assert(a.len() == b.len());
        assert forall|i: int| 0 <= i < a.len() implies a[i] == b[i] by {
            if i > 0 {
                assert(a[i] == a.drop_first()[i - 1]);
                assert(b[i] == b.drop_first()[i - 1]);
            }
        }
        assert(a =~= b);
    }
}

proof fn lemma_lex_le_trans(a: Seq<char>, b: Seq<char>, c: Seq<char>)
    requires
        lex_le(a, b),
        lex_le(b, c),
    ensures
        lex_le(a, c),
    decreases a.len(),
{
    if a.len() == 0 {
    } else {
        assert(b.len() > 0);
        assert(c.len() > 0);
        if a[0] == b[0] && b[0] == c[0] {
            lemma_lex_le_trans(a.drop_first(), b.drop_first(), c.drop_first());
        } else if a[0] == b[0] {
            assert(a[0] != c[0]);
        } else if b[0] == c[0] {
            assert(a[0] != c[0]);
        } else {
            assert((a[0] as u32) < (c[0] as u32));
            assert(a[0] != c[0]);
        }
    }
}

/// The entry order is a total ordering, as sorting requires.
pub proof fn lemma_entry_total()
    ensures
        total_ordering(entry_leq()),
{
    let r = entry_leq();
    assert forall|x: (Seq<char>, bool)| #[trigger] r(x, x) by {}
    assert forall|x: (Seq<char>, bool), y: (Seq<char>, bool)|
        #[trigger] r(x, y) && #[trigger] r(y, x) implies x == y by {
        if x.0 == y.0 {
        } else {
            lemma_lex_le_antisym(x.0, y.0);
        }
    }
    assert forall|x: (Seq<char>, bool), y: (Seq<char>, bool), z: (Seq<char>, bool)|
        #[trigger] r(x, y) && #[trigger] r(y, z) implies r(x, z) by {
        if x.0 == y.0 && y.0 == z.0 {
        } else if x.0 == y.0 {
        } else if y.0 == z.0 {
        } else {
            lemma_lex_le_trans(x.0, y.0, z.0);
            if x.0 == z.0 {
                lemma_lex_le_antisym(x.0, y.0);
            }
        }
    }
    assert forall|x: (Seq<char>, bool), y: (Seq<char>, bool)| #[trigger] r(x, y) || #[trigger] r(
        y,
        x,
    ) by {
        if x.0 == y.0 {
        } else {
            lemma_lex_le_total(x.0, y.0);
        }
    }
}

/// Is `a` ordered at or before `b`?
fn lex_le_exec(a: &str, b: &str) -> (r: bool)
    ensures
        r == lex_le(a@, b@),
{
    let la = a.unicode_len();
    let lb = b.unicode_len();
    let mut i: usize = 0;
    proof {
        assert(a@.skip(0) =~= a@);
        assert(b@.skip(0) =~= b@);
    }
    while i < la
        invariant
            la == a@.len(),
            lb == b@.len(),
            i <= la,
            i <= lb,
            lex_le(a@, b@) == lex_le(a@.skip(i as int), b@.skip(i as int)),
        decreases la - i,
    {
        if i >= lb {
            proof {
                assert(a@.skip(i as int).len() > 0);
                assert(b@.skip(i as int).len() == 0);
            }
            return false;
        }
        proof {
            assert(a@.skip(i as int).drop_first() =~= a@.skip(i as int + 1));
            assert(b@.skip(i as int).drop_first() =~= b@.skip(i as int + 1));
        }
        let ca = a.get_char(i);
        let cb = b.get_char(i);
        if ca != cb {
            return (ca as u32) < (cb as u32);
        }
        i = i + 1;
    }
    proof {
        assert(a@.skip(i as int).len() == 0);
    }
    true
}

/// Is entry `a` ordered at or before entry `b`?
fn entry_le_exec(a: &DirEntry, b: &DirEntry) -> (r: bool)
    ensures
        r == entry_le(entry_view(*a), entry_view(*b)),
{
    if str_eq(a.name.as_str(), b.name.as_str()) {
        !a.is_dir || b.is_dir
    } else {
        lex_le_exec(a.name.as_str(), b.name.as_str())
    }
}

/// Sort entries by name (directories first on a name tie). The result is the
/// canonical sorted arrangement of the input values.
pub fn sort_entries(v: Vec<DirEntry>) -> (r: Vec<DirEntry>)
    ensures
        entry_views(r@) == entry_views(v@).sort_by(entry_leq()),
{
    let ghost orig = entry_views(v@);
    proof {
        lemma_entry_total();
        orig.lemma_sort_by_ensures(entry_leq());
        broadcast use vstd::seq_lib::group_to_multiset_ensures;
        broadcast use vstd::multiset::group_multiset_axioms;

    }
    let mut src = v;
    let mut out: Vec<DirEntry> = Vec::new();
    proof {
        assert(entry_views(out@) =~= Seq::<(Seq<char>, bool)>::empty());
        assert(entry_views(out@).to_multiset().add(entry_views(src@).to_multiset())
            =~= orig.to_multiset());
    }
    while src.len() > 0
        invariant
            entry_views(out@).to_multiset().add(entry_views(src@).to_multiset())
                == orig.to_multiset(),
            sorted_by(entry_views(out@), entry_leq()),
            forall|i: int, j: int|
                0 <= i < entry_views(out@).len() && 0 <= j < entry_views(src@).len() ==> entry_le(
                    entry_views(out@)[i],
                    entry_views(src@)[j],
                ),
        decreases src@.len(),
    {
        let mut m: usize = 0;
        let mut k: usize = 1;
        while k < src.len()
            invariant
                src@.len() > 0,
                m < k,
                k <= src@.len(),
                forall|j: int|
                    0 <= j < k ==> entry_le(
                        entry_views(src@)[m as int],
                        #[trigger] entry_views(src@)[j],
                    ),
            decreases src@.len() - k,
        {
            proof {
                lemma_entry_total();
            }
            if entry_le_exec(&src[k], &src[m]) {
                proof {
                    let r = entry_leq();
                    let vs = entry_views(src@);
                    assert forall|j: int| 0 <= j < k + 1 implies entry_le(
                        vs[k as int],
                        #[trigger] vs[j],
                    ) by {
                        assert(transitive(r));
                        if j < k {
                            assert(r(vs[k as int], vs[m as int]));
                            assert(r(vs[m as int], vs[j]));
                            assert(r(vs[k as int], vs[j]));
                        } else {
                            assert(vstd::relations::reflexive(r));
                            assert(r(vs[j], vs[j]));
                        }
                    }
                }
                m = k;
            } else {
                proof {
                    let r = entry_leq();
                    let vs = entry_views(src@);
                    assert(strongly_connected(r));
                    assert(r(vs[k as int], vs[m as int]) || r(vs[m as int], vs[k as int]));
                    assert(entry_le(vs[m as int], vs[k as int]));
                }
            }
            k = k + 1;
        }
        let ghost pre_src = src@;
        let ghost pre_out = out@;
        let x = src.remove(m);
        out.push(x);
        proof {
            broadcast use vstd::seq_lib::group_to_multiset_ensures;
            broadcast use vstd::multiset::group_multiset_axioms;

            let xv = entry_view(pre_src[m as int]);
            assert(entry_views(src@) =~= entry_views(pre_src).remove(m as int));
            assert(entry_views(out@) =~= entry_views(pre_out).push(xv));
            assert(entry_views(pre_src)[m as int] == xv);
            assert(entry_views(src@).to_multiset() =~= entry_views(pre_src).to_multiset().remove(
                xv,
            ));
            assert(entry_views(out@).to_multiset() =~= entry_views(pre_out).to_multiset().insert(
                xv,
            ));
            assert(entry_views(pre_src).to_multiset().contains(xv));
            assert(entry_views(out@).to_multiset().add(entry_views(src@).to_multiset())
                =~= entry_views(pre_out).to_multiset().add(entry_views(pre_src).to_multiset()));
            assert forall|i: int, j: int|
                0 <= i < entry_views(out@).len() && 0 <= j < entry_views(src@).len() implies
                entry_le(entry_views(out@)[i], entry_views(src@)[j]) by {
                let vs = entry_views(pre_src);
                if j < m {
                    assert(entry_views(src@)[j] == vs[j]);
                } else {
                    assert(entry_views(src@)[j] == vs[j + 1]);
                }
                if i < entry_views(pre_out).len() {
                    assert(entry_views(out@)[i] == entry_views(pre_out)[i]);
                } else {
                    assert(entry_views(out@)[i] == xv);
                }
            }
            assert forall|i: int, j: int|
                0 <= i < j < entry_views(out@).len() implies entry_le(
                entry_views(out@)[i],
                entry_views(out@)[j],
            ) by {
                let po = entry_views(pre_out);
                if j < po.len() {
                    assert(sorted_by(po, entry_leq()));
                    assert(entry_leq()(po[i], po[j]));
                } else {
                    assert(entry_views(out@)[j] == xv);
                    assert(entry_views(pre_src)[m as int] == xv);
                    assert(entry_le(po[i], xv));
                }
            }
            assert(sorted_by(entry_views(out@), entry_leq()));
        }
    }
    proof {
        assert(entry_views(src@) =~= Seq::<(Seq<char>, bool)>::empty());
        assert(entry_views(src@).to_multiset() =~= Multiset::<(Seq<char>, bool)>::empty());
        assert(entry_views(out@).to_multiset() =~= orig.to_multiset());
        lemma_sorted_unique(entry_views(out@), orig.sort_by(entry_leq()), entry_leq());
        assert(entry_views(out@) =~= orig.sort_by(entry_leq()));
    }
    out
}

/// What `url_escape::encode_query` returns for given characters; the result
/// is a function of the input alone.
pub uninterp spec fn query_encoded_of(s: Seq<char>) -> Seq<char>;

/// Relies on `url_escape::encode_query`: percent-encodes the characters a
/// query component cannot carry — a pure function of its input.
#[verifier::external_body]
fn encode_query_str(s: &str) -> (r: String)
    ensures
        r@ == query_encoded_of(s@),
{
    url_escape::encode_query(s).to_string()
}

/// The icon shown before an entry.
pub open spec fn icon_chars(is_dir: bool) -> Seq<char> {
    if is_dir {
        "📁 "@
    } else {
        "📄 "@
    }
}

/// One list item: icon, a link to the entry's root-relative path
/// (query-encoded, with a leading `/`), and the literal name as link text.
pub open spec fn li_chars(rel: Seq<Seq<char>>, ev: (Seq<char>, bool)) -> Seq<char> {
    "<li>"@ + icon_chars(ev.1) + "<a href=\"/"@ + query_encoded_of(join_slash(rel.push(ev.0)))
        + "\">"@ + ev.0 + "</a></li>"@
}

/// The list items of the given entry values, in order.
pub open spec fn lis_chars(rel: Seq<Seq<char>>, evs: Seq<(Seq<char>, bool)>) -> Seq<char>
    decreases evs.len(),
{
    if evs.len() == 0 {
        Seq::<char>::empty()
    } else {
        lis_chars(rel, evs.drop_last()) + li_chars(rel, evs.last())
    }
}

/// The "up one level" target: the parent's root-relative path, or `/` at the
/// root (where the link reloads the root itself).
pub open spec fn up_href(rel: Seq<Seq<char>>) -> Seq<char> {
    if rel.len() == 0 {
        "/"@
    } else {
        query_encoded_of(seq!['/'] + join_slash(rel.drop_last()))
    }
}

/// The first list item: the "up one level" link, present even at the root.
pub open spec fn up_li_chars(rel: Seq<Seq<char>>) -> Seq<char> {
    "<li><a href=\""@ + up_href(rel) + "\">⬆️ Go back up a directory</a></li>"@
}

/// The page heading: the root, then the listed path relative to it.
pub open spec fn heading_chars(root: Seq<char>, rel: Seq<Seq<char>>) -> Seq<char> {
    if rel.len() == 0 {
        "<h1>Directory listing for "@ + root + "</h1>"@
    } else {
        "<h1>Directory listing for "@ + root + seq!['/'] + join_slash(rel) + "</h1>"@
    }
}

/// The document opening: doctype, head with inline styling, open body.
pub open spec fn begin_chars() -> Seq<char> {
    "<!DOCTYPE html><html><head><meta charset=\"utf-8\"><style>body { font-family: Arial, sans-serif; } ul { list-style-type: none; padding: 0; } li { margin: 5px 0; } a { text-decoration: none; color: #0366d6; } a:hover { text-decoration: underline; }</style></head><body>"@
}

/// The document closing.
pub open spec fn end_chars() -> Seq<char> {
    "</body></html>"@
}

/// The whole document for the directory at `rel`, holding the given entry
/// values in the given order.
pub open spec fn listing_html(root: Seq<char>, rel: Seq<Seq<char>>, evs: Seq<(Seq<char>, bool)>) -> Seq<char> {
    begin_chars() + heading_chars(root, rel) + "<ul>"@ + up_li_chars(rel) + lis_chars(rel, evs)
        + "</ul>"@ + end_chars()
}

/// The segments with one more name at the end.
fn with_child(rel: &Vec<String>, name: &String) -> (r: Vec<String>)
    ensures
        views_of(r@) == views_of(rel@).push(name@),
{
    let mut r: Vec<String> = Vec::new();
    let mut i: usize = 0;
    proof {
        assert(views_of(r@) =~= views_of(rel@).take(0));
    }
    while i < rel.len()
        invariant
            i <= rel@.len(),
            views_of(r@) == views_of(rel@).take(i as int),
        decreases rel@.len() - i,
    {
        let ghost pre = r@;
        r.push(rel[i].clone());
        proof {
            assert(views_of(r@) =~= views_of(pre).push(rel@[i as int]@));
            assert(views_of(rel@).take(i as int + 1) =~= views_of(rel@).take(i as int).push(
                rel@[i as int]@,
            ));
        }
        i = i + 1;
    }
    let ghost pre = r@;
    r.push(name.clone());
    proof {
        assert(views_of(rel@).take(rel@.len() as int) =~= views_of(rel@));
        assert(views_of(r@) =~= views_of(pre).push(name@));
    }
    r
}

/// The segments with the last name removed.
fn parent_of(rel: &Vec<String>) -> (r: Vec<String>)
    requires
        rel@.len() > 0,
    ensures
        views_of(r@) == views_of(rel@).drop_last(),
{
    let mut r: Vec<String> = Vec::new();
    let mut i: usize = 0;
    proof {
        assert(views_of(r@) =~= views_of(rel@).take(0));
    }
    while i < rel.len() - 1
        invariant
            rel@.len() > 0,
            i <= rel@.len() - 1,
            views_of(r@) == views_of(rel@).take(i as int),
        decreases rel@.len() - 1 - i,
    {
        let ghost pre = r@;
        r.push(rel[i].clone());
        proof {
            assert(views_of(r@) =~= views_of(pre).push(rel@[i as int]@));
            assert(views_of(rel@).take(i as int + 1) =~= views_of(rel@).take(i as int).push(
                rel@[i as int]@,
            ));
        }
        i = i + 1;
    }
    proof {
        assert(views_of(rel@).take(rel@.len() - 1) =~= views_of(rel@).drop_last());
    }
    r
}

/// Render the listing document for the directory at `rel` under `root`. The
/// entries — the directory's immediate children, in any enumeration order —
/// are sorted before rendering.
pub fn render_listing(root: &str, rel: &Vec<String>, entries: Vec<DirEntry>) -> (h: String)
    ensures
        h@ == listing_html(
            root@,
            views_of(rel@),
            entry_views(entries@).sort_by(entry_leq()),
        ),
{
    proof {
        reveal_strlit("/");
    }
    let ghost relv = views_of(rel@);
    let sorted = sort_entries(entries);
    let ghost sevs = entry_views(sorted@);
    let mut h = String::from_str(
        "<!DOCTYPE html><html><head><meta charset=\"utf-8\"><style>body { font-family: Arial, sans-serif; } ul { list-style-type: none; padding: 0; } li { margin: 5px 0; } a { text-decoration: none; color: #0366d6; } a:hover { text-decoration: underline; }</style></head><body>",
    );
    h.append("<h1>Directory listing for ");
    h.append(root);
    if rel.len() > 0 {
        h.append("/");
        let joined = join_segments(rel);
        h.append(joined.as_str());
    }
    h.append("</h1>");
    proof {
        assert(h@ =~= begin_chars() + heading_chars(root@, relv));
    }
    h.append("<ul>");
    h.append("<li><a href=\"");
    if rel.len() == 0 {
        h.append("/");
    } else {
        let parent = parent_of(rel);
        let mut p = String::from_str("/");
        p.append(join_segments(&parent).as_str());
        proof {
            assert(p@ =~= seq!['/'] + join_slash(relv.drop_last()));
        }
        let enc = encode_query_str(p.as_str());
        h.append(enc.as_str());
    }
    h.append("\">⬆️ Go back up a directory</a></li>");
    proof {
        assert(h@ =~= begin_chars() + heading_chars(root@, relv) + "<ul>"@ + up_li_chars(relv));
    }
    let ghost base = h@;
    let mut i: usize = 0;
    proof {
        assert(sevs.take(0) =~= Seq::<(Seq<char>, bool)>::empty());
        assert(h@ =~= base + lis_chars(relv, sevs.take(0)));
    }
    while i < sorted.len()
        invariant
            i <= sorted@.len(),
            sevs == entry_views(sorted@),
            relv == views_of(rel@),
            h@ == base + lis_chars(relv, sevs.take(i as int)),
        decreases sorted@.len() - i,
    {
        let e = &sorted[i];
        h.append("<li>");
        if e.is_dir {
            h.append("📁 ");
        } else {
            h.append("📄 ");
        }
        h.append("<a href=\"/");
        let child = with_child(rel, &e.name);
        let joined = join_segments(&child);
        let enc = encode_query_str(joined.as_str());
        h.append(enc.as_str());
        h.append("\">");
        h.append(e.name.as_str());
        h.append("</a></li>");
        proof {
            assert(sevs.take(i as int + 1).drop_last() =~= sevs.take(i as int));
            assert(sevs.take(i as int + 1).last() == sevs[i as int]);
            assert(entry_view(sorted@[i as int]) == sevs[i as int]);
            assert(h@ =~= base + lis_chars(relv, sevs.take(i as int + 1)));
        }
        i = i + 1;
    }
    proof {
        assert(sevs.take(sorted@.len() as int) =~= sevs);
    }
    h.append("</ul>");
    h.append("</body></html>");
    proof {
        assert(h@ =~= listing_html(root@, relv, sevs));
    }
    h
}

/// Listing an unchanged directory is deterministic: the same entry values, in
/// any enumeration order, render byte-identical HTML.
pub proof fn lemma_listing_deterministic(
    root: Seq<char>,
    rel: Seq<Seq<char>>,
    e1: Seq<(Seq<char>, bool)>,
    e2: Seq<(Seq<char>, bool)>,
)
    requires
        e1.to_multiset() == e2.to_multiset(),
    ensures
        listing_html(root, rel, e1.sort_by(entry_leq())) == listing_html(
            root,
            rel,
            e2.sort_by(entry_leq()),
        ),
{
    lemma_entry_total();
    e1.lemma_sort_by_ensures(entry_leq());
    e2.lemma_sort_by_ensures(entry_leq());
    lemma_sorted_unique(e1.sort_by(entry_leq()), e2.sort_by(entry_leq()), entry_leq());
    assert(e1.sort_by(entry_leq()) == e2.sort_by(entry_leq()));
}

} // verus!
