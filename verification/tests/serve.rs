use dirserve::classify::classify;
use dirserve::listing::{render_listing, sort_entries, DirEntry};
use dirserve::numfmt::dec_string;
use dirserve::paths::join_segments;
use dirserve::request::{parse_and_resolve, request_target, resolve_target};
use dirserve::response::{internal_error_response, not_found_response};
use dirserve::server::{directory_response, file_response, response_for, Resource};

fn segs(v: &[&str]) -> Vec<String> {
    v.iter().map(|s| s.to_string()).collect()
}

fn entry(name: &str, is_dir: bool) -> DirEntry {
    DirEntry { name: name.to_string(), is_dir }
}

fn body_len_of(head: &str) -> usize {
    let marker = "Content-Length: ";
    let at = head.find(marker).expect("no Content-Length in head");
    let rest = &head[at + marker.len()..];
    let end = rest.find('\r').expect("unterminated Content-Length");
    rest[..end].parse().expect("bad Content-Length digits")
}

#[test]
fn decimal_rendering() {
    assert_eq!(dec_string(0), "0");
    assert_eq!(dec_string(7), "7");
    assert_eq!(dec_string(10), "10");
    assert_eq!(dec_string(90210), "90210");
    assert_eq!(dec_string(usize::MAX), format!("{}", usize::MAX));
}

#[test]
fn target_extraction() {
    assert_eq!(
        request_target("GET /docs HTTP/1.1\r\nHost: h\r\n\r\n"),
        Some("/docs".to_string())
    );
    assert_eq!(request_target("GET / HTTP/1.1"), Some("/".to_string()));
    assert_eq!(request_target("  GET   /a%20b   HTTP/1.1  "), Some("/a%20b".to_string()));
    assert_eq!(request_target("GARBAGE"), None);
    assert_eq!(request_target(""), None);
    assert_eq!(request_target("\r\nGET /late HTTP/1.1"), None);
}

#[test]
fn resolve_plain_paths() {
    assert_eq!(resolve_target("/"), Vec::<String>::new());
    assert_eq!(resolve_target(""), Vec::<String>::new());
    assert_eq!(resolve_target("/docs/readme.txt"), segs(&["docs", "readme.txt"]));
    assert_eq!(resolve_target("docs//sub/./x"), segs(&["docs", "sub", "x"]));
}

#[test]
fn resolve_normalizes_dotdot_inside_root() {
    assert_eq!(resolve_target("/a/../b"), segs(&["b"]));
    assert_eq!(resolve_target("/a/b/../../c/d/.."), segs(&["c"]));
}

#[test]
fn escape_attempts_resolve_to_root() {
    assert_eq!(resolve_target("/../../etc/passwd"), Vec::<String>::new());
    assert_eq!(resolve_target("/.."), Vec::<String>::new());
    assert_eq!(resolve_target("/a/../../b"), Vec::<String>::new());
    assert_eq!(resolve_target("/%2e%2e/secret"), Vec::<String>::new());
}

#[test]
fn percent_decoding() {
    assert_eq!(resolve_target("/a%20b"), segs(&["a b"]));
    assert_eq!(resolve_target("/caf%C3%A9"), segs(&["café"]));
    // a malformed escape passes through unchanged
    assert_eq!(resolve_target("/x%zzy"), segs(&["x%zzy"]));
    // an encoded slash separates segments after decoding
    assert_eq!(resolve_target("/a%2Fb"), segs(&["a", "b"]));
}

#[test]
fn round_trip_relative_paths() {
    for p in ["docs/readme.txt", "a", "deep/er/still"] {
        let resolved = resolve_target(&format!("/{}", p));
        assert_eq!(join_segments(&resolved), p);
    }
}

#[test]
fn sorting_entries_is_canonical() {
    let a = sort_entries(vec![entry("b", false), entry("a", true), entry("c", false)]);
    let b = sort_entries(vec![entry("c", false), entry("b", false), entry("a", true)]);
    let names: Vec<&str> = a.iter().map(|e| e.name.as_str()).collect();
    assert_eq!(names, vec!["a", "b", "c"]);
    let names_b: Vec<&str> = b.iter().map(|e| e.name.as_str()).collect();
    assert_eq!(names, names_b);
}

#[test]
fn listing_is_deterministic() {
    let one = render_listing(
        "/srv/www",
        &segs(&["docs"]),
        vec![entry("b.txt", false), entry("a", true)],
    );
    let two = render_listing(
        "/srv/www",
        &segs(&["docs"]),
        vec![entry("a", true), entry("b.txt", false)],
    );
    assert_eq!(one, two);
}

#[test]
fn listing_contents() {
    let html = render_listing(
        "/srv/www",
        &Vec::new(),
        vec![entry("index.html", false), entry("docs", true)],
    );
    assert!(html.starts_with("<!DOCTYPE html>"));
    assert!(html.contains("<h1>Directory listing for /srv/www</h1>"));
    assert!(html.contains("<li><a href=\"/\">⬆️ Go back up a directory</a></li>"));
    assert!(html.contains("<li>📁 <a href=\"/docs\">docs</a></li>"));
    assert!(html.contains("<li>📄 <a href=\"/index.html\">index.html</a></li>"));
    // sorted: the directory "docs" comes before "index.html"
    assert!(html.find("docs").unwrap() < html.find("index.html").unwrap());
    assert!(html.ends_with("</body></html>"));
}

#[test]
fn listing_of_subdirectory_links_up_to_parent() {
    let html = render_listing("/srv/www", &segs(&["docs", "sub"]), vec![entry("f x", false)]);
    assert!(html.contains("<h1>Directory listing for /srv/www/docs/sub</h1>"));
    assert!(html.contains("<a href=\"/docs\">⬆️ Go back up a directory</a>"));
    // entry hrefs are query-encoded: the space becomes %20
    assert!(html.contains("<li>📄 <a href=\"/docs/sub/f%20x\">f x</a></li>"));
}

#[test]
fn content_length_matches_body_for_listing() {
    let r = directory_response(
        "/srv/www",
        &Vec::new(),
        vec![entry("index.html", false), entry("docs", true)],
    );
    assert!(r.head.starts_with("HTTP/1.1 200 OK\r\nContent-Type: text/html\r\n"));
    assert_eq!(body_len_of(&r.head), r.body.len());
}

#[test]
fn content_length_matches_body_for_file() {
    let content = b"hello world".to_vec();
    let r = file_response("readme.txt", content.clone());
    assert_eq!(r.body, content);
    assert_eq!(body_len_of(&r.head), r.body.len());
}

#[test]
fn sniffed_png_reports_image_png() {
    let mut png = vec![0x89u8, 0x50, 0x4E, 0x47, 0x0D, 0x0A, 0x1A, 0x0A];
    png.extend_from_slice(&[0u8; 16]);
    let (ctype, is_text) = classify("picture.png", &png);
    assert_eq!(ctype, "image/png");
    assert!(is_text);
}

#[test]
fn unknown_bytes_default_to_text_plain() {
    let (ctype, is_text) = classify("notes", &b"just some words".to_vec());
    assert_eq!(ctype, "text/plain");
    assert!(is_text);
}

#[test]
fn forced_text_extensions_override_sniffing() {
    let mut png = vec![0x89u8, 0x50, 0x4E, 0x47, 0x0D, 0x0A, 0x1A, 0x0A];
    png.extend_from_slice(&[0u8; 16]);
    for name in ["main.rs", "Cargo.toml", "Cargo.lock"] {
        let (ctype, is_text) = classify(name, &png);
        assert_eq!(ctype, "text/plain", "for {}", name);
        assert!(is_text);
    }
    // a leading dot is not an extension
    let (ctype, _) = classify(".rs", &png);
    assert_eq!(ctype, "image/png");
}

#[test]
fn error_responses() {
    let nf = not_found_response();
    assert_eq!(nf.head, "HTTP/1.1 404 NOT FOUND\r\nContent-Length: 0\r\n\r\n");
    assert!(nf.body.is_empty());
    let ie = internal_error_response();
    assert_eq!(
        ie.head,
        "HTTP/1.1 500 INTERNAL SERVER ERROR\r\nContent-Type: text/plain\r\nContent-Length: 19\r\n\r\n"
    );
    assert_eq!(ie.body, b"Unable to read file".to_vec());
}

#[test]
fn scenario_root_listing() {
    let resolved = parse_and_resolve("GET / HTTP/1.1\r\n\r\n").expect("parseable");
    assert!(resolved.is_empty());
    let r = response_for(
        "/srv/www",
        &resolved,
        Resource::Directory(vec![entry("index.html", false), entry("docs", true)]),
    );
    assert!(r.head.starts_with("HTTP/1.1 200 OK\r\nContent-Type: text/html\r\n"));
    let html = String::from_utf8(r.body.clone()).unwrap();
    assert!(html.contains("<a href=\"/\">⬆️ Go back up a directory</a>"));
    assert!(html.contains(">index.html</a>"));
    assert!(html.contains(">docs</a>"));
    assert_eq!(body_len_of(&r.head), r.body.len());
}

#[test]
fn scenario_file_under_subdirectory() {
    let resolved = parse_and_resolve("GET /docs/readme.txt HTTP/1.1\r\n\r\n").expect("parseable");
    assert_eq!(resolved, segs(&["docs", "readme.txt"]));
    let bytes = b"plain words".to_vec();
    let r = response_for("/srv/www", &resolved, Resource::FileContents(bytes.clone()));
    assert!(r.head.starts_with("HTTP/1.1 200 OK\r\nContent-Type: text/plain\r\n"));
    assert_eq!(r.body, bytes);
}

#[test]
fn scenario_escape_serves_root() {
    let resolved = parse_and_resolve("GET /../../etc/passwd HTTP/1.1\r\n\r\n").expect("parseable");
    assert!(resolved.is_empty(), "escape must fall back to the root");
}

#[test]
fn scenario_missing_resource() {
    let resolved = parse_and_resolve("GET /missing.txt HTTP/1.1\r\n\r\n").expect("parseable");
    let r = response_for("/srv/www", &resolved, Resource::Missing);
    assert_eq!(r.head, "HTTP/1.1 404 NOT FOUND\r\nContent-Length: 0\r\n\r\n");
    assert!(r.body.is_empty());
}

#[test]
fn scenario_unparseable_request() {
    assert!(parse_and_resolve("NONSENSE").is_none());
    assert!(parse_and_resolve("").is_none());
}

#[test]
fn open_and_read_failures() {
    let rel = segs(&["f.bin"]);
    let r = response_for("/srv/www", &rel, Resource::OpenFailed);
    assert!(r.head.starts_with("HTTP/1.1 404"));
    let r = response_for("/srv/www", &rel, Resource::ReadFailed);
    assert!(r.head.starts_with("HTTP/1.1 500"));
    assert_eq!(r.body, b"Unable to read file".to_vec());
}
