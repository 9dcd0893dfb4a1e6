use crawler::extract::{process_page, same_word, Aggregate};
use crawler::finding::Finding;
use crawler::link::{has_http, Link, UrlFault};
use crawler::resolve::{parse_links, resolve_candidate};
use crawler::resource::{resource_path, RESOURCE_DIR};

fn link(s: &str) -> Link {
    resolve_candidate(s, &None).expect("absolute URL")
}

fn tag(start: bool, name: &str, attrs: &[(&str, &str)]) -> (bool, String, Vec<(String, String)>) {
    (
        start,
        name.to_string(),
        attrs.iter().map(|(k, v)| (k.to_string(), v.to_string())).collect(),
    )
}

fn aggregate(pages: &[&str], images: &[&str]) -> Aggregate {
    let mut a = Aggregate::new();
    for p in pages {
        let (s, n, at) = tag(true, "a", &[("href", p)]);
        a.process_tag(s, &n, &at);
    }
    for i in images {
        let (s, n, at) = tag(true, "img", &[("src", i)]);
        a.process_tag(s, &n, &at);
    }
    a
}

fn texts(found: &[Finding]) -> Vec<(String, Option<u8>)> {
    let mut v: Vec<(String, Option<u8>)> = found
        .iter()
        .map(|f| match f {
            Finding::Page(l, d) => (l.text.clone(), Some(*d)),
            Finding::Image(l) => (l.text.clone(), None),
        })
        .collect();
    v.sort();
    v
}

#[test]
fn absolute_url_is_parsed_and_normalised() {
    let l = link("HTTPS://Example.Test");
    assert_eq!(l.text, "https://example.test/");
    assert_eq!(l.scheme, "https");
    assert_eq!(l.host.as_deref(), Some("example.test"));
    assert_eq!(l.last_segment.as_deref(), Some(""));
}

#[test]
fn relative_candidate_resolves_against_site_root() {
    let page = link("https://example.test/blog/post1");
    let found = process_page(&page, aggregate(&["/about"], &[]), 0);
    assert_eq!(texts(&found), vec![("https://example.test/about".to_string(), Some(1))]);
}

#[test]
fn relative_path_without_slash_also_uses_site_root() {
    let page = link("https://example.test/blog/post1?q=2");
    let found = process_page(&page, aggregate(&["about"], &[]), 2);
    assert_eq!(texts(&found), vec![("https://example.test/about".to_string(), Some(3))]);
}

#[test]
fn javascript_link_never_becomes_a_finding() {
    let page = link("https://example.test/");
    let found = process_page(&page, aggregate(&["javascript:void(0)"], &[]), 0);
    assert!(found.is_empty());
}

#[test]
fn hostless_and_non_http_links_are_dropped() {
    let root = Some("https://example.test/".to_string());
    let cands = vec![
        "mailto:someone@example.test".to_string(),
        "ftp://files.example.test/a".to_string(),
        "data:text/plain,hello".to_string(),
        "http://[::1".to_string(),
    ];
    assert!(parse_links(&cands, &root).is_empty());
}

#[test]
fn candidates_are_deduplicated() {
    let root = Some("https://example.test/".to_string());
    let cands = vec![
        "/x".to_string(),
        "https://example.test/x".to_string(),
        "/x".to_string(),
        "/y".to_string(),
    ];
    let out = parse_links(&cands, &root);
    let mut t: Vec<String> = out.iter().map(|l| l.text.clone()).collect();
    t.sort();
    assert_eq!(t, vec!["https://example.test/x".to_string(), "https://example.test/y".to_string()]);
}

#[test]
fn relative_candidates_need_a_root() {
    let out = parse_links(&vec!["/x".to_string()], &None);
    assert!(out.is_empty());
}

#[test]
fn scheme_filter_is_a_substring_test() {
    assert!(has_http("http"));
    assert!(has_http("https"));
    assert!(has_http("xhttpx"));
    assert!(!has_http("htt"));
    assert!(!has_http("ftp"));
    assert!(!has_http(""));
}

#[test]
fn anchor_and_image_start_tags_give_candidates() {
    let mut a = Aggregate::new();
    let (s, n, at) = tag(true, "a", &[("class", "c"), ("href", "/one"), ("href", "/two")]);
    a.process_tag(s, &n, &at);
    let (s, n, at) = tag(true, "img", &[("src", "/pic.png"), ("alt", "x")]);
    a.process_tag(s, &n, &at);
    let (s, n, at) = tag(false, "a", &[("href", "/end")]);
    a.process_tag(s, &n, &at);
    let (s, n, at) = tag(true, "link", &[("href", "/style.css")]);
    a.process_tag(s, &n, &at);
    let (s, n, at) = tag(true, "img", &[("href", "/not-src")]);
    a.process_tag(s, &n, &at);
    assert_eq!(a.page_links, vec!["/one".to_string(), "/two".to_string()]);
    assert_eq!(a.image_links, vec!["/pic.png".to_string()]);
}

#[test]
fn page_with_links_and_image_yields_next_depth() {
    let page = link("https://example.test/");
    let found = process_page(&page, aggregate(&["/x", "/y"], &["/z.png"]), 0);
    assert_eq!(
        texts(&found),
        vec![
            ("https://example.test/x".to_string(), Some(1)),
            ("https://example.test/y".to_string(), Some(1)),
            ("https://example.test/z.png".to_string(), None),
        ]
    );
}

#[test]
fn words_compare_by_characters() {
    assert!(same_word("img", "img"));
    assert!(!same_word("im", "img"));
    assert!(!same_word("imx", "img"));
}

#[test]
fn resource_file_is_last_path_segment() {
    let l = link("https://example.test/a/b/z.png?size=2");
    assert_eq!(resource_path(RESOURCE_DIR, &l), Some("prey/res/z.png".to_string()));
}

#[test]
fn resources_sharing_a_last_segment_share_a_file() {
    let a = link("https://one.test/x/logo.png");
    let b = link("https://two.test/y/logo.png");
    assert_eq!(resource_path("d", &a), resource_path("d", &b));
}

#[test]
fn resource_without_path_segments_has_no_file() {
    let l = link("data:text/plain,hello");
    assert_eq!(resource_path(RESOURCE_DIR, &l), None);
}

#[test]
fn relative_string_is_refused_without_base() {
    assert!(resolve_candidate("/about", &None).is_none());
    let _ = UrlFault::RelativeWithoutBase;
}
