use crawler::archive::Archive;
use crawler::dispatcher::{Dispatch, Dispatcher, HOST_VISIT_LIMIT};
use crawler::extract::Aggregate;
use crawler::finding::Finding;
use crawler::link::Link;
use crawler::resolve::resolve_candidate;
use crawler::resource::{resource_path, RESOURCE_DIR};
use crawler::seeds::{parse_seeds, SeedError};
use crawler::throttle::HostThrottle;

fn link(s: &str) -> Link {
    resolve_candidate(s, &None).expect("absolute URL")
}

fn strings(v: &[&str]) -> Vec<String> {
    v.iter().map(|s| s.to_string()).collect()
}

fn raw(pages: &[&str], images: &[&str]) -> Aggregate {
    let mut a = Aggregate::new();
    for p in pages {
        a.process_tag(true, "a", &vec![("href".to_string(), p.to_string())]);
    }
    for i in images {
        a.process_tag(true, "img", &vec![("src".to_string(), i.to_string())]);
    }
    a
}

#[test]
fn one_level_crawl_fetches_the_image() {
    let seeds = parse_seeds(&strings(&["https://example.test/"])).unwrap();
    let mut d = Dispatcher::new(&seeds, 1);
    let first = d.admit_pass();
    assert_eq!(first.len(), 1);
    let ticket = match &first[0] {
        Dispatch::Spider { ticket, url, depth } => {
            assert_eq!(url.text, "https://example.test/");
            assert_eq!(*depth, 0);
            *ticket
        }
        other => panic!("unexpected {:?}", other),
    };
    assert!(d.complete_spider(ticket, Some(raw(&["/x", "/y"], &["/z.png"]))));
    assert!(d.knows(&Finding::Page(link("https://example.test/x"), 1)));
    assert!(d.knows(&Finding::Page(link("https://example.test/y"), 1)));
    assert!(d.knows(&Finding::Image(link("https://example.test/z.png"))));
    assert_eq!(d.waiting(), 1);
    let second = d.admit_pass();
    assert_eq!(second.len(), 1);
    let ticket = match &second[0] {
        Dispatch::Fetch { ticket, url } => {
            assert_eq!(url.text, "https://example.test/z.png");
            assert_eq!(resource_path(RESOURCE_DIR, url), Some("prey/res/z.png".to_string()));
            *ticket
        }
        other => panic!("unexpected {:?}", other),
    };
    assert!(!d.is_drained());
    assert!(d.complete_fetch(ticket));
    assert!(d.is_drained());
}

#[test]
fn invalid_seed_is_named() {
    let err = parse_seeds(&strings(&["not_a_url.123", "another.invalid/url"])).unwrap_err();
    assert_eq!(err, SeedError::InvalidUrl("not_a_url.123".to_string()));
    assert!(err.describe().contains("Invalid URL"));
    assert_eq!(err.describe(), "Invalid URL: not_a_url.123");
}

#[test]
fn first_bad_seed_is_reported() {
    let err = parse_seeds(&strings(&["https://ok.test/", "not_a_url"])).unwrap_err();
    assert_eq!(err, SeedError::InvalidUrl("not_a_url".to_string()));
}

#[test]
fn hostless_seed_is_refused() {
    let err = parse_seeds(&strings(&["mailto:someone@example.test"])).unwrap_err();
    assert_eq!(err, SeedError::NoHost("mailto:someone@example.test".to_string()));
    assert!(err.describe().starts_with("Invalid URL"));
}

#[test]
fn duplicate_seeds_collapse() {
    let seeds = parse_seeds(&strings(&["https://a.test", "https://a.test/", "https://b.test/"])).unwrap();
    assert_eq!(seeds.len(), 2);
}

#[test]
fn difference_twice_is_empty() {
    let mut archive = Archive::new();
    let new = vec![
        Finding::Page(link("https://a.test/p"), 1),
        Finding::Image(link("https://a.test/i.png")),
        Finding::Page(link("https://a.test/p"), 1),
    ];
    let fresh = archive.difference(&new);
    assert_eq!(fresh.len(), 2);
    archive.insert_all(&fresh);
    assert!(archive.difference(&new).is_empty());
    assert!(archive.contains(&Finding::Page(link("https://a.test/p"), 1)));
    assert!(!archive.contains(&Finding::Page(link("https://a.test/p"), 2)));
}

#[test]
fn throttle_ceiling_is_a_hard_cap() {
    let mut t = HostThrottle::new(2);
    assert!(t.try_admit("a.test"));
    assert!(t.try_admit("a.test"));
    assert_eq!(t.visits("a.test"), 2);
    assert!(!t.try_admit("a.test"));
    assert_eq!(t.visits("a.test"), 2);
    assert!(t.try_admit("b.test"));
    t.release("a.test");
    assert_eq!(t.visits("a.test"), 1);
    assert!(t.try_admit("a.test"));
    assert_eq!(t.visits("b.test"), 1);
    assert_eq!(t.visits("c.test"), 0);
}

#[test]
fn zero_ceiling_admits_nothing() {
    let mut t = HostThrottle::new(0);
    assert!(!t.try_admit("a.test"));
    assert_eq!(t.visits("a.test"), 0);
}

#[test]
fn busy_host_defers_past_the_ceiling() {
    let mut pages: Vec<String> = Vec::new();
    for i in 0..(HOST_VISIT_LIMIT as usize + 3) {
        pages.push(format!("/p{}", i));
    }
    let seeds = parse_seeds(&strings(&["https://busy.test/"])).unwrap();
    let mut d = Dispatcher::new(&seeds, 3);
    let first = d.admit_pass();
    let ticket = match &first[0] {
        Dispatch::Spider { ticket, .. } => *ticket,
        other => panic!("unexpected {:?}", other),
    };
    let refs: Vec<&str> = pages.iter().map(|s| s.as_str()).collect();
    assert!(d.complete_spider(ticket, Some(raw(&refs, &[]))));
    assert_eq!(d.waiting(), HOST_VISIT_LIMIT as usize + 3);
    let second = d.admit_pass();
    assert_eq!(second.len(), HOST_VISIT_LIMIT as usize);
    assert_eq!(d.waiting(), 3);
    for t in &second {
        match t {
            Dispatch::Spider { ticket, depth, .. } => {
                assert_eq!(*depth, 1);
                assert!(d.complete_spider(*ticket, None));
            }
            other => panic!("unexpected {:?}", other),
        }
    }
    assert_eq!(d.admit_pass().len(), 3);
}

#[test]
fn failed_tasks_release_their_host() {
    let seeds = parse_seeds(&strings(&["https://a.test/", "https://b.test/"])).unwrap();
    let mut d = Dispatcher::new(&seeds, 2);
    let tasks = d.admit_pass();
    assert_eq!(tasks.len(), 2);
    for t in &tasks {
        if let Dispatch::Spider { ticket, .. } = t {
            assert!(d.complete_spider(*ticket, None));
            assert!(!d.complete_spider(*ticket, None));
        }
    }
    assert!(d.is_drained());
}

#[test]
fn unknown_or_mismatched_ticket_changes_nothing() {
    let seeds = parse_seeds(&strings(&["https://a.test/"])).unwrap();
    let mut d = Dispatcher::new(&seeds, 2);
    let tasks = d.admit_pass();
    let ticket = match &tasks[0] {
        Dispatch::Spider { ticket, .. } => *ticket,
        other => panic!("unexpected {:?}", other),
    };
    assert!(!d.complete_fetch(ticket));
    assert!(!d.complete_spider(ticket + 7, None));
    assert!(!d.is_drained());
    assert!(d.complete_spider(ticket, None));
    assert!(d.is_drained());
}

fn site(url: &str) -> (Vec<&'static str>, Vec<&'static str>) {
    match url {
        "https://g.test/" => (vec!["/a", "/b"], vec!["/logo.png"]),
        "https://g.test/a" => (vec!["/b", "/c"], vec!["/logo.png"]),
        "https://g.test/b" => (vec!["/c"], vec![]),
        "https://g.test/c" => (vec!["/a"], vec!["/c.png"]),
        _ => (vec![], vec![]),
    }
}

#[test]
fn crawl_of_a_small_site_drains() {
    let seeds = parse_seeds(&strings(&["https://g.test/"])).unwrap();
    let mut d = Dispatcher::new(&seeds, 3);
    let mut passes = 0;
    let mut crawled: Vec<(String, u8)> = Vec::new();
    let mut fetched: Vec<String> = Vec::new();
    while !d.is_drained() {
        passes += 1;
        assert!(passes < 50);
        let tasks = d.admit_pass();
        for t in tasks {
            match t {
                Dispatch::Spider { ticket, url, depth } => {
                    assert!(depth < 3);
                    crawled.push((url.text.clone(), depth));
                    let (p, i) = site(&url.text);
                    assert!(d.complete_spider(ticket, Some(raw(&p, &i))));
                }
                Dispatch::Fetch { ticket, url } => {
                    fetched.push(url.text.clone());
                    assert!(d.complete_fetch(ticket));
                }
            }
        }
    }
    crawled.sort();
    fetched.sort();
    assert_eq!(
        crawled,
        vec![
            ("https://g.test/".to_string(), 0),
            ("https://g.test/a".to_string(), 1),
            ("https://g.test/b".to_string(), 1),
            ("https://g.test/b".to_string(), 2),
            ("https://g.test/c".to_string(), 2),
        ]
    );
    assert_eq!(fetched, vec!["https://g.test/c.png".to_string(), "https://g.test/logo.png".to_string()]);
}

#[test]
fn depth_limit_zero_crawls_only_the_seeds() {
    let seeds = parse_seeds(&strings(&["https://g.test/"])).unwrap();
    let mut d = Dispatcher::new(&seeds, 0);
    let tasks = d.admit_pass();
    assert_eq!(tasks.len(), 1);
    if let Dispatch::Spider { ticket, .. } = &tasks[0] {
        assert!(d.complete_spider(*ticket, Some(raw(&["/a"], &[]))));
    }
    assert!(d.knows(&Finding::Page(link("https://g.test/a"), 1)));
    assert!(d.is_drained());
}
