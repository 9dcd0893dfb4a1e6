//! The crawl's starting points: seed URL strings checked before any work.

use vstd::prelude::*;
use crate::link::{parse_url, url_parse, Link, LinkView};
use crate::resolve::{distinct_links, holds_link, link_set};

verus! {

/// Why a seed string cannot start a crawl.
#[derive(Debug, PartialEq, Eq)]
pub enum SeedError {
    /// The string is not an absolute URL.
    InvalidUrl(String),
    /// The URL has no host, so no visit to it can be counted.
    NoHost(String),
}

/// Whether a seed string is an absolute URL with a host.
pub open spec fn seed_ok(s: Seq<char>) -> bool {
    url_parse(s) is Ok && url_parse(s)->Ok_0.host is Some
}

/// The links that the seeds parse to.
pub open spec fn seed_links(seeds: Seq<String>) -> Set<LinkView> {
    Set::new(|l: LinkView| exists|i: int| 0 <= i < seeds.len() && url_parse(#[trigger] seeds[i]@) == Ok::<LinkView, crate::link::UrlFault>(l))
}

impl SeedError {
    /// The seed string that was refused.
    pub open spec fn seed(self) -> Seq<char> {
        match self {
            SeedError::InvalidUrl(s) => s@,
            SeedError::NoHost(s) => s@,
        }
    }

    /// A one-line account of the refusal, naming the seed.
    pub fn describe(&self) -> (r: String)
        ensures
            r@ == (match self {
                SeedError::InvalidUrl(_) => "Invalid URL: "@,
                SeedError::NoHost(_) => "Invalid URL (no host): "@,
            }) + self.seed(),
    {
        match self {
            SeedError::InvalidUrl(s) => {
                let mut r = String::from_str("Invalid URL: ");
                r.append(s.as_str());
                r
            },
            SeedError::NoHost(s) => {
                let mut r = String::from_str("Invalid URL (no host): ");
                r.append(s.as_str());
                r
            },
        }
    }
}

/// Parses the seed strings. Succeeds exactly when each one is an absolute
/// URL with a host, with the distinct links they denote; otherwise names the
/// first seed that is not, and why.
pub fn parse_seeds(urls: &Vec<String>) -> (r: Result<Vec<Link>, SeedError>)
    ensures
        r is Ok <==> forall|i: int| 0 <= i < urls@.len() ==> seed_ok(#[trigger] urls@[i]@),
        r matches Ok(v) ==> link_set(v@) == seed_links(urls@) && distinct_links(v@)
            && forall|i: int| 0 <= i < v@.len() ==> (#[trigger] v@[i])@.host is Some,
        r matches Err(e) ==> exists|i: int| 0 <= i < urls@.len() && !seed_ok(#[trigger] urls@[i]@)
            && e.seed() == urls@[i]@
            && (forall|j: int| 0 <= j < i ==> seed_ok(#[trigger] urls@[j]@))
            && (url_parse(urls@[i]@) is Err <==> e is InvalidUrl),
{
    let mut out: Vec<Link> = Vec::new();
    let mut i: usize = 0;
    while i < urls.len()
        invariant
            i <= urls@.len(),
            forall|j: int| 0 <= j < i ==> seed_ok(#[trigger] urls@[j]@),
            link_set(out@) == seed_links(urls@.take(i as int)),
            distinct_links(out@),
            forall|j: int| 0 <= j < out@.len() ==> (#[trigger] out@[j])@.host is Some,
        decreases urls.len() - i,
    {
        let ghost cur = urls@.take(i as int);
        let ghost nxt = urls@.take(i + 1);
        let ghost before = out@;
        match parse_url(urls[i].as_str()) {
            Ok(l) => {
                if l.host.is_none() {
                    return Err(SeedError::NoHost(urls[i].clone()));
                }
                let ghost lv = l@;
                if !holds_link(&out, &l) {
                    out.push(l);
                    assert(out@[out@.len() - 1]@ == lv);
                }
                assert(link_set(out@).contains(lv));
                assert(link_set(out@) =~= seed_links(nxt)) by {
                    assert(nxt[i as int] == urls@[i as int]);
                    assert forall|x: LinkView| #[trigger] link_set(out@).contains(x) implies seed_links(nxt).contains(x) by {
                        let m = choose|m: int| 0 <= m < out@.len() && out@[m]@ == x;
                        if m < before.len() {
                            assert(link_set(before).contains(x));
                            let k = choose|k: int| 0 <= k < i && url_parse(#[trigger] cur[k]@) == Ok::<LinkView, crate::link::UrlFault>(x);
                            assert(nxt[k] == cur[k]);
                        }
                    }
                    assert forall|x: LinkView| seed_links(nxt).contains(x) implies #[trigger] link_set(out@).contains(x) by {
                        let k = choose|k: int| 0 <= k < i + 1 && url_parse(#[trigger] nxt[k]@) == Ok::<LinkView, crate::link::UrlFault>(x);
                        if k < i {
                            assert(nxt[k] == cur[k]);
                            assert(seed_links(cur).contains(x));
                            let m = choose|m: int| 0 <= m < before.len() && before[m]@ == x;
                            assert(out@[m] == before[m]);
                        }
                    }
                }
            },
            Err(_) => {
                return Err(SeedError::InvalidUrl(urls[i].clone()));
            },
        }
        i = i + 1;
    }
    assert(urls@.take(urls@.len() as int) =~= urls@);
    Ok(out)
}

} // verus!
