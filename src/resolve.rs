//! Turning candidate link strings into absolute URLs that the crawler may
//! follow.

use vstd::prelude::*;
use crate::link::{
    followable, join_url, parse_url, url_join, url_parse, Link, LinkView, UrlFault,
};

verus! {

/// What a candidate string resolves to against a page's site root: an
/// absolute URL is kept as it is; a relative reference is joined onto the
/// site root; anything else is dropped.
pub open spec fn resolution(root: Option<Seq<char>>, c: Seq<char>) -> Option<LinkView> {
    match url_parse(c) {
        Ok(l) => Some(l),
        Err(UrlFault::RelativeWithoutBase) => match root {
            Some(r) => match url_join(r, c) {
                Ok(t) => match url_parse(t) {
                    Ok(l) => Some(l),
                    Err(_) => None,
                },
                Err(_) => None,
            },
            None => None,
        },
        Err(UrlFault::Malformed) => None,
    }
}

/// The links that the first `n` candidates resolve to and that pass the
/// filter.
pub open spec fn resolved_upto(root: Option<Seq<char>>, cands: Seq<String>, n: int) -> Set<LinkView> {
    Set::new(
        |l: LinkView|
            exists|i: int|
                0 <= i < n && resolution(root, #[trigger] cands[i]@) == Some(l) && followable(l),
    )
}

/// The links that the candidates resolve to and that pass the filter.
pub open spec fn resolved_links(root: Option<Seq<char>>, cands: Seq<String>) -> Set<LinkView> {
    resolved_upto(root, cands, cands.len() as int)
}

/// The set of values that a sequence of links holds.
pub open spec fn link_set(s: Seq<Link>) -> Set<LinkView> {
    Set::new(|l: LinkView| exists|i: int| 0 <= i < s.len() && s[i]@ == l)
}

/// No two links of the sequence are equal.
pub open spec fn distinct_links(s: Seq<Link>) -> bool {
    forall|i: int, j: int| 0 <= i < s.len() && 0 <= j < s.len() && i != j ==> s[i]@ != s[j]@
}

/// The view of an optional link.
pub open spec fn opt_link_view(o: Option<Link>) -> Option<LinkView> {
    match o {
        Some(l) => Some(l@),
        None => None,
    }
}

/// Resolves one candidate against the site root, if there is one.
pub fn resolve_candidate(c: &str, root: &Option<String>) -> (r: Option<Link>)
    ensures
        opt_link_view(r) == resolution(crate::link::opt_view(*root), c@),
{
    match parse_url(c) {
        Ok(l) => Some(l),
        Err(UrlFault::RelativeWithoutBase) => match root {
            Some(base) => match join_url(base.as_str(), c) {
                Ok(t) => match parse_url(t.as_str()) {
                    Ok(l) => Some(l),
                    Err(_) => None,
                },
                Err(_) => None,
            },
            None => None,
        },
        Err(UrlFault::Malformed) => None,
    }
}

/// Whether a link equal to `l` stands in `v`.
pub fn holds_link(v: &Vec<Link>, l: &Link) -> (r: bool)
    ensures
        r == link_set(v@).contains(l@),
{
    let mut i: usize = 0;
    while i < v.len()
        invariant
            i <= v@.len(),
            forall|j: int| 0 <= j < i ==> v@[j]@ != l@,
        decreases v.len() - i,
    {
        if v[i].same_as(l) {
            return true;
        }
        i = i + 1;
    }
    false
}

/// Resolves each candidate against the site root and keeps, once each, the
/// links whose scheme contains `http` and that have a host.
pub fn parse_links(links: &Vec<String>, root: &Option<String>) -> (r: Vec<Link>)
    ensures
        link_set(r@) == resolved_links(crate::link::opt_view(*root), links@),
        distinct_links(r@),
{
    let ghost rv = crate::link::opt_view(*root);
    let mut out: Vec<Link> = Vec::new();
    let mut i: usize = 0;
    while i < links.len()
        invariant
            i <= links@.len(),
            rv == crate::link::opt_view(*root),
            link_set(out@) == resolved_upto(rv, links@, i as int),
            distinct_links(out@),
        decreases links.len() - i,
    {
        let ghost before = out@;
        let resolved = resolve_candidate(links[i].as_str(), root);
        match resolved {
            Some(l) => {
                let ghost lv = l@;
                if l.is_followable() && !holds_link(&out, &l) {
                    out.push(l);
                    assert(out@[out@.len() - 1]@ == lv);
                }
                assert(followable(lv) ==> link_set(out@).contains(lv));
            },
            None => {},
        }
        assert(link_set(out@) =~= resolved_upto(rv, links@, i + 1)) by {
            assert forall|x: LinkView| resolved_upto(rv, links@, i + 1).contains(x) implies link_set(
                out@,
            ).contains(x) by {
                let k = choose|k: int|
                    0 <= k < i + 1 && resolution(rv, #[trigger] links@[k]@) == Some(x)
                        && followable(x);
                if k < i {
                    assert(resolved_upto(rv, links@, i as int).contains(x));
                    let m = choose|m: int| 0 <= m < before.len() && before[m]@ == x;
                    assert(out@[m]@ == x);
                }
            }
            assert forall|x: LinkView| link_set(out@).contains(x) implies resolved_upto(
                rv,
                links@,
                i + 1,
            ).contains(x) by {
                let m = choose|m: int| 0 <= m < out@.len() && out@[m]@ == x;
                if m < before.len() {
                    assert(link_set(before).contains(x));
                    let k = choose|k: int|
                        0 <= k < i && resolution(rv, #[trigger] links@[k]@) == Some(x)
                            && followable(x);
                    assert(0 <= k < i + 1);
                } else {
                    assert(resolution(rv, links@[i as int]@) == Some(x));
                }
            }
        }
        i = i + 1;
    }
    out
}

} // verus!
