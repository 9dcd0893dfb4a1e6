//! Candidate links gathered from a page's start tags, and the findings that
//! a crawled page yields.

use vstd::prelude::*;
use crate::finding::{distinct_findings, finding_set, Finding, FindingView};
use crate::link::{opt_view, site_root, url_site_root, Link, LinkView};
use crate::resolve::{link_set, parse_links, resolved_links};

verus! {

/// The raw candidate strings of one page: `href` values of anchors and `src`
/// values of images, in the order they were met.
#[derive(Debug)]
pub struct Aggregate {
    pub page_links: Vec<String>,
    pub image_links: Vec<String>,
}

/// The name of the anchor tag.
pub open spec fn word_a() -> Seq<char> {
    seq!['a']
}

/// The name of the image tag.
pub open spec fn word_img() -> Seq<char> {
    seq!['i', 'm', 'g']
}

/// The name of the link attribute.
pub open spec fn word_href() -> Seq<char> {
    seq!['h', 'r', 'e', 'f']
}

/// The name of the image source attribute.
pub open spec fn word_src() -> Seq<char> {
    seq!['s', 'r', 'c']
}

/// The views of a sequence of strings.
pub open spec fn strings_view(s: Seq<String>) -> Seq<Seq<char>> {
    s.map_values(|x: String| x@)
}

/// The values, in order, of the attributes named `key`.
pub open spec fn values_named(attrs: Seq<(String, String)>, key: Seq<char>) -> Seq<Seq<char>>
    decreases attrs.len(),
{
    if attrs.len() == 0 {
        Seq::empty()
    } else {
        let rest = values_named(attrs.drop_last(), key);
        if attrs.last().0@ == key {
            rest.push(attrs.last().1@)
        } else {
            rest
        }
    }
}

/// What a tag adds to the page candidates: the `href` values of an anchor
/// start tag.
pub open spec fn page_candidates_of(start: bool, name: Seq<char>, attrs: Seq<(String, String)>) -> Seq<Seq<char>> {
    if start && name == word_a() {
        values_named(attrs, word_href())
    } else {
        Seq::empty()
    }
}

/// What a tag adds to the resource candidates: the `src` values of an image
/// start tag.
pub open spec fn image_candidates_of(start: bool, name: Seq<char>, attrs: Seq<(String, String)>) -> Seq<Seq<char>> {
    if start && name == word_img() {
        values_named(attrs, word_src())
    } else {
        Seq::empty()
    }
}

/// The findings that candidate lists yield against a site root: each page
/// candidate that resolves to a followable link, as a page at `depth`, and
/// each such image candidate as a resource.
pub open spec fn findings_of(
    root: Option<Seq<char>>,
    pages: Seq<String>,
    images: Seq<String>,
    depth: u8,
) -> Set<FindingView> {
    Set::new(
        |f: FindingView|
            match f {
                FindingView::Page(l, d) => d == depth && resolved_links(root, pages).contains(l),
                FindingView::Image(l) => resolved_links(root, images).contains(l),
            },
    )
}

/// The findings of a page crawled at `depth`: its candidates resolved
/// against its site root, pages tagged with the next depth.
pub open spec fn page_findings(page: LinkView, pages: Seq<String>, images: Seq<String>, depth: u8) -> Set<FindingView>
    recommends
        depth < 255,
{
    findings_of(url_site_root(page.text), pages, images, (depth + 1) as u8)
}

/// Whether `s` and `w` hold the same characters.
pub fn same_word(s: &str, w: &str) -> (r: bool)
    ensures
        r == (s@ == w@),
{
    let n = s.unicode_len();
    if n != w.unicode_len() {
        return false;
    }
    let mut i: usize = 0;
    while i < n
        invariant
            n == s@.len(),
            n == w@.len(),
            i <= n,
            forall|j: int| 0 <= j < i ==> s@[j] == w@[j],
        decreases n - i,
    {
        if s.get_char(i) != w.get_char(i) {
            return false;
        }
        i = i + 1;
    }
    assert(s@ =~= w@);
    true
}

/// Appends to `out` the values of the attributes named `key`.
fn push_values_named(out: &mut Vec<String>, attrs: &Vec<(String, String)>, key: &str)
    ensures
        strings_view(final(out)@) == strings_view(old(out)@) + values_named(attrs@, key@),
{
    let mut i: usize = 0;
    while i < attrs.len()
        invariant
            i <= attrs@.len(),
            strings_view(out@) == strings_view(old(out)@) + values_named(attrs@.take(i as int), key@),
        decreases attrs.len() - i,
    {
        let ghost prev = out@;
        assert(attrs@.take(i + 1).drop_last() =~= attrs@.take(i as int));
        if same_word(attrs[i].0.as_str(), key) {
            out.push(attrs[i].1.clone());
            assert(strings_view(out@) =~= strings_view(prev).push(attrs@[i as int].1@));
        }
        i = i + 1;
    }
    assert(attrs@.take(attrs@.len() as int) =~= attrs@);
}

impl Aggregate {
    /// An aggregate with no candidates yet.
    pub fn new() -> (r: Aggregate)
        ensures
            r.page_links@.len() == 0,
            r.image_links@.len() == 0,
    {
        Aggregate { page_links: Vec::new(), image_links: Vec::new() }
    }

    /// Records the candidates of one tag: the `href` values of an `a` start
    /// tag, the `src` values of an `img` start tag; other tags add nothing.
    pub fn process_tag(&mut self, start: bool, name: &str, attrs: &Vec<(String, String)>)
        ensures
            strings_view(final(self).page_links@) == strings_view(old(self).page_links@)
                + page_candidates_of(start, name@, attrs@),
            strings_view(final(self).image_links@) == strings_view(old(self).image_links@)
                + image_candidates_of(start, name@, attrs@),
    {
        proof {
            reveal_strlit("a");
            reveal_strlit("img");
            reveal_strlit("href");
            reveal_strlit("src");
        }
        let ghost pages = strings_view(self.page_links@);
        let ghost images = strings_view(self.image_links@);
        assert("a"@ =~= word_a());
        assert("img"@ =~= word_img());
        assert("href"@ =~= word_href());
        assert("src"@ =~= word_src());
        if start && same_word(name, "a") {
            push_values_named(&mut self.page_links, attrs, "href");
        } else if start && same_word(name, "img") {
            push_values_named(&mut self.image_links, attrs, "src");
        }
        assert(strings_view(self.page_links@) =~= pages + page_candidates_of(start, name@, attrs@));
        assert(strings_view(self.image_links@) =~= images + image_candidates_of(
            start,
            name@,
            attrs@,
        ));
    }

    /// Resolves the candidates against the site root: page candidates become
    /// pages at `depth`, image candidates resources, each finding once.
    pub fn parse(self, root: &Option<String>, depth: u8) -> (r: Vec<Finding>)
        ensures
            finding_set(r@) == findings_of(opt_view(*root), self.page_links@, self.image_links@, depth),
            distinct_findings(r@),
    {
        let pages = parse_links(&self.page_links, root);
        let images = parse_links(&self.image_links, root);
        let mut out: Vec<Finding> = Vec::new();
        let mut i: usize = 0;
        while i < pages.len()
            invariant
                i <= pages@.len(),
                out@.len() == i,
                forall|j: int| 0 <= j < i ==> #[trigger] out@[j]@ == FindingView::Page(pages@[j]@, depth),
            decreases pages.len() - i,
        {
            out.push(Finding::Page(pages[i].duplicate(), depth));
            i = i + 1;
        }
        let np = pages.len();
        let mut k: usize = 0;
        while k < images.len()
            invariant
                k <= images@.len(),
                np == pages@.len(),
                out@.len() == np + k,
                forall|j: int| 0 <= j < np ==> #[trigger] out@[j]@ == FindingView::Page(pages@[j]@, depth),
                forall|j: int| 0 <= j < k ==> #[trigger] out@[np + j]@ == FindingView::Image(images@[j]@),
            decreases images.len() - k,
        {
            out.push(Finding::Image(images[k].duplicate()));
            k = k + 1;
        }
        let ghost rv = opt_view(*root);
        assert(finding_set(out@) =~= findings_of(rv, self.page_links@, self.image_links@, depth)) by {
            assert forall|f: FindingView| finding_set(out@).contains(f) implies findings_of(
                rv,
                self.page_links@,
                self.image_links@,
                depth,
            ).contains(f) by {
                let m = choose|m: int| 0 <= m < out@.len() && out@[m]@ == f;
                if m < np {
                    assert(out@[m]@ == FindingView::Page(pages@[m]@, depth));
                    assert(link_set(pages@).contains(pages@[m]@));
                } else {
                    assert(out@[np + (m - np)]@ == FindingView::Image(images@[m - np]@));
                    assert(link_set(images@).contains(images@[m - np]@));
                }
            }
            assert forall|f: FindingView| findings_of(rv, self.page_links@, self.image_links@, depth).contains(
                f,
            ) implies finding_set(out@).contains(f) by {
                match f {
                    FindingView::Page(l, d) => {
                        assert(link_set(pages@).contains(l));
                        let m = choose|m: int| 0 <= m < pages@.len() && pages@[m]@ == l;
                        assert(out@[m]@ == f);
                    },
                    FindingView::Image(l) => {
                        assert(link_set(images@).contains(l));
                        let m = choose|m: int| 0 <= m < images@.len() && images@[m]@ == l;
                        assert(out@[np + m]@ == f);
                    },
                }
            }
        }
        assert forall|a: int, b: int| 0 <= a < out@.len() && 0 <= b < out@.len() && a != b implies out@[a]@
            != out@[b]@ by {
            if a < np && b < np {
                assert(pages@[a]@ != pages@[b]@);
            } else if a >= np && b >= np {
                assert(out@[np + (a - np)]@ == FindingView::Image(images@[a - np]@));
                assert(out@[np + (b - np)]@ == FindingView::Image(images@[b - np]@));
                assert(images@[a - np]@ != images@[b - np]@);
            } else if a < np {
                assert(out@[np + (b - np)]@ == FindingView::Image(images@[b - np]@));
            } else {
                assert(out@[np + (a - np)]@ == FindingView::Image(images@[a - np]@));
            }
        }
        out
    }
}

/// The work of a spider on a fetched page crawled at `depth`: resolves the
/// page's candidates against its site root and tags the pages found with
/// `depth + 1`.
pub fn process_page(page_url: &Link, raw: Aggregate, depth: u8) -> (r: Vec<Finding>)
    requires
        depth < 255,
    ensures
        finding_set(r@) == page_findings(page_url@, raw.page_links@, raw.image_links@, depth),
        distinct_findings(r@),
        forall|i: int| 0 <= i < r@.len() ==> (#[trigger] r@[i]@ is Page ==> r@[i]@->Page_1 == depth + 1),
        forall|i: int| 0 <= i < r@.len() ==> crate::link::followable(#[trigger] r@[i]@.link()),
{
    let root = site_root(page_url.text.as_str());
    let ghost pl = raw.page_links@;
    let ghost il = raw.image_links@;
    let r = raw.parse(&root, depth + 1);
    assert forall|i: int| 0 <= i < r@.len() implies (#[trigger] r@[i]@ is Page ==> r@[i]@->Page_1 == depth + 1)
        && crate::link::followable(r@[i]@.link()) by {
        assert(finding_set(r@).contains(r@[i]@));
    }
    r
}

} // verus!
