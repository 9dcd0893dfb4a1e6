//! Findings: units of crawl work discovered on pages.

use vstd::prelude::*;
use crate::link::{Link, LinkView};

verus! {

/// A discovered unit of crawl work.
#[derive(Debug)]
pub enum Finding {
    /// A page to crawl, with the recursion depth it was found at.
    Page(Link, u8),
    /// A resource to download.
    Image(Link),
}

/// The mathematical value of a `Finding`.
pub enum FindingView {
    Page(LinkView, u8),
    Image(LinkView),
}

impl FindingView {
    /// The URL that the finding is about.
    pub open spec fn link(self) -> LinkView {
        match self {
            FindingView::Page(l, _) => l,
            FindingView::Image(l) => l,
        }
    }
}

impl View for Finding {
    type V = FindingView;

    open spec fn view(&self) -> FindingView {
        match self {
            Finding::Page(l, d) => FindingView::Page(l@, *d),
            Finding::Image(l) => FindingView::Image(l@),
        }
    }
}

/// The set of values that a sequence of findings holds.
pub open spec fn finding_set(s: Seq<Finding>) -> Set<FindingView> {
    Set::new(|f: FindingView| exists|i: int| 0 <= i < s.len() && s[i]@ == f)
}

/// No two findings of the sequence are equal.
pub open spec fn distinct_findings(s: Seq<Finding>) -> bool {
    forall|i: int, j: int| 0 <= i < s.len() && 0 <= j < s.len() && i != j ==> s[i]@ != s[j]@
}

impl Finding {
    /// The URL that the finding is about.
    pub fn link(&self) -> (r: &Link)
        ensures
            r@ == self@.link(),
    {
        match self {
            Finding::Page(l, _) => l,
            Finding::Image(l) => l,
        }
    }

    /// Whether the two findings are the same unit of work: the same kind,
    /// the same URL and, for pages, the same depth.
    pub fn same_as(&self, other: &Finding) -> (r: bool)
        ensures
            r == (self@ == other@),
    {
        match self {
            Finding::Page(a, d) => match other {
                Finding::Page(b, e) => *d == *e && a.same_as(b),
                Finding::Image(_) => false,
            },
            Finding::Image(a) => match other {
                Finding::Page(_, _) => false,
                Finding::Image(b) => a.same_as(b),
            },
        }
    }

    /// A copy of the finding.
    pub fn duplicate(&self) -> (r: Finding)
        ensures
            r@ == self@,
    {
        match self {
            Finding::Page(l, d) => Finding::Page(l.duplicate(), *d),
            Finding::Image(l) => Finding::Image(l.duplicate()),
        }
    }
}

/// Whether a finding equal to `f` stands in `v`.
pub fn holds_finding(v: &Vec<Finding>, f: &Finding) -> (r: bool)
    ensures
        r == finding_set(v@).contains(f@),
{
    let mut i: usize = 0;
    while i < v.len()
        invariant
            i <= v@.len(),
            forall|j: int| 0 <= j < i ==> v@[j]@ != f@,
        decreases v.len() - i,
    {
        if v[i].same_as(f) {
            return true;
        }
        i = i + 1;
    }
    false
}

} // verus!
