//! The archive: every finding the crawl has already taken in. It only grows.

use vstd::prelude::*;
use crate::finding::{distinct_findings, finding_set, holds_finding, Finding, FindingView};

verus! {

/// The findings already known to the crawl.
#[derive(Debug)]
pub struct Archive {
    seen: Vec<Finding>,
}

impl View for Archive {
    type V = Set<FindingView>;

    closed spec fn view(&self) -> Set<FindingView> {
        finding_set(self.seen@)
    }
}

/// What the difference operation returns: the findings of `new` that the
/// archive does not hold.
pub open spec fn fresh_findings(archive: Set<FindingView>, new: Set<FindingView>) -> Set<FindingView> {
    new.difference(archive)
}

/// The archive after taking in `new`.
pub open spec fn absorbed(archive: Set<FindingView>, new: Set<FindingView>) -> Set<FindingView> {
    archive.union(new)
}

/// Taking in the fresh findings of a set leaves none of it fresh: a second
/// difference with the same input is empty, so no finding is dispatched twice.
pub proof fn lemma_difference_idempotent(archive: Set<FindingView>, new: Set<FindingView>)
    ensures
        fresh_findings(absorbed(archive, fresh_findings(archive, new)), new) == Set::<FindingView>::empty(),
{
    assert(fresh_findings(absorbed(archive, fresh_findings(archive, new)), new) =~= Set::<
        FindingView,
    >::empty());
}

impl Archive {
    /// An empty archive.
    pub fn new() -> (r: Archive)
        ensures
            r@ == Set::<FindingView>::empty(),
    {
        let r = Archive { seen: Vec::new() };
        assert(r@ =~= Set::<FindingView>::empty());
        r
    }

    /// Whether the archive holds `f`.
    pub fn contains(&self, f: &Finding) -> (r: bool)
        ensures
            r == self@.contains(f@),
    {
        holds_finding(&self.seen, f)
    }

    /// Takes in every finding of `items`.
    pub fn insert_all(&mut self, items: &Vec<Finding>)
        ensures
            final(self)@ == absorbed(old(self)@, finding_set(items@)),
    {
        let mut i: usize = 0;
        while i < items.len()
            invariant
                i <= items@.len(),
                self@ == absorbed(old(self)@, finding_set(items@.take(i as int))),
            decreases items.len() - i,
        {
            let ghost prev = self.seen@;
            let ghost cur = items@.take(i as int);
            let ghost nxt = items@.take(i + 1);
            if !holds_finding(&self.seen, &items[i]) {
                self.seen.push(items[i].duplicate());
            }
            assert(self@ =~= absorbed(old(self)@, finding_set(nxt))) by {
                assert(nxt[i as int] == items@[i as int]);
                assert forall|f: FindingView| #[trigger] self@.contains(f) implies absorbed(
                    old(self)@,
                    finding_set(nxt),
                ).contains(f) by {
                    let m = choose|m: int| 0 <= m < self.seen@.len() && self.seen@[m]@ == f;
                    if m < prev.len() {
                        assert(finding_set(prev).contains(f));
                        if !old(self)@.contains(f) {
                            let k = choose|k: int| 0 <= k < i && cur[k]@ == f;
                            assert(nxt[k] == cur[k]);
                        }
                    }
                }
                assert forall|f: FindingView| absorbed(old(self)@, finding_set(nxt)).contains(
                    f,
                ) implies #[trigger] self@.contains(f) by {
                    if old(self)@.contains(f) {
                        assert(finding_set(prev).contains(f));
                        let m = choose|m: int| 0 <= m < prev.len() && prev[m]@ == f;
                        assert(self.seen@[m] == prev[m]);
                        assert(self.seen@[m]@ == f);
                    } else {
                        let k = choose|k: int| 0 <= k < i + 1 && nxt[k]@ == f;
                        if k < i {
                            assert(cur[k] == nxt[k]);
                            assert(finding_set(cur).contains(f));
                            assert(finding_set(prev).contains(f));
                            let m = choose|m: int| 0 <= m < prev.len() && prev[m]@ == f;
                            assert(self.seen@[m] == prev[m]);
                            assert(self.seen@[m]@ == f);
                        } else if finding_set(prev).contains(f) {
                            let m = choose|m: int| 0 <= m < prev.len() && prev[m]@ == f;
                            assert(self.seen@[m] == prev[m]);
                            assert(self.seen@[m]@ == f);
                        } else {
                            assert(self.seen@[prev.len() as int]@ == f);
                        }
                    }
                }
            }
            i = i + 1;
        }
        assert(items@.take(items@.len() as int) =~= items@);
    }

    /// The findings of `new` that the archive does not hold yet, each once.
    pub fn difference(&self, new: &Vec<Finding>) -> (r: Vec<Finding>)
        ensures
            finding_set(r@) == fresh_findings(self@, finding_set(new@)),
            distinct_findings(r@),
    {
        let mut out: Vec<Finding> = Vec::new();
        let mut i: usize = 0;
        while i < new.len()
            invariant
                i <= new@.len(),
                finding_set(out@) == fresh_findings(self@, finding_set(new@.take(i as int))),
                distinct_findings(out@),
            decreases new.len() - i,
        {
            let ghost prev = out@;
            let ghost cur = new@.take(i as int);
            let ghost nxt = new@.take(i + 1);
            let ghost fv = new@[i as int]@;
            if !self.contains(&new[i]) && !holds_finding(&out, &new[i]) {
                out.push(new[i].duplicate());
                assert(out@[prev.len() as int]@ == fv);
            }
            assert(finding_set(out@) =~= fresh_findings(self@, finding_set(nxt))) by {
                assert(nxt[i as int] == new@[i as int]);
                assert forall|f: FindingView| #[trigger] finding_set(out@).contains(f) implies fresh_findings(
                    self@,
                    finding_set(nxt),
                ).contains(f) by {
                    let m = choose|m: int| 0 <= m < out@.len() && out@[m]@ == f;
                    if m < prev.len() {
                        assert(finding_set(prev).contains(f));
                        let k = choose|k: int| 0 <= k < i && cur[k]@ == f;
                        assert(nxt[k] == cur[k]);
                    }
                }
                assert forall|f: FindingView| fresh_findings(self@, finding_set(nxt)).contains(
                    f,
                ) implies #[trigger] finding_set(out@).contains(f) by {
                    let k = choose|k: int| 0 <= k < i + 1 && nxt[k]@ == f;
                    if k < i {
                        assert(cur[k] == nxt[k]);
                        assert(finding_set(cur).contains(f));
                        assert(finding_set(prev).contains(f));
                        let m = choose|m: int| 0 <= m < prev.len() && prev[m]@ == f;
                        assert(out@[m] == prev[m]);
                    } else if finding_set(prev).contains(f) {
                        let m = choose|m: int| 0 <= m < prev.len() && prev[m]@ == f;
                        assert(out@[m] == prev[m]);
                    }
                }
            }
            i = i + 1;
        }
        assert(new@.take(new@.len() as int) =~= new@);
        out
    }
}

} // verus!
