//! The crawl dispatcher as a state machine: a pass admits frontier findings
//! against the host throttle and hands out tasks; completed tasks release
//! their host and feed fresh findings back into the frontier. Whoever runs
//! the tasks drives it until it is drained.

use vstd::prelude::*;
use crate::archive::{absorbed, fresh_findings, Archive};
use crate::extract::{page_findings, process_page, Aggregate};
use crate::finding::{distinct_findings, finding_set, Finding, FindingView};
use crate::link::Link;
use crate::throttle::HostThrottle;

verus! {

/// The most visits to one host that may be in flight at once.
pub const HOST_VISIT_LIMIT: u32 = 256;

/// The recursion-depth limit when none is given.
pub const DEFAULT_RECURSION_DEPTH_LIMIT: u8 = 4;

/// A task handed out by an admission pass. The ticket names it when it
/// completes.
#[derive(Debug)]
pub enum Dispatch {
    /// Crawl the page `url`, found at `depth`.
    Spider { ticket: usize, url: Link, depth: u8 },
    /// Download the resource `url`.
    Fetch { ticket: usize, url: Link },
}

impl Dispatch {
    /// The ticket that names the task.
    pub open spec fn ticket_of(self) -> usize {
        match self {
            Dispatch::Spider { ticket, .. } => ticket,
            Dispatch::Fetch { ticket, .. } => ticket,
        }
    }

    /// The finding that the task works on.
    pub open spec fn finding_of(self) -> FindingView {
        match self {
            Dispatch::Spider { url, depth, .. } => FindingView::Page(url@, depth),
            Dispatch::Fetch { url, .. } => FindingView::Image(url@),
        }
    }
}

/// The number of entries of `s` that satisfy `p`.
pub open spec fn count_where(s: Seq<Option<FindingView>>, p: spec_fn(Option<FindingView>) -> bool) -> nat
    decreases s.len(),
{
    if s.len() == 0 {
        0
    } else {
        count_where(s.drop_last(), p) + if p(s.last()) {
            1nat
        } else {
            0nat
        }
    }
}

/// Whether a task slot holds a finding on host `h`.
pub open spec fn on_host(h: Seq<char>) -> spec_fn(Option<FindingView>) -> bool {
    |o: Option<FindingView>| o is Some && o->Some_0.link().host == Some(h)
}

/// Whether a task slot is taken.
pub open spec fn busy() -> spec_fn(Option<FindingView>) -> bool {
    |o: Option<FindingView>| o is Some
}

/// The number of outstanding tasks on host `h`.
pub open spec fn outstanding_on(tasks: Seq<Option<FindingView>>, h: Seq<char>) -> nat {
    count_where(tasks, on_host(h))
}

/// The number of outstanding tasks.
pub open spec fn outstanding(tasks: Seq<Option<FindingView>>) -> nat {
    count_where(tasks, busy())
}

/// Counting over a sequence with one more entry.
pub proof fn lemma_count_push(s: Seq<Option<FindingView>>, x: Option<FindingView>, p: spec_fn(Option<FindingView>) -> bool)
    ensures
        count_where(s.push(x), p) == count_where(s, p) + if p(x) {
            1nat
        } else {
            0nat
        },
{
    assert(s.push(x).drop_last() =~= s);
}

/// Counting over a sequence with one entry replaced.
pub proof fn lemma_count_update(
    s: Seq<Option<FindingView>>,
    i: int,
    x: Option<FindingView>,
    p: spec_fn(Option<FindingView>) -> bool,
)
    requires
        0 <= i < s.len(),
    ensures
        count_where(s.update(i, x), p) + (if p(s[i]) {
            1nat
        } else {
            0nat
        }) == count_where(s, p) + if p(x) {
            1nat
        } else {
            0nat
        },
    decreases s.len(),
{
    let t = s.update(i, x);
    if i == s.len() - 1 {
        assert(t.drop_last() =~= s.drop_last());
    } else {
        lemma_count_update(s.drop_last(), i, x, p);
        assert(t.drop_last() =~= s.drop_last().update(i, x));
    }
}

/// The in-flight count of `h` in a visit table.
pub open spec fn count_in(visits: Map<Seq<char>, nat>, h: Seq<char>) -> nat {
    if visits.contains_key(h) {
        visits[h]
    } else {
        0
    }
}

/// The outcome of an admission pass so far.
pub struct PassView {
    pub admitted: Seq<FindingView>,
    pub deferred: Seq<FindingView>,
    pub visits: Map<Seq<char>, nat>,
}

/// An admission pass over `pending`, in order, from the visit table
/// `visits`: a finding is admitted when its host's count is below the
/// ceiling, which counts the visit; otherwise it is deferred.
pub open spec fn admission(visits: Map<Seq<char>, nat>, ceiling: nat, pending: Seq<FindingView>) -> PassView
    decreases pending.len(),
{
    if pending.len() == 0 {
        PassView { admitted: Seq::empty(), deferred: Seq::empty(), visits }
    } else {
        let p = admission(visits, ceiling, pending.drop_last());
        let f = pending.last();
        let h = f.link().host->Some_0;
        let c = count_in(p.visits, h);
        if c < ceiling {
            PassView { admitted: p.admitted.push(f), deferred: p.deferred, visits: p.visits.insert(h, c + 1) }
        } else {
            PassView { admitted: p.admitted, deferred: p.deferred.push(f), visits: p.visits }
        }
    }
}

/// Every finding that a pass defers or admits comes from its input.
pub proof fn lemma_admission_from_pending(visits: Map<Seq<char>, nat>, ceiling: nat, pending: Seq<FindingView>)
    ensures
        forall|j: int| 0 <= j < admission(visits, ceiling, pending).deferred.len()
            ==> pending.contains(#[trigger] admission(visits, ceiling, pending).deferred[j]),
        forall|j: int| 0 <= j < admission(visits, ceiling, pending).admitted.len()
            ==> pending.contains(#[trigger] admission(visits, ceiling, pending).admitted[j]),
    decreases pending.len(),
{
    if pending.len() > 0 {
        let rest = pending.drop_last();
        lemma_admission_from_pending(visits, ceiling, rest);
        let p = admission(visits, ceiling, rest);
        let q = admission(visits, ceiling, pending);
        assert forall|j: int| 0 <= j < q.deferred.len() implies pending.contains(#[trigger] q.deferred[j]) by {
            if j < p.deferred.len() {
                assert(q.deferred[j] == p.deferred[j]);
                let k = choose|k: int| 0 <= k < rest.len() && rest[k] == p.deferred[j];
                assert(pending[k] == rest[k]);
            } else {
                assert(q.deferred[j] == pending[pending.len() - 1]);
            }
        }
        assert forall|j: int| 0 <= j < q.admitted.len() implies pending.contains(#[trigger] q.admitted[j]) by {
            if j < p.admitted.len() {
                assert(q.admitted[j] == p.admitted[j]);
                let k = choose|k: int| 0 <= k < rest.len() && rest[k] == p.admitted[j];
                assert(pending[k] == rest[k]);
            } else {
                assert(q.admitted[j] == pending[pending.len() - 1]);
            }
        }
    }
}

/// A pass admits and defers each of its findings exactly once.
pub proof fn lemma_admission_len(visits: Map<Seq<char>, nat>, ceiling: nat, pending: Seq<FindingView>)
    ensures
        admission(visits, ceiling, pending).admitted.len() + admission(visits, ceiling, pending).deferred.len()
            == pending.len(),
    decreases pending.len(),
{
    if pending.len() > 0 {
        lemma_admission_len(visits, ceiling, pending.drop_last());
    }
}

/// A pass admits at least as many findings as it admits from a prefix of
/// its input.
pub proof fn lemma_admission_prefix(visits: Map<Seq<char>, nat>, ceiling: nat, pending: Seq<FindingView>, n: int)
    requires
        0 <= n <= pending.len(),
    ensures
        admission(visits, ceiling, pending.take(n)).admitted.len() <= admission(visits, ceiling, pending).admitted.len(),
    decreases pending.len() - n,
{
    if n < pending.len() {
        lemma_admission_prefix(visits, ceiling, pending, n + 1);
        assert(pending.take(n + 1).drop_last() =~= pending.take(n));
    } else {
        assert(pending.take(n) =~= pending);
    }
}

/// No host has more outstanding tasks than there are outstanding tasks.
pub proof fn lemma_on_host_within_outstanding(tasks: Seq<Option<FindingView>>, h: Seq<char>)
    ensures
        outstanding_on(tasks, h) <= outstanding(tasks),
    decreases tasks.len(),
{
    if tasks.len() > 0 {
        lemma_on_host_within_outstanding(tasks.drop_last(), h);
    }
}

/// Taking in the fresh findings of a harvest inside a finite set `u`, and
/// requeueing some of them, lowers three times the unseen part of `u` by at
/// least twice the number requeued.
pub proof fn lemma_harvest_measure(
    u: Set<FindingView>,
    known: Set<FindingView>,
    found: Set<FindingView>,
    added: Seq<FindingView>,
    limit: u8,
)
    requires
        u.finite(),
        found.subset_of(u),
        added.to_set() == requeued_set(fresh_findings(known, found), limit),
        added.no_duplicates(),
    ensures
        3 * u.difference(absorbed(known, fresh_findings(known, found))).len() + 2 * added.len()
            <= 3 * u.difference(known).len(),
{
    let fresh = fresh_findings(known, found);
    let rest = u.difference(absorbed(known, fresh));
    vstd::set_lib::lemma_len_subset(fresh, u);
    vstd::set_lib::lemma_len_subset(rest, u);
    assert(u.difference(known) =~= rest + fresh);
    vstd::set_lib::lemma_set_disjoint_lens(rest, fresh);
    added.unique_seq_to_set();
    vstd::set_lib::lemma_len_subset(added.to_set(), fresh);
}

/// Whether a finding may wait in the frontier or run as a task: it has a
/// host, and a page is a seed or lies below the depth limit.
pub open spec fn placeable(f: FindingView, limit: u8) -> bool {
    &&& f.link().host is Some
    &&& f is Page ==> (f->Page_1 == 0 || f->Page_1 < limit)
}

/// Whether a fresh finding goes back into the frontier: every resource, and
/// the pages below the depth limit.
pub open spec fn requeued(f: FindingView, limit: u8) -> bool {
    f is Image || f->Page_1 < limit
}

/// The findings that a completed spider adds to the frontier.
pub open spec fn requeued_set(fresh: Set<FindingView>, limit: u8) -> Set<FindingView> {
    fresh.filter(|f: FindingView| requeued(f, limit))
}

/// The crawl's scheduling state.
pub struct Dispatcher {
    recursion_depth_limit: u8,
    archive: Archive,
    throttle: HostThrottle,
    frontier: Vec<Finding>,
    slots: Vec<Option<Finding>>,
}

/// The view of a task slot.
pub open spec fn slot_view(o: Option<Finding>) -> Option<FindingView> {
    match o {
        Some(f) => Some(f@),
        None => None,
    }
}

impl Dispatcher {
    /// The recursion-depth limit.
    pub closed spec fn depth_limit(&self) -> u8 {
        self.recursion_depth_limit
    }

    /// The findings already known.
    pub closed spec fn known(&self) -> Set<FindingView> {
        self.archive@
    }

    /// The findings waiting for admission, in order.
    pub closed spec fn pending(&self) -> Seq<FindingView> {
        self.frontier@.map_values(|f: Finding| f@)
    }

    /// The in-flight visit table.
    pub closed spec fn visits(&self) -> Map<Seq<char>, nat> {
        self.throttle@
    }

    /// The task slots: the finding of the outstanding task with each ticket.
    pub closed spec fn tasks(&self) -> Seq<Option<FindingView>> {
        self.slots@.map_values(|o: Option<Finding>| slot_view(o))
    }

    /// The finding of the outstanding task with ticket `t`, if any.
    pub open spec fn task(&self, t: int) -> Option<FindingView> {
        if 0 <= t < self.tasks().len() {
            self.tasks()[t]
        } else {
            None
        }
    }

    /// The in-flight count of host `h`.
    pub open spec fn in_flight(&self, h: Seq<char>) -> nat {
        count_in(self.visits(), h)
    }

    /// Whether nothing waits and nothing runs.
    pub open spec fn drained(&self) -> bool {
        self.pending().len() == 0 && outstanding(self.tasks()) == 0
    }

    /// A measure of the work left when every finding the crawl can meet lies
    /// in the finite set `u`: three for each finding of `u` not yet known,
    /// two for each waiting finding, one for each running task.
    pub open spec fn progress(&self, u: Set<FindingView>) -> nat {
        3 * u.difference(self.known()).len() + 2 * self.pending().len() + outstanding(self.tasks())
    }

    /// The findings that completing ticket `t` with `outcome` can yield.
    pub open spec fn harvest_yield(&self, t: int, outcome: Option<Aggregate>) -> Set<FindingView> {
        match outcome {
            Some(raw) => {
                let f = self.task(t)->Some_0;
                page_findings(f->Page_0, raw.page_links@, raw.image_links@, f->Page_1)
            },
            None => Set::empty(),
        }
    }

    /// The state's invariant: each host's in-flight count equals its number
    /// of outstanding tasks and stays within the ceiling; every waiting or
    /// running finding has a host, and its depth, for a page, is that of a
    /// seed or below the limit.
    pub closed spec fn wf(&self) -> bool {
        &&& self.throttle.wf()
        &&& self.throttle.limit() == HOST_VISIT_LIMIT as nat
        &&& forall|i: int| 0 <= i < self.pending().len() ==> placeable(#[trigger] self.pending()[i], self.recursion_depth_limit)
        &&& forall|t: int| 0 <= t < self.tasks().len() && (#[trigger] self.tasks()[t]) is Some
            ==> placeable(self.tasks()[t]->Some_0, self.recursion_depth_limit)
        &&& forall|h: Seq<char>| #[trigger] self.in_flight(h) == outstanding_on(self.tasks(), h)
    }

    /// A dispatcher whose frontier holds the seeds as pages at depth 0.
    pub fn new(seeds: &Vec<Link>, recursion_depth_limit: u8) -> (r: Dispatcher)
        requires
            forall|i: int| 0 <= i < seeds@.len() ==> (#[trigger] seeds@[i])@.host is Some,
        ensures
            r.wf(),
            r.depth_limit() == recursion_depth_limit,
            r.known() == Set::<FindingView>::empty(),
            r.pending() == seeds@.map_values(|l: Link| FindingView::Page(l@, 0)),
            r.tasks().len() == 0,
            r.visits() == Map::<Seq<char>, nat>::empty(),
    {
        let mut frontier: Vec<Finding> = Vec::new();
        let mut i: usize = 0;
        while i < seeds.len()
            invariant
                i <= seeds@.len(),
                frontier@.len() == i,
                forall|j: int| 0 <= j < i ==> (#[trigger] frontier@[j])@ == FindingView::Page(seeds@[j]@, 0),
            decreases seeds.len() - i,
        {
            frontier.push(Finding::Page(seeds[i].duplicate(), 0));
            i = i + 1;
        }
        let r = Dispatcher {
            recursion_depth_limit,
            archive: Archive::new(),
            throttle: HostThrottle::new(HOST_VISIT_LIMIT),
            frontier,
            slots: Vec::new(),
        };
        assert(r.pending() =~= seeds@.map_values(|l: Link| FindingView::Page(l@, 0)));
        assert(r.tasks() =~= Seq::<Option<FindingView>>::empty());
        r
    }

    /// Whether the frontier is empty and no task is outstanding.
    pub fn is_drained(&self) -> (r: bool)
        requires
            self.wf(),
        ensures
            r == self.drained(),
    {
        if self.frontier.len() > 0 {
            return false;
        }
        let mut t: usize = 0;
        while t < self.slots.len()
            invariant
                t <= self.slots@.len(),
                outstanding(self.tasks().take(t as int)) == 0,
            decreases self.slots.len() - t,
        {
            if self.slots[t].is_some() {
                proof {
                    assert(self.tasks().take(t + 1).drop_last() =~= self.tasks().take(t as int));
                    assert(outstanding(self.tasks().take(t + 1)) > 0);
                    self.lemma_outstanding_prefix(t + 1);
                }
                return false;
            }
            proof {
                assert(self.tasks().take(t + 1).drop_last() =~= self.tasks().take(t as int));
            }
            t = t + 1;
        }
        assert(self.tasks().take(t as int) =~= self.tasks());
        true
    }

    /// Puts `f` in a vacant task slot, the first one, or a new one at the end.
    fn place(&mut self, f: Finding) -> (t: usize)
        ensures
            t <= old(self).tasks().len(),
            t < old(self).tasks().len() ==> old(self).tasks()[t as int] is None,
            final(self).tasks() == if t < old(self).tasks().len() {
                old(self).tasks().update(t as int, Some(f@))
            } else {
                old(self).tasks().push(Some(f@))
            },
            final(self).recursion_depth_limit == old(self).recursion_depth_limit,
            final(self).archive == old(self).archive,
            final(self).throttle == old(self).throttle,
            final(self).frontier == old(self).frontier,
    {
        let ghost fv = f@;
        let mut t: usize = 0;
        while t < self.slots.len()
            invariant
                t <= self.slots@.len(),
                self.slots@ == old(self).slots@,
                fv == f@,
                self.recursion_depth_limit == old(self).recursion_depth_limit,
                self.archive == old(self).archive,
                self.throttle == old(self).throttle,
                self.frontier == old(self).frontier,
                forall|j: int| 0 <= j < t ==> (#[trigger] self.slots@[j]) is Some,
            decreases self.slots.len() - t,
        {
            if self.slots[t].is_none() {
                self.slots.set(t, Some(f));
                assert(self.slots@ == old(self).slots@.update(t as int, Some(f)));
                assert(self.tasks().len() == old(self).tasks().len());
                assert forall|j: int| 0 <= j < self.tasks().len() implies self.tasks()[j] == old(self).tasks().update(t as int, Some(fv))[j] by {
                    if j != t {
                        assert(self.slots@[j] == old(self).slots@[j]);
                        assert(self.tasks()[j] == slot_view(self.slots@[j]));
                        assert(old(self).tasks()[j] == slot_view(old(self).slots@[j]));
                    } else {
                        assert(self.slots@[j] == Some(f));
                        assert(self.tasks()[j] == slot_view(self.slots@[j]));
                    }
                }
                assert(self.tasks() =~= old(self).tasks().update(t as int, Some(fv)));
                return t;
            }
            t = t + 1;
        }
        self.slots.push(Some(f));
        assert(self.tasks() =~= old(self).tasks().push(Some(fv)));
        t
    }

    /// One admission pass: each frontier finding, in order, is admitted when
    /// its host is below the ceiling, and becomes a task; the others stay in
    /// the frontier for the next pass.
    pub fn admit_pass(&mut self) -> (r: Vec<Dispatch>)
        requires
            old(self).wf(),
        ensures
            final(self).wf(),
            final(self).depth_limit() == old(self).depth_limit(),
            final(self).known() == old(self).known(),
            r@.map_values(|d: Dispatch| d.finding_of()) == admission(
                old(self).visits(),
                HOST_VISIT_LIMIT as nat,
                old(self).pending(),
            ).admitted,
            final(self).pending() == admission(
                old(self).visits(),
                HOST_VISIT_LIMIT as nat,
                old(self).pending(),
            ).deferred,
            final(self).visits() == admission(
                old(self).visits(),
                HOST_VISIT_LIMIT as nat,
                old(self).pending(),
            ).visits,
            forall|k: int| 0 <= k < r@.len() ==> final(self).task(#[trigger] r@[k].ticket_of() as int) == Some(r@[k].finding_of()),
            forall|k: int, l: int| 0 <= k < r@.len() && 0 <= l < r@.len() && k != l ==> #[trigger] r@[k].ticket_of() != #[trigger] r@[l].ticket_of(),
            forall|t: int| #[trigger] old(self).task(t) is Some ==> final(self).task(t) == old(self).task(t),
            outstanding(final(self).tasks()) == outstanding(old(self).tasks()) + r@.len(),
            forall|u: Set<FindingView>| #[trigger] final(self).progress(u) + r@.len() == old(self).progress(u),
            old(self).pending().len() > 0 && outstanding(old(self).tasks()) == 0 ==> r@.len() > 0,
    {
        proof {
            if self.pending().len() > 0 && outstanding(self.tasks()) == 0 {
                lemma_pass_admits(self);
            }
        }
        let ghost pend = self.pending();
        let ghost v0 = self.visits();
        let ghost c = HOST_VISIT_LIMIT as nat;
        let ghost limit = self.recursion_depth_limit;
        let mut queue: Vec<Finding> = Vec::new();
        std::mem::swap(&mut queue, &mut self.frontier);
        assert(queue@.map_values(|f: Finding| f@) == pend);
        assert(self.pending() =~= Seq::<FindingView>::empty());
        assert(self.tasks() == old(self).tasks());
        assert forall|h: Seq<char>| #[trigger] self.in_flight(h) == outstanding_on(self.tasks(), h) by {
            assert(old(self).in_flight(h) == outstanding_on(old(self).tasks(), h));
        }
        let mut remaining: Vec<Finding> = Vec::new();
        let mut out: Vec<Dispatch> = Vec::new();
        let mut i: usize = 0;
        while i < queue.len()
            invariant
                i <= queue@.len(),
                queue@.map_values(|f: Finding| f@) == pend,
                pend.len() == queue@.len(),
                c == HOST_VISIT_LIMIT as nat,
                limit == self.recursion_depth_limit,
                limit == old(self).recursion_depth_limit,
                forall|j: int| 0 <= j < pend.len() ==> placeable(#[trigger] pend[j], limit),
                self.frontier@.len() == 0,
                self.archive == old(self).archive,
                self.throttle.wf(),
                self.throttle.limit() == c,
                self.visits() == admission(v0, c, pend.take(i as int)).visits,
                remaining@.map_values(|f: Finding| f@) == admission(v0, c, pend.take(i as int)).deferred,
                out@.map_values(|d: Dispatch| d.finding_of()) == admission(v0, c, pend.take(i as int)).admitted,
                forall|t: int| 0 <= t < self.tasks().len() && (#[trigger] self.tasks()[t]) is Some
                    ==> placeable(self.tasks()[t]->Some_0, limit),
                forall|h: Seq<char>| #[trigger] self.in_flight(h) == outstanding_on(self.tasks(), h),
                forall|k: int| 0 <= k < out@.len() ==> self.task(#[trigger] out@[k].ticket_of() as int) == Some(out@[k].finding_of()),
                forall|k: int, l: int| 0 <= k < out@.len() && 0 <= l < out@.len() && k != l ==> #[trigger] out@[k].ticket_of() != #[trigger] out@[l].ticket_of(),
                forall|t: int| #[trigger] old(self).task(t) is Some ==> self.task(t) == old(self).task(t),
                outstanding(self.tasks()) == outstanding(old(self).tasks()) + out@.len(),
            decreases queue.len() - i,
        {
            let ghost p = admission(v0, c, pend.take(i as int));
            let ghost fv = queue@[i as int]@;
            let ghost tasks0 = self.tasks();
            let ghost out0 = out@;
            let ghost rem0 = remaining@;
            let ghost visits0 = self.visits();
            proof {
                assert forall|g: Seq<char>| count_in(visits0, g) == outstanding_on(tasks0, g) by {
                    assert(self.in_flight(g) == outstanding_on(self.tasks(), g));
                }
                assert(pend.take(i + 1).drop_last() =~= pend.take(i as int));
                assert(pend[i as int] == fv);
                assert(placeable(fv, limit));
            }
            let link = queue[i].link();
            match &link.host {
                Some(h) => {
                    if self.throttle.try_admit(h.as_str()) {
                        let t = self.place(queue[i].duplicate());
                        let d = match &queue[i] {
                            Finding::Page(u, dep) => Dispatch::Spider { ticket: t, url: u.duplicate(), depth: *dep },
                            Finding::Image(u) => Dispatch::Fetch { ticket: t, url: u.duplicate() },
                        };
                        out.push(d);
                        proof {
                            assert forall|g: Seq<char>| #[trigger] self.in_flight(g) == outstanding_on(self.tasks(), g) by {
                                assert(count_in(visits0, g) == outstanding_on(tasks0, g));
                                if t < tasks0.len() {
                                    lemma_count_update(tasks0, t as int, Some(fv), on_host(g));
                                } else {
                                    lemma_count_push(tasks0, Some(fv), on_host(g));
                                }
                            }
                            if t < tasks0.len() {
                                lemma_count_update(tasks0, t as int, Some(fv), busy());
                            } else {
                                lemma_count_push(tasks0, Some(fv), busy());
                            }
                            assert(out@.map_values(|d: Dispatch| d.finding_of()) =~= out0.map_values(|d: Dispatch| d.finding_of()).push(fv));
                            assert forall|k: int| 0 <= k < out@.len() implies self.task(#[trigger] out@[k].ticket_of() as int) == Some(out@[k].finding_of()) by {
                                if k < out0.len() {
                                    assert(out@[k] == out0[k]);
                                    assert(out0[k].ticket_of() != t) by {
                                        assert(tasks0[out0[k].ticket_of() as int] is Some);
                                    }
                                }
                            }
                            assert forall|k: int, l: int| 0 <= k < out@.len() && 0 <= l < out@.len() && k != l implies #[trigger] out@[k].ticket_of() != #[trigger] out@[l].ticket_of() by {
                                if k < out0.len() && l < out0.len() {
                                    assert(out@[k] == out0[k]);
                                    assert(out@[l] == out0[l]);
                                } else if k < out0.len() {
                                    assert(out@[k] == out0[k]);
                                    assert(tasks0[out0[k].ticket_of() as int] is Some);
                                } else {
                                    assert(out@[l] == out0[l]);
                                    assert(tasks0[out0[l].ticket_of() as int] is Some);
                                }
                            }
                        }
                    } else {
                        remaining.push(queue[i].duplicate());
                        proof {
                            assert(remaining@.map_values(|f: Finding| f@) =~= rem0.map_values(|f: Finding| f@).push(fv));
                        }
                    }
                },
                None => {
                    remaining.push(queue[i].duplicate());
                },
            }
            i = i + 1;
        }
        proof {
            assert(pend.take(i as int) =~= pend);
            lemma_admission_len(v0, c, pend);
            assert(out@.len() == out@.map_values(|d: Dispatch| d.finding_of()).len());
        }
        let ghost tasks_end = self.tasks();
        let ghost visits_end = self.visits();
        assert forall|g: Seq<char>| count_in(visits_end, g) == outstanding_on(tasks_end, g) by {
            assert(self.in_flight(g) == outstanding_on(self.tasks(), g));
        }
        self.frontier = remaining;
        assert(self.tasks() == tasks_end);
        assert(self.visits() == visits_end);
        assert forall|g: Seq<char>| #[trigger] self.in_flight(g) == outstanding_on(self.tasks(), g) by {
            assert(count_in(visits_end, g) == outstanding_on(tasks_end, g));
        }
        proof {
            lemma_admission_from_pending(v0, c, pend);
            assert forall|j: int| 0 <= j < self.pending().len() implies placeable(#[trigger] self.pending()[j], limit) by {
                assert(pend.contains(self.pending()[j]));
            }
            assert(self.known() == old(self).known());
            assert(self.pending().len() + out@.len() == old(self).pending().len());
        }
        out
    }

    /// Frees the slot of the task with ticket `ticket`, which runs on host
    /// `h`, and releases one visit to `h`.
    fn retire(&mut self, ticket: usize, h: &str)
        requires
            old(self).wf(),
            old(self).task(ticket as int) is Some,
            old(self).task(ticket as int)->Some_0.link().host == Some(h@),
        ensures
            final(self).tasks() == old(self).tasks().update(ticket as int, None),
            final(self).visits() == old(self).visits().insert(h@, (count_in(old(self).visits(), h@) - 1) as nat),
            outstanding(final(self).tasks()) + 1 == outstanding(old(self).tasks()),
            final(self).throttle.wf(),
            final(self).throttle.limit() == old(self).throttle.limit(),
            final(self).recursion_depth_limit == old(self).recursion_depth_limit,
            final(self).archive == old(self).archive,
            final(self).frontier == old(self).frontier,
            forall|g: Seq<char>| #[trigger] final(self).in_flight(g) == outstanding_on(final(self).tasks(), g),
            forall|t: int| 0 <= t < final(self).tasks().len() && (#[trigger] final(self).tasks()[t]) is Some
                ==> placeable(final(self).tasks()[t]->Some_0, final(self).recursion_depth_limit),
    {
        let ghost tasks0 = self.tasks();
        let ghost visits0 = self.visits();
        proof {
            assert forall|g: Seq<char>| count_in(visits0, g) == outstanding_on(tasks0, g) by {
                assert(self.in_flight(g) == outstanding_on(self.tasks(), g));
            }
            lemma_count_update(tasks0, ticket as int, None, on_host(h@));
            lemma_count_update(tasks0, ticket as int, None, busy());
            assert(self.throttle.in_flight(h@) == count_in(visits0, h@));
        }
        self.slots.set(ticket as usize, None);
        self.throttle.release(h);
        assert(self.tasks() =~= tasks0.update(ticket as int, None)) by {
            assert forall|j: int| 0 <= j < self.tasks().len() implies self.tasks()[j] == tasks0.update(ticket as int, None)[j] by {
                assert(self.tasks()[j] == slot_view(self.slots@[j]));
                if j != ticket {
                    assert(tasks0[j] == slot_view(old(self).slots@[j]));
                }
            }
        }
        assert forall|g: Seq<char>| #[trigger] self.in_flight(g) == outstanding_on(self.tasks(), g) by {
            assert(count_in(visits0, g) == outstanding_on(tasks0, g));
            lemma_count_update(tasks0, ticket as int, None, on_host(g));
        }
        assert forall|t: int| 0 <= t < self.tasks().len() && (#[trigger] self.tasks()[t]) is Some
            implies placeable(self.tasks()[t]->Some_0, self.recursion_depth_limit) by {
            assert(tasks0[t] is Some);
            assert(old(self).tasks()[t] is Some);
        }
    }

    /// Records the end of the spider with ticket `ticket`, if such a spider
    /// is outstanding: its host is released whatever the outcome. When the
    /// page was fetched, its candidates are resolved into findings at the
    /// next depth; those the archive does not hold are taken into it, and
    /// the resources among them, with the pages below the depth limit, join
    /// the frontier. Returns whether such a spider was outstanding.
    pub fn complete_spider(&mut self, ticket: usize, outcome: Option<Aggregate>) -> (r: bool)
        requires
            old(self).wf(),
        ensures
            final(self).wf(),
            final(self).depth_limit() == old(self).depth_limit(),
            r == (old(self).task(ticket as int) is Some && old(self).task(ticket as int)->Some_0 is Page),
            !r ==> final(self).known() == old(self).known() && final(self).pending() == old(self).pending()
                && final(self).tasks() == old(self).tasks() && final(self).visits() == old(self).visits(),
            r ==> final(self).tasks() == old(self).tasks().update(ticket as int, None),
            r ==> outstanding(final(self).tasks()) + 1 == outstanding(old(self).tasks()),
            r ==> ({
                let h = old(self).task(ticket as int)->Some_0.link().host->Some_0;
                final(self).visits() == old(self).visits().insert(h, (count_in(old(self).visits(), h) - 1) as nat)
            }),
            r && outcome is None ==> final(self).known() == old(self).known() && final(self).pending() == old(self).pending(),
            r && outcome is Some ==> ({
                let f = old(self).task(ticket as int)->Some_0;
                let raw = outcome->Some_0;
                let fresh = fresh_findings(
                    old(self).known(),
                    page_findings(f->Page_0, raw.page_links@, raw.image_links@, f->Page_1),
                );
                let added = final(self).pending().skip(old(self).pending().len() as int);
                &&& final(self).known() == absorbed(old(self).known(), fresh)
                &&& old(self).pending().len() <= final(self).pending().len()
                &&& final(self).pending().take(old(self).pending().len() as int) == old(self).pending()
                &&& added.to_set() == requeued_set(fresh, old(self).depth_limit())
                &&& added.no_duplicates()
            }),
            r ==> forall|u: Set<FindingView>| u.finite() && old(self).harvest_yield(ticket as int, outcome).subset_of(u)
                ==> #[trigger] final(self).progress(u) < old(self).progress(u),
    {
        if ticket >= self.slots.len() {
            return false;
        }
        let ghost slot = self.slots@[ticket as int];
        assert(self.tasks()[ticket as int] == slot_view(slot));
        let (url, depth) = match &self.slots[ticket] {
            Some(Finding::Page(u, d)) => (u.duplicate(), *d),
            _ => {
                return false;
            },
        };
        let ghost fv = FindingView::Page(url@, depth);
        let ghost pend0 = self.pending();
        let ghost known0 = self.known();
        let ghost limit = self.recursion_depth_limit;
        assert(placeable(fv, limit));
        match &url.host {
            Some(h) => self.retire(ticket, h.as_str()),
            None => {},
        }
        assert(self.pending() == pend0);
        let ghost tasks1 = self.tasks();
        let ghost visits1 = self.visits();
        assert forall|g: Seq<char>| count_in(visits1, g) == outstanding_on(tasks1, g) by {
            assert(self.in_flight(g) == outstanding_on(self.tasks(), g));
        }
        match outcome {
            Some(raw) => {
                let found = process_page(&url, raw, depth);
                let fresh = self.archive.difference(&found);
                self.archive.insert_all(&fresh);
                let ghost slots1 = self.slots;
                let ghost throttle1 = self.throttle;
                let ghost archive1 = self.archive;
                let ghost fresh_set = fresh_findings(known0, finding_set(found@));
                let ghost idx: Seq<int> = Seq::empty();
                let mut k: usize = 0;
                while k < fresh.len()
                    invariant
                        k <= fresh@.len(),
                        limit == self.recursion_depth_limit,
                        self.slots == slots1,
                        self.throttle == throttle1,
                        self.archive == archive1,
                        depth < 255,
                        finding_set(fresh@) == fresh_set,
                        distinct_findings(fresh@),
                        forall|i: int| 0 <= i < found@.len() ==> (#[trigger] found@[i]@ is Page ==> found@[i]@->Page_1 == depth + 1),
                        forall|i: int| 0 <= i < found@.len() ==> crate::link::followable(#[trigger] found@[i]@.link()),
                        fresh_set.subset_of(finding_set(found@)),
                        self.pending().len() == pend0.len() + idx.len(),
                        self.pending().take(pend0.len() as int) == pend0,
                        forall|m: int| 0 <= m < idx.len() ==> 0 <= #[trigger] idx[m] < k
                            && self.pending()[pend0.len() + m] == fresh@[idx[m]]@
                            && requeued(fresh@[idx[m]]@, limit),
                        forall|m: int, n: int| 0 <= m < n < idx.len() ==> #[trigger] idx[m] < #[trigger] idx[n],
                        forall|j: int| 0 <= j < k && requeued(#[trigger] fresh@[j]@, limit) ==> exists|m: int| 0 <= m < idx.len() && idx[m] == j,
                        forall|i: int| 0 <= i < self.pending().len() ==> placeable(#[trigger] self.pending()[i], limit),
                    decreases fresh.len() - k,
                {
                    let keep = match &fresh[k] {
                        Finding::Page(_, d) => *d < self.recursion_depth_limit,
                        Finding::Image(_) => true,
                    };
                    if keep {
                        let ghost p0 = self.pending();
                        proof {
                            assert(fresh_set.contains(fresh@[k as int]@));
                            assert(finding_set(found@).contains(fresh@[k as int]@));
                        }
                        self.frontier.push(fresh[k].duplicate());
                        proof {
                            assert(self.pending() =~= p0.push(fresh@[k as int]@));
                            let idx0 = idx;
                            idx = idx.push(k as int);
                            assert(idx[idx.len() - 1] == k);
                            assert forall|j: int| 0 <= j < k + 1 && requeued(#[trigger] fresh@[j]@, limit) implies exists|m: int| 0 <= m < idx.len() && idx[m] == j by {
                                if j < k {
                                    let m = choose|m: int| 0 <= m < idx0.len() && idx0[m] == j;
                                    assert(idx[m] == idx0[m]);
                                } else {
                                    assert(idx[idx.len() - 1] == j);
                                }
                            }
                        }
                    } else {
                        assert(!requeued(fresh@[k as int]@, limit));
                    }
                    k = k + 1;
                }
                proof {
                    let added = self.pending().skip(pend0.len() as int);
                    assert forall|x: FindingView| added.to_set().contains(x) implies requeued_set(fresh_set, limit).contains(x) by {
                        let m = choose|m: int| 0 <= m < added.len() && added[m] == x;
                        assert(added[m] == self.pending()[pend0.len() + m]);
                        assert(finding_set(fresh@).contains(fresh@[idx[m]]@));
                    }
                    assert forall|x: FindingView| requeued_set(fresh_set, limit).contains(x) implies added.to_set().contains(x) by {
                        assert(finding_set(fresh@).contains(x));
                        let j = choose|j: int| 0 <= j < fresh@.len() && fresh@[j]@ == x;
                        let m = choose|m: int| 0 <= m < idx.len() && idx[m] == j;
                        assert(added[m] == self.pending()[pend0.len() + m]);
                    }
                    assert(added.to_set() =~= requeued_set(fresh_set, limit));
                    assert(self.tasks() == tasks1);
                    assert(self.visits() == visits1);
                    assert forall|g: Seq<char>| #[trigger] self.in_flight(g) == outstanding_on(self.tasks(), g) by {
                        assert(count_in(visits1, g) == outstanding_on(tasks1, g));
                    }
                    assert forall|a: int, b: int| 0 <= a < added.len() && 0 <= b < added.len() && a != b implies added[a] != added[b] by {
                        assert(added[a] == self.pending()[pend0.len() + a]);
                        assert(added[b] == self.pending()[pend0.len() + b]);
                        if a < b {
                            assert(idx[a] < idx[b]);
                        } else {
                            assert(idx[b] < idx[a]);
                        }
                    }
                    assert(self.known() == absorbed(known0, fresh_set));
                    assert forall|u: Set<FindingView>| u.finite() && old(self).harvest_yield(ticket as int, Some(raw)).subset_of(u)
                        implies #[trigger] self.progress(u) < old(self).progress(u) by {
                        lemma_harvest_measure(u, known0, finding_set(found@), added, limit);
                    }
                }
            },
            None => {
                assert(self.known() == known0);
            },
        }
        true
    }

    /// Records the end of the fetch with ticket `ticket`, if such a fetch is
    /// outstanding: its host is released, whether the download succeeded or
    /// not. Returns whether such a fetch was outstanding.
    pub fn complete_fetch(&mut self, ticket: usize) -> (r: bool)
        requires
            old(self).wf(),
        ensures
            final(self).wf(),
            final(self).depth_limit() == old(self).depth_limit(),
            final(self).known() == old(self).known(),
            final(self).pending() == old(self).pending(),
            r == (old(self).task(ticket as int) is Some && old(self).task(ticket as int)->Some_0 is Image),
            !r ==> final(self).tasks() == old(self).tasks() && final(self).visits() == old(self).visits(),
            r ==> final(self).tasks() == old(self).tasks().update(ticket as int, None),
            r ==> outstanding(final(self).tasks()) + 1 == outstanding(old(self).tasks()),
            r ==> ({
                let h = old(self).task(ticket as int)->Some_0.link().host->Some_0;
                final(self).visits() == old(self).visits().insert(h, (count_in(old(self).visits(), h) - 1) as nat)
            }),
            r ==> forall|u: Set<FindingView>| #[trigger] final(self).progress(u) + 1 == old(self).progress(u),
    {
        if ticket >= self.slots.len() {
            return false;
        }
        let ghost slot = self.slots@[ticket as int];
        assert(self.tasks()[ticket as int] == slot_view(slot));
        let url = match &self.slots[ticket] {
            Some(Finding::Image(u)) => u.duplicate(),
            _ => {
                return false;
            },
        };
        match &url.host {
            Some(h) => self.retire(ticket, h.as_str()),
            None => {},
        }
        assert(self.pending() == old(self).pending());
        assert(self.known() == old(self).known());
        true
    }

    /// Whether the crawl already knows `f`.
    pub fn knows(&self, f: &Finding) -> (r: bool)
        ensures
            r == self.known().contains(f@),
    {
        self.archive.contains(f)
    }

    /// The number of findings waiting for admission.
    pub fn waiting(&self) -> (r: usize)
        ensures
            r == self.pending().len(),
    {
        self.frontier.len()
    }

    proof fn lemma_outstanding_prefix(&self, n: int)
        requires
            0 <= n <= self.tasks().len(),
        ensures
            outstanding(self.tasks().take(n)) <= outstanding(self.tasks()),
        decreases self.tasks().len() - n,
    {
        if n < self.tasks().len() {
            self.lemma_outstanding_prefix(n + 1);
            assert(self.tasks().take(n + 1).drop_last() =~= self.tasks().take(n));
        } else {
            assert(self.tasks().take(n) =~= self.tasks());
        }
    }
}

/// Every host's in-flight count stays within the ceiling.
pub proof fn lemma_host_bound_held(d: &Dispatcher, h: Seq<char>)
    requires
        d.wf(),
    ensures
        d.in_flight(h) <= HOST_VISIT_LIMIT,
{
    crate::throttle::lemma_host_bound(&d.throttle, h);
}

/// Each admitted visit is matched by exactly one outstanding task until that
/// task's completion releases it, whatever its outcome: a host's in-flight
/// count is its number of outstanding tasks, and none is left once the crawl
/// is drained.
pub proof fn lemma_release_symmetry(d: &Dispatcher, h: Seq<char>)
    requires
        d.wf(),
    ensures
        d.in_flight(h) == outstanding_on(d.tasks(), h),
        d.drained() ==> d.in_flight(h) == 0,
{
    lemma_on_host_within_outstanding(d.tasks(), h);
}

/// A waiting page is a seed or lies below the depth limit.
pub proof fn lemma_pending_depths(d: &Dispatcher)
    requires
        d.wf(),
    ensures
        forall|i: int| 0 <= i < d.pending().len() && (#[trigger] d.pending()[i]) is Page
            ==> d.pending()[i]->Page_1 == 0 || d.pending()[i]->Page_1 < d.depth_limit(),
{
    assert forall|i: int| 0 <= i < d.pending().len() && (#[trigger] d.pending()[i]) is Page
        implies d.pending()[i]->Page_1 == 0 || d.pending()[i]->Page_1 < d.depth_limit() by {
        assert(placeable(d.pending()[i], d.depth_limit()));
    }
}

/// No page at or beyond the depth limit is requeued.
pub proof fn lemma_requeued_below_limit(fresh: Set<FindingView>, limit: u8)
    ensures
        forall|f: FindingView| #[trigger] requeued_set(fresh, limit).contains(f) && f is Page ==> f->Page_1 < limit,
{
}

/// With nothing outstanding and something waiting, a pass admits at least
/// one finding: every host is then at zero.
pub proof fn lemma_pass_admits(d: &Dispatcher)
    requires
        d.wf(),
        d.pending().len() > 0,
        outstanding(d.tasks()) == 0,
    ensures
        admission(d.visits(), HOST_VISIT_LIMIT as nat, d.pending()).admitted.len() > 0,
{
    let pend = d.pending();
    let h = pend[0].link().host->Some_0;
    assert(d.in_flight(h) == outstanding_on(d.tasks(), h));
    lemma_on_host_within_outstanding(d.tasks(), h);
    assert(pend.take(1).drop_last() =~= Seq::<FindingView>::empty());
    assert(pend.take(1).last() == pend[0]);
    let p0 = admission(d.visits(), HOST_VISIT_LIMIT as nat, Seq::<FindingView>::empty());
    assert(p0.admitted.len() == 0 && p0.visits == d.visits());
    assert(count_in(d.visits(), h) == 0);
    assert(admission(d.visits(), HOST_VISIT_LIMIT as nat, pend.take(1)).admitted.len() == 1);
    lemma_admission_prefix(d.visits(), HOST_VISIT_LIMIT as nat, pend, 1);
}

/// Termination: when every finding the crawl can meet lies in a finite set
/// `u`, the measure `progress(u)` is a natural number that an admission pass
/// lowers by the number it admits, that every completed task lowers by at
/// least one, and that is positive until the crawl is drained. A pass that
/// starts with nothing outstanding admits something unless the frontier is
/// empty, so a crawl whose passes each wait for their tasks drains within
/// `progress(u)` passes.
pub proof fn lemma_progress_until_drained(d: &Dispatcher, u: Set<FindingView>)
    requires
        d.wf(),
    ensures
        !d.drained() ==> d.progress(u) > 0,
        d.pending().len() > 0 && outstanding(d.tasks()) == 0 ==> admission(
            d.visits(),
            HOST_VISIT_LIMIT as nat,
            d.pending(),
        ).admitted.len() > 0,
{
    if d.pending().len() > 0 && outstanding(d.tasks()) == 0 {
        lemma_pass_admits(d);
    }
}

} // verus!
