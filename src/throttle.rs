//! Per-host admission control: a count of in-flight visits for each host,
//! never above a fixed ceiling.

use vstd::prelude::*;

verus! {

/// The in-flight visit count of each host, and the ceiling it may reach.
pub struct HostThrottle {
    hosts: Vec<String>,
    visits: Vec<u32>,
    ceiling: u32,
    table: Ghost<Map<Seq<char>, nat>>,
}

impl View for HostThrottle {
    type V = Map<Seq<char>, nat>;

    closed spec fn view(&self) -> Map<Seq<char>, nat> {
        self.table@
    }
}

impl HostThrottle {
    /// The ceiling that no host's count exceeds.
    pub closed spec fn limit(&self) -> nat {
        self.ceiling as nat
    }

    /// The number of admitted visits to `h` not yet released.
    pub open spec fn in_flight(&self, h: Seq<char>) -> nat {
        if self@.contains_key(h) {
            self@[h]
        } else {
            0
        }
    }

    /// The table matches the stored counts, each host stands once, and no
    /// count exceeds the ceiling.
    pub closed spec fn wf(&self) -> bool {
        &&& self.hosts@.len() == self.visits@.len()
        &&& forall|i: int|
            0 <= i < self.hosts@.len() ==> self.table@.contains_key(#[trigger] self.hosts@[i]@)
                && self.table@[self.hosts@[i]@] == self.visits@[i] as nat
        &&& forall|h: Seq<char>|
            #[trigger] self.table@.contains_key(h) ==> exists|i: int|
                0 <= i < self.hosts@.len() && self.hosts@[i]@ == h
        &&& forall|i: int, j: int|
            0 <= i < self.hosts@.len() && 0 <= j < self.hosts@.len() && i != j ==> self.hosts@[i]@
                != self.hosts@[j]@
        &&& forall|h: Seq<char>| #[trigger] self.table@.contains_key(h) ==> self.table@[h] <= self.ceiling
    }

    /// A throttle with no visits, admitting up to `ceiling` visits per host.
    pub fn new(ceiling: u32) -> (r: HostThrottle)
        ensures
            r.wf(),
            r@ == Map::<Seq<char>, nat>::empty(),
            r.limit() == ceiling,
    {
        HostThrottle {
            hosts: Vec::new(),
            visits: Vec::new(),
            ceiling,
            table: Ghost(Map::empty()),
        }
    }

    /// The position of `host` among the stored hosts.
    fn find(&self, host: &str) -> (r: Option<usize>)
        requires
            self.wf(),
        ensures
            match r {
                Some(i) => i < self.hosts@.len() && self.hosts@[i as int]@ == host@,
                None => !self@.contains_key(host@),
            },
    {
        let mut i: usize = 0;
        while i < self.hosts.len()
            invariant
                i <= self.hosts@.len(),
                forall|j: int| 0 <= j < i ==> self.hosts@[j]@ != host@,
            decreases self.hosts.len() - i,
        {
            if self.hosts[i] == host.to_string() {
                return Some(i);
            }
            i = i + 1;
        }
        None
    }

    /// The number of admitted visits to `host` not yet released.
    pub fn visits(&self, host: &str) -> (r: u32)
        requires
            self.wf(),
        ensures
            r as nat == self.in_flight(host@),
    {
        match self.find(host) {
            Some(i) => self.visits[i],
            None => 0,
        }
    }

    /// Admits a visit to `host` when its count is below the ceiling, and
    /// counts it; otherwise changes nothing. A count therefore reaches the
    /// ceiling at most.
    pub fn try_admit(&mut self, host: &str) -> (r: bool)
        requires
            old(self).wf(),
        ensures
            final(self).wf(),
            final(self).limit() == old(self).limit(),
            r == (old(self).in_flight(host@) < old(self).limit()),
            r ==> final(self)@ == old(self)@.insert(host@, old(self).in_flight(host@) + 1),
            !r ==> final(self)@ == old(self)@,
    {
        match self.find(host) {
            Some(i) => {
                if self.visits[i] < self.ceiling {
                    let ghost old_table = self.table@;
                    let n = self.visits[i] + 1;
                    self.visits.set(i, n);
                    self.table = Ghost(self.table@.insert(host@, n as nat));
                    assert forall|h: Seq<char>| #[trigger] self.table@.contains_key(h) implies exists|
                        j: int,
                    | 0 <= j < self.hosts@.len() && self.hosts@[j]@ == h by {
                        if h == host@ {
                            assert(self.hosts@[i as int]@ == h);
                        } else {
                            assert(old_table.contains_key(h));
                        }
                    }
                    true
                } else {
                    false
                }
            },
            None => {
                if 0 < self.ceiling {
                    let ghost old_hosts = self.hosts@;
                    self.hosts.push(host.to_string());
                    self.visits.push(1);
                    self.table = Ghost(self.table@.insert(host@, 1));
                    assert forall|h: Seq<char>| #[trigger] self.table@.contains_key(h) implies exists|
                        j: int,
                    | 0 <= j < self.hosts@.len() && self.hosts@[j]@ == h by {
                        if h == host@ {
                            assert(self.hosts@[old_hosts.len() as int]@ == h);
                        } else {
                            let j = choose|j: int| 0 <= j < old_hosts.len() && old_hosts[j]@ == h;
                            assert(self.hosts@[j] == old_hosts[j]);
                        }
                    }
                    true
                } else {
                    false
                }
            },
        }
    }

    /// Releases one admitted visit to `host`.
    pub fn release(&mut self, host: &str)
        requires
            old(self).wf(),
            old(self).in_flight(host@) > 0,
        ensures
            final(self).wf(),
            final(self).limit() == old(self).limit(),
            final(self)@ == old(self)@.insert(host@, (old(self).in_flight(host@) - 1) as nat),
    {
        match self.find(host) {
            Some(i) => {
                let ghost old_table = self.table@;
                let n = self.visits[i] - 1;
                self.visits.set(i, n);
                self.table = Ghost(self.table@.insert(host@, n as nat));
                assert forall|h: Seq<char>| #[trigger] self.table@.contains_key(h) implies exists|
                    j: int,
                | 0 <= j < self.hosts@.len() && self.hosts@[j]@ == h by {
                    if h == host@ {
                        assert(self.hosts@[i as int]@ == h);
                    } else {
                        assert(old_table.contains_key(h));
                    }
                }
            },
            None => {},
        }
    }
}

/// No host's in-flight count exceeds the ceiling.
pub proof fn lemma_host_bound(t: &HostThrottle, h: Seq<char>)
    requires
        t.wf(),
    ensures
        t.in_flight(h) <= t.limit(),
{
}

} // verus!
