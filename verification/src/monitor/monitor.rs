use vstd::prelude::*;
use vstd::string::StringExecFns;

verus! {

/// One measurement: when it was taken and what it says.
pub struct Metrics {
    pub ts: u64,
    pub content: String,
}

/// What a thread of the engine does.
#[derive(Debug, Clone, Copy, PartialEq, Eq, Structural)]
pub enum ThreadRole {
    EXECUTOR,
    CONSTRUCTOR,
    MONITOR,
    VNF,
}

/// The measurements and counters of one thread.  Each thread writes its
/// own; the monitor reads them.
pub struct ThreadLogger {
    role: ThreadRole,
    logs: Vec<Metrics>,
    written: usize,
    names: Vec<String>,
    counts: Vec<i32>,
}

/// The position of the counter `name` among `names`.
pub open spec fn counter_index(names: Seq<String>, name: Seq<char>) -> Option<int> {
    names.map_values(|s: String| s@).index_of_first(name)
}

impl ThreadLogger {
    /// Every counter has a count.
    pub closed spec fn wf(&self) -> bool {
        self.names@.len() == self.counts@.len() && self.written <= self.logs@.len()
    }

    pub closed spec fn role(&self) -> ThreadRole {
        self.role
    }

    /// The measurements taken so far.
    pub closed spec fn history(&self) -> Seq<Metrics> {
        self.logs@
    }

    /// The number of measurements that were written out.
    pub closed spec fn written(&self) -> usize {
        self.written
    }

    /// The names of the counters.
    pub closed spec fn names(&self) -> Seq<Seq<char>> {
        self.names@.map_values(|s: String| s@)
    }

    /// The counts, in the order of the names.
    pub closed spec fn counts(&self) -> Seq<i32> {
        self.counts@
    }

    /// The count of the counter `name`, if the thread has that counter.
    pub closed spec fn counter(&self, name: Seq<char>) -> Option<i32> {
        match counter_index(self.names@, name) {
            Some(i) => Some(self.counts@[i]),
            None => None,
        }
    }

    /// The logger of a worker, which counts the events it accepts and
    /// aborts.
    pub fn new_worker() -> (r: Self)
        ensures
            r.wf(),
            r.role() == ThreadRole::EXECUTOR,
            r.history().len() == 0,
            r.written() == 0,
            r.names() == seq!["evnode.accept"@, "evnode.abort"@],
            forall|name: Seq<char>|
                r.counter(name) == if r.names().contains(name) {
                    Some(0i32)
                } else {
                    None
                },
    {
        let mut names: Vec<String> = Vec::new();
        names.push(String::from_str("evnode.accept"));
        names.push(String::from_str("evnode.abort"));
        let mut counts: Vec<i32> = Vec::new();
        counts.push(0);
        counts.push(0);
        let r = ThreadLogger {
            role: ThreadRole::EXECUTOR,
            logs: Vec::with_capacity(100000),
            written: 0,
            names,
            counts,
        };
        proof {
            assert(r.names() =~= seq!["evnode.accept"@, "evnode.abort"@]);
            r.lemma_fresh_counters();
        }
        r
    }

    /// The logger of the construct thread, which counts the events it
    /// starts and queues, and the races it loses.
    pub fn new_constructor() -> (r: Self)
        ensures
            r.wf(),
            r.role() == ThreadRole::CONSTRUCTOR,
            r.history().len() == 0,
            r.written() == 0,
            r.names() == seq![
                "evnode.let_occupy"@,
                "evnode.enqueue"@,
                "rare_condition.claimed_when_counting."@,
            ],
            forall|name: Seq<char>|
                r.counter(name) == if r.names().contains(name) {
                    Some(0i32)
                } else {
                    None
                },
    {
        let mut names: Vec<String> = Vec::new();
        names.push(String::from_str("evnode.let_occupy"));
        names.push(String::from_str("evnode.enqueue"));
        names.push(String::from_str("rare_condition.claimed_when_counting."));
        let mut counts: Vec<i32> = Vec::new();
        counts.push(0);
        counts.push(0);
        counts.push(0);
        let r = ThreadLogger {
            role: ThreadRole::CONSTRUCTOR,
            logs: Vec::with_capacity(100000),
            written: 0,
            names,
            counts,
        };
        proof {
            assert(r.names() =~= seq![
                "evnode.let_occupy"@,
                "evnode.enqueue"@,
                "rare_condition.claimed_when_counting."@,
            ]);
            r.lemma_fresh_counters();
        }
        r
    }

    /// The logger of an adapter thread, which has no counters.
    pub fn new_vnf() -> (r: Self)
        ensures
            r.wf(),
            r.role() == ThreadRole::VNF,
            r.history().len() == 0,
            r.written() == 0,
            r.names().len() == 0,
            forall|name: Seq<char>| r.counter(name) is None,
    {
        let r = ThreadLogger {
            role: ThreadRole::VNF,
            logs: Vec::with_capacity(100000),
            written: 0,
            names: Vec::new(),
            counts: Vec::new(),
        };
        proof {
            assert(r.names() =~= Seq::<Seq<char>>::empty());
            r.lemma_fresh_counters();
        }
        r
    }

    /// Where every count is 0, a counter reads 0 if the thread has it.
    proof fn lemma_fresh_counters(&self)
        requires
            self.wf(),
            forall|i: int| 0 <= i < self.counts@.len() ==> self.counts@[i] == 0,
        ensures
            forall|name: Seq<char>|
                self.counter(name) == if self.names().contains(name) {
                    Some(0i32)
                } else {
                    None
                },
    {
        assert forall|name: Seq<char>|
            self.counter(name) == if self.names().contains(name) {
                Some(0i32)
            } else {
                None
            } by {
            self.names().index_of_first_ensures(name);
        }
    }

    /// Records the measurement `m`.
    pub fn log(&mut self, m: Metrics)
        requires
            old(self).wf(),
        ensures
            final(self).wf(),
            final(self).history() == old(self).history().push(m),
            final(self).role() == old(self).role(),
            final(self).written() == old(self).written(),
            final(self).names() == old(self).names(),
            forall|name: Seq<char>| final(self).counter(name) == old(self).counter(name),
    {
        self.logs.push(m);
    }

    /// The position of the counter `entry`.
    fn find(&self, entry: &str) -> (r: Option<usize>)
        requires
            self.wf(),
        ensures
            match r {
                Some(i) => counter_index(self.names@, entry@) == Some(i as int) && i
                    < self.counts@.len(),
                None => counter_index(self.names@, entry@) is None,
            },
    {
        let wanted = entry.to_owned();
        let ghost views = self.names@.map_values(|s: String| s@);
        proof {
            views.index_of_first_ensures(entry@);
        }
        let mut i: usize = 0;
        while i < self.names.len()
            invariant
                i <= self.names@.len(),
                self.wf(),
                wanted@ == entry@,
                views == self.names@.map_values(|s: String| s@),
                forall|j: int| 0 <= j < i ==> views[j] != entry@,
            decreases self.names.len() - i,
        {
            if self.names[i] == wanted {
                proof {
                    assert(views[i as int] == entry@);
                    assert(views.contains(entry@));
                    views.index_of_first_ensures(entry@);
                    let first = views.index_of_first(entry@)->0;
                    if first < i {
                        assert(views[first] != entry@);
                    }
                    if i < first {
                        assert(views[i as int] != entry@);
                    }
                }
                return Some(i);
            }
            i = i + 1;
        }
        proof {
            views.index_of_first_ensures(entry@);
        }
        None
    }

    /// Whether the thread has the counter `entry`.
    pub fn has_counter(&self, entry: &str) -> (r: bool)
        requires
            self.wf(),
        ensures
            r == self.counter(entry@) is Some,
    {
        self.find(entry).is_some()
    }

    /// The count of the counter `entry`.
    pub fn count(&self, entry: &str) -> (r: Option<i32>)
        requires
            self.wf(),
        ensures
            r == self.counter(entry@),
    {
        match self.find(entry) {
            Some(i) => Some(self.counts[i]),
            None => None,
        }
    }

    /// Counts the counter `entry` up by one.  A counter at the largest count
    /// stays there.
    pub fn inc(&mut self, entry: &str)
        requires
            old(self).wf(),
            old(self).counter(entry@) is Some,
        ensures
            final(self).wf(),
            final(self).counter(entry@) == Some(
                if old(self).counter(entry@)->0 < i32::MAX {
                    (old(self).counter(entry@)->0 + 1) as i32
                } else {
                    i32::MAX
                },
            ),
            forall|name: Seq<char>|
                name != entry@ ==> final(self).counter(name) == old(self).counter(name),
            final(self).history() == old(self).history(),
            final(self).role() == old(self).role(),
            final(self).written() == old(self).written(),
            final(self).names() == old(self).names(),
    {
        match self.find(entry) {
            Some(i) => {
                let ghost views = self.names@.map_values(|s: String| s@);
                if self.counts[i] < i32::MAX {
                    self.counts[i] = self.counts[i] + 1;
                }
                proof {
                    views.index_of_first_ensures(entry@);
                    assert forall|name: Seq<char>| name != entry@ implies self.counter(name)
                        == old(self).counter(name) by {
                        views.index_of_first_ensures(name);
                    }
                }
            },
            None => {},
        }
    }

    /// The number of measurements taken so far.
    pub fn logged(&self) -> (r: usize)
        ensures
            r == self.history().len(),
    {
        self.logs.len()
    }

    /// The measurement at position `i`.
    pub fn measurement(&self, i: usize) -> (r: &Metrics)
        requires
            i < self.history().len(),
        ensures
            *r == self.history()[i as int],
    {
        &self.logs[i]
    }

    /// The position of the first measurement that was not written out.
    pub fn first_unwritten(&self) -> (r: usize)
        ensures
            r == self.written(),
    {
        self.written
    }

    /// Takes note that every measurement taken so far was written out.
    pub fn mark_written(&mut self)
        requires
            old(self).wf(),
        ensures
            final(self).wf(),
            final(self).written() == old(self).history().len(),
            final(self).history() == old(self).history(),
            final(self).role() == old(self).role(),
            final(self).names() == old(self).names(),
            forall|name: Seq<char>| final(self).counter(name) == old(self).counter(name),
    {
        self.written = self.logs.len();
    }

    /// The role of the thread.
    pub fn thread_role(&self) -> (r: ThreadRole)
        ensures
            r == self.role(),
    {
        self.role
    }

    /// The number of counters.
    pub fn counters(&self) -> (r: usize)
        ensures
            r == self.names().len(),
    {
        self.names.len()
    }

    /// The name and the count of the counter at position `i`.
    pub fn counter_at(&self, i: usize) -> (r: (&String, i32))
        requires
            self.wf(),
            i < self.names().len(),
        ensures
            r.0@ == self.names()[i as int],
            r.1 == self.counts()[i as int],
    {
        (&self.names[i], self.counts[i])
    }
}

} // verus!
