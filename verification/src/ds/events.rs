use vstd::prelude::*;

verus! {

/// One state access of a transaction template: the logical keys it reads
/// and the one it may write.
pub struct Event {
    pub reads: Vec<String>,
    pub write: String,
    pub has_write: bool,
    /// The position of the access in its transaction.
    pub sa_idx: usize,
}

/// A state access as the contracts see it.
pub ghost struct EventSpec {
    pub reads: Seq<Seq<char>>,
    pub write: Seq<char>,
    pub has_write: bool,
    pub sa_idx: usize,
}

impl View for Event {
    type V = EventSpec;

    open spec fn view(&self) -> EventSpec {
        EventSpec {
            reads: self.reads@.map_values(|s: String| s@),
            write: self.write@,
            has_write: self.has_write,
            sa_idx: self.sa_idx,
        }
    }
}

impl Event {
    /// A state access that reads `reads` and writes `write` if `has_write`.
    pub fn new(reads: Vec<String>, write: String, has_write: bool) -> (r: Self)
        ensures
            r@.reads == reads@.map_values(|s: String| s@),
            r@.write == write@,
            r@.has_write == has_write,
            r@.sa_idx == 0,
    {
        Event { reads, write, has_write, sa_idx: 0 }
    }

    /// A copy of the access.
    pub fn duplicate(&self) -> (r: Self)
        ensures
            r@ == self@,
    {
        let mut reads: Vec<String> = Vec::with_capacity(self.reads.len());
        let mut i: usize = 0;
        while i < self.reads.len()
            invariant
                i <= self.reads@.len(),
                reads@.len() == i,
                forall|j: int| 0 <= j < i ==> (#[trigger] reads@[j])@ == self.reads@[j]@,
            decreases self.reads.len() - i,
        {
            reads.push(self.reads[i].clone());
            i = i + 1;
        }
        let r = Event {
            reads,
            write: self.write.clone(),
            has_write: self.has_write,
            sa_idx: self.sa_idx,
        };
        assert(r@.reads =~= self@.reads);
        r
    }
}

} // verus!
