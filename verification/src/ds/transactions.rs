use crate::ds::events::{Event, EventSpec};
use crate::ds::keys::{ascending, keys_of, sort_dedup};
use crate::tpg::model::{lemma_slots_push, slots_of};
use vstd::hash_map::StringHashMap;
use vstd::prelude::*;

verus! {

/// A transaction template: the state accesses of one kind of transaction.
pub struct Txn {
    pub es: Vec<Event>,
    /// The position of each key among all keys read.
    pub all_reads_index_map: StringHashMap<usize>,
    /// The number of keys read, counted over all accesses.
    pub all_reads_length: usize,
}

/// Whether the access `new` is what preparing the access `old`, at place
/// `at` of its transaction, gives: it reads what `old` reads and what it
/// writes, each key once and in ascending order.  Reading what it writes
/// makes an access wait for the writer before it.
pub open spec fn prepared(old: EventSpec, new: EventSpec, at: int) -> bool {
    &&& new.write == old.write
    &&& new.has_write == old.has_write
    &&& new.sa_idx == at
    &&& ascending(new.reads)
    &&& forall|k: Seq<char>| new.reads.contains(k) <==> (old.reads.contains(k) || k == old.write)
}

/// The keys that the accesses read, access after access.
pub open spec fn template_reads(es: Seq<EventSpec>) -> Seq<Seq<char>>
    decreases es.len(),
{
    if es.len() == 0 {
        Seq::empty()
    } else {
        template_reads(es.drop_last()) + es.last().reads
    }
}

/// The keys without the repetitions that follow a key at once.
pub open spec fn dedup_adjacent(s: Seq<Seq<char>>) -> Seq<Seq<char>>
    decreases s.len(),
{
    if s.len() == 0 {
        s
    } else {
        let d = dedup_adjacent(s.drop_last());
        if d.len() > 0 && d.last() == s.last() {
            d
        } else {
            d.push(s.last())
        }
    }
}

impl Txn {
    /// The state accesses as the contracts see them.
    pub open spec fn events(&self) -> Seq<EventSpec> {
        self.es@.map_values(|e: Event| e@)
    }

    /// Whether the keys read are counted: the count is that of the keys
    /// read, over all accesses and without the repetitions that follow a
    /// key at once, and each key has its last position among them.
    pub open spec fn counted(&self) -> bool {
        &&& self.all_reads_length == dedup_adjacent(template_reads(self.events())).len()
        &&& self.all_reads_index_map@ == slots_of(dedup_adjacent(template_reads(self.events())))
    }

    /// A template of the accesses `es`, not yet prepared.
    pub fn new(es: Vec<Event>) -> (r: Self)
        ensures
            r.es == es,
            r.all_reads_length == 0,
            r.all_reads_index_map@ == Map::<Seq<char>, usize>::empty(),
    {
        Txn { es, all_reads_index_map: StringHashMap::new(), all_reads_length: 0 }
    }

    /// Prepares the template.  Each access comes to read the key it writes,
    /// with its keys in ascending order and each once, and learns its place.
    /// The keys read, over all accesses and without the repetitions that
    /// follow a key at once, are counted, and each gets its last position
    /// among them.
    pub fn process_txn(&mut self)
        ensures
            final(self).events().len() == old(self).events().len(),
            forall|e: int|
                0 <= e < old(self).events().len() ==> prepared(
                    old(self).events()[e],
                    #[trigger] final(self).events()[e],
                    e,
                ),
            final(self).counted(),
    {
        let count = self.es.len();
        let mut e: usize = 0;
        while e < count
            invariant
                e <= count,
                count == old(self).es@.len(),
                self.es@.len() == count,
                forall|x: int|
                    0 <= x < e ==> prepared(old(self).events()[x], #[trigger] self.events()[x], x),
                forall|x: int| e <= x < count ==> self.es@[x] == old(self).es@[x],
            decreases count - e,
        {
            let ghost was = self.es@[e as int]@;
            let ghost sofar = self.events();
            let ghost sofar_es = self.es@;
            let mut reads: Vec<String> = Vec::new();
            let mut i: usize = 0;
            while i < self.es[e].reads.len()
                invariant
                    e < self.es@.len(),
                    i <= self.es@[e as int].reads@.len(),
                    keys_of(reads@) == was.reads.take(i as int),
                    was == self.es@[e as int]@,
                    self.es@ == sofar_es,
                decreases was.reads.len() - i,
            {
                let ghost prev = keys_of(reads@);
                let key = self.es[e].reads[i].clone();
                assert(key@ == was.reads[i as int]);
                reads.push(key);
                assert(keys_of(reads@) =~= prev.push(was.reads[i as int]));
                assert(keys_of(reads@) =~= was.reads.take(i + 1));
                i = i + 1;
            }
            reads.push(self.es[e].write.clone());
            assert(was.reads.take(was.reads.len() as int) =~= was.reads);
            assert(keys_of(reads@) =~= was.reads.push(was.write));
            let sorted = sort_dedup(&reads);
            self.es[e].reads = sorted;
            self.es[e].sa_idx = e;
            proof {
                let now = self.events()[e as int];
                assert(now.reads == keys_of(sorted@));
                assert forall|k: Seq<char>| now.reads.contains(k) <==> (was.reads.contains(k) || k
                    == was.write) by {
                    let all = was.reads.push(was.write);
                    if was.reads.contains(k) {
                        let j = choose|j: int| 0 <= j < was.reads.len() && was.reads[j] == k;
                        assert(all[j] == k);
                    }
                    if k == was.write {
                        assert(all[was.reads.len() as int] == k);
                    }
                    if all.contains(k) {
                        let j = choose|j: int| 0 <= j < all.len() && all[j] == k;
                        if j < was.reads.len() {
                            assert(was.reads[j] == k);
                        }
                    }
                }
                assert forall|x: int| 0 <= x < e implies prepared(
                    old(self).events()[x],
                    #[trigger] self.events()[x],
                    x,
                ) by {
                    assert(self.events()[x] == sofar[x]);
                }
            }
            e = e + 1;
        }
        let ghost done = self.events();
        let mut all_reads: Vec<String> = Vec::new();
        let mut e: usize = 0;
        assert(keys_of(all_reads@) =~= dedup_adjacent(template_reads(done.take(0))));
        while e < count
            invariant
                e <= count,
                count == self.es@.len(),
                done == self.events(),
                keys_of(all_reads@) == dedup_adjacent(template_reads(done.take(e as int))),
            decreases count - e,
        {
            let event = &self.es[e];
            let ghost head = template_reads(done.take(e as int));
            let mut i: usize = 0;
            while i < event.reads.len()
                invariant
                    e < done.len(),
                    i <= event.reads@.len(),
                    event@ == done[e as int],
                    keys_of(all_reads@) == dedup_adjacent(head + event@.reads.take(i as int)),
                decreases event.reads.len() - i,
            {
                let ghost sofar = head + event@.reads.take(i as int);
                let ghost kept = keys_of(all_reads@);
                let n = all_reads.len();
                let repeat = n > 0 && all_reads[n - 1] == event.reads[i];
                if !repeat {
                    all_reads.push(event.reads[i].clone());
                }
                proof {
                    let more = head + event@.reads.take(i + 1);
                    assert(more =~= sofar.push(event@.reads[i as int]));
                    assert(more.drop_last() =~= sofar);
                    if !repeat {
                        assert(keys_of(all_reads@) =~= kept.push(event@.reads[i as int]));
                    }
                }
                i = i + 1;
            }
            proof {
                let upto = done.take(e + 1);
                assert(upto.drop_last() =~= done.take(e as int));
                assert(upto.last() == event@);
                assert(event@.reads.take(event@.reads.len() as int) =~= event@.reads);
            }
            e = e + 1;
        }
        assert(done.take(count as int) =~= done);
        let ghost keys = keys_of(all_reads@);
        let mut index_map: StringHashMap<usize> = StringHashMap::new();
        let mut i: usize = 0;
        assert(index_map@ =~= slots_of(keys.take(0)));
        while i < all_reads.len()
            invariant
                i <= all_reads@.len(),
                keys == keys_of(all_reads@),
                index_map@ == slots_of(keys.take(i as int)),
            decreases all_reads.len() - i,
        {
            proof {
                lemma_slots_push(keys.take(i as int), keys[i as int]);
                assert(keys.take(i as int).push(keys[i as int]) =~= keys.take(i + 1));
            }
            index_map.insert(all_reads[i].clone(), i);
            i = i + 1;
        }
        assert(keys.take(all_reads@.len() as int) =~= keys);
        self.all_reads_length = all_reads.len();
        self.all_reads_index_map = index_map;
    }
}

} // verus!
