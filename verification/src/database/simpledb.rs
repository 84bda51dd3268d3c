use crate::config::Config;
use crate::database::api::{
    fresh_table, is_row_below, is_row_of, knows, lemma_row_below_step, lemma_row_of_step,
    push_fatal, versions_of, with_versions, Content, Database,
};
use crate::database::versions::{
    after_copy_last, after_push, after_release, after_reset, after_write, default_value, has_slot,
    increasing, lemma_nearest_normal_filled, lemma_nearest_normal_found,
    lemma_nearest_normal_none, lemma_slot_index, nearest_normal, newer_than_all, normal_filled,
    slot_index, slot_state, DataPointState, Record,
};
use crate::ds::ringbuf::{item_at, rated_unequal, RingBuf, RingBufContent};
use crate::utils::{row_key, spec_row_key};
use std::cmp::Ordering;
use vstd::hash_map::StringHashMap;
use vstd::prelude::*;

verus! {

/// One version of a key: a value, the timestamp of the transaction that
/// wrote it, and whether the value may be read.
pub struct DataPoint {
    pub ts: u64,
    pub value: Vec<u8>,
    pub state: DataPointState,
}

impl View for DataPoint {
    type V = Record;

    open spec fn view(&self) -> Record {
        Record { ts: self.ts, value: self.value@, state: self.state }
    }
}

impl Clone for DataPoint {
    fn clone(&self) -> (r: Self)
        ensures
            r@ == self@,
    {
        DataPoint { ts: self.ts, value: self.value.clone(), state: self.state }
    }
}

impl Default for DataPoint {
    fn default() -> (r: Self)
        ensures
            r@ == (Record { ts: 0, value: Seq::empty(), state: DataPointState::EMPTY }),
    {
        DataPoint { ts: 0, value: Vec::new(), state: DataPointState::EMPTY }
    }
}

impl RingBufContent for DataPoint {

}

/// The versions that a ring holds.
pub open spec fn records_of(ring: RingBuf<DataPoint>) -> Seq<Record> {
    ring@.map_values(|d: DataPoint| d@)
}

/// The position in `ring` of the version of timestamp `ts`.
fn find_slot(ring: &RingBuf<DataPoint>, ts: u64) -> (r: Option<usize>)
    requires
        ring.wf(),
    ensures
        r matches Some(i) ==> i < ring@.len() && item_at(ring@, i).ts == ts,
        r is None ==> forall|j: int| 0 <= j < ring@.len() ==> ring@[j].ts != ts,
{
    let rate = |dp: &DataPoint| -> (o: Ordering)
        ensures
            (o == Ordering::Equal) == (dp.ts == ts),
        {
            if dp.ts < ts {
                Ordering::Less
            } else if dp.ts > ts {
                Ordering::Greater
            } else {
                Ordering::Equal
            }
        };
    let r = ring.position_as_ordered(rate);
    proof {
        if r is None {
            assert forall|j: int| 0 <= j < ring@.len() implies ring@[j].ts != ts by {
                assert(rated_unequal(rate, ring@[j]));
            }
        }
    }
    r
}

/// The value of the nearest readable version among the first `below`
/// versions of `ring`, or the default value.
fn value_before(ring: &RingBuf<DataPoint>, below: usize) -> (r: Vec<u8>)
    requires
        ring.wf(),
        below <= ring@.len(),
    ensures
        r@ == nearest_normal(records_of(*ring), below as int),
{
    let ghost s = records_of(*ring);
    if below == 0 {
        let r = vec![0u8];
        assert(r@ =~= default_value());
        return r;
    }
    let readable = |dp: &DataPoint| -> (b: bool)
        ensures
            b == (dp.state == DataPointState::NORMAL),
        {
            match dp.state {
                DataPointState::NORMAL => true,
                DataPointState::EMPTY => false,
            }
        };
    match ring.search_back(readable, below - 1) {
        Some(item) => {
            proof {
                let i = choose|i: int|
                    0 <= i <= below - 1 && *item == ring@[i] && call_ensures(
                        readable,
                        (&ring@[i],),
                        true,
                    ) && forall|j: int|
                        i < j <= below - 1 ==> call_ensures(readable, (&ring@[j],), false);
                assert forall|j: int| i < j < below implies s[j].state
                    != DataPointState::NORMAL by {
                    assert(call_ensures(readable, (&ring@[j],), false));
                }
                lemma_nearest_normal_found(s, below as int, i);
            }
            item.value.clone()
        },
        None => {
            proof {
                assert forall|j: int| 0 <= j < below implies s[j].state
                    != DataPointState::NORMAL by {
                    assert(call_ensures(readable, (&ring@[j],), false));
                }
                lemma_nearest_normal_none(s, below as int);
            }
            let r = vec![0u8];
            assert(r@ =~= default_value());
            r
        },
    }
}

/// The rows of one table: each row key has a ring of versions.
pub struct Table {
    states: StringHashMap<usize>,
    records: Vec<RingBuf<DataPoint>>,
    ring_size: usize,
    full2panic: bool,
}

impl Table {
    /// The table's invariant: every row key has a ring of its own, and each
    /// ring holds readable, non-empty values in the order of their
    /// timestamps.
    pub closed spec fn wf(&self) -> bool {
        &&& self.ring_size > 0
        &&& forall|k: Seq<char>| #[trigger]
            self.states@.contains_key(k) ==> self.states@[k] < self.records@.len()
        &&& forall|k1: Seq<char>, k2: Seq<char>|
            #![trigger self.states@[k1], self.states@[k2]]
            self.states@.contains_key(k1) && self.states@.contains_key(k2) && k1 != k2
                ==> self.states@[k1] != self.states@[k2]
        &&& forall|i: int|
            0 <= i < self.records@.len() ==> {
                &&& (#[trigger] self.records@[i]).wf()
                &&& self.records@[i].spec_cap() == self.ring_size
                &&& self.records@[i].full_to_panic() == self.full2panic
                &&& increasing(records_of(self.records@[i]))
                &&& normal_filled(records_of(self.records@[i]))
            }
    }

    /// The versions of every row key.
    pub closed spec fn content(&self) -> Map<Seq<char>, Seq<Record>> {
        Map::new(
            |k: Seq<char>| self.states@.contains_key(k),
            |k: Seq<char>| records_of(self.records@[self.states@[k] as int]),
        )
    }

    pub closed spec fn spec_ring_size(&self) -> usize {
        self.ring_size
    }

    pub closed spec fn full_to_panic(&self) -> bool {
        self.full2panic
    }

    /// Every key's versions are ordered, readable versions hold a value, and
    /// one cell of the ring stays free.
    pub proof fn lemma_ordered(&self, key: Seq<char>)
        requires
            self.wf(),
            self.content().contains_key(key),
        ensures
            increasing(self.content()[key]),
            normal_filled(self.content()[key]),
            self.content()[key].len() < self.spec_ring_size(),
    {
        let i = self.states@[key] as int;
        assert(self.states@.contains_key(key));
        assert(self.records@[i].wf());
        self.records@[i].lemma_len_bound();
    }

    /// A table with `states_per_key` row slots for each of `keys`, each with
    /// a ring of `ring_size` cells and nothing in it.
    pub fn empty_init(
        keys: Vec<&str>,
        states_per_key: usize,
        ring_size: usize,
        full2panic: bool,
    ) -> (r: Self)
        requires
            ring_size > 0,
        ensures
            r.wf(),
            r.content() == fresh_table(keys@, states_per_key),
            r.spec_ring_size() == ring_size,
            r.full_to_panic() == full2panic,
    {
        let mut t = Table {
            states: StringHashMap::new(),
            records: Vec::new(),
            ring_size,
            full2panic,
        };
        let mut i: usize = 0;
        while i < keys.len()
            invariant
                i <= keys.len(),
                t.wf(),
                t.ring_size == ring_size,
                t.full2panic == full2panic,
                forall|k: Seq<char>|
                    t.states@.contains_key(k) <==> is_row_of(
                        keys@.take(i as int),
                        states_per_key,
                        k,
                    ),
                forall|n: int| 0 <= n < t.records@.len() ==> (#[trigger] t.records@[n])@.len() == 0,
            decreases keys.len() - i,
        {
            let mut j: usize = 0;
            while j < states_per_key
                invariant
                    i < keys.len(),
                    j <= states_per_key,
                    t.wf(),
                    t.ring_size == ring_size,
                    t.full2panic == full2panic,
                    forall|k: Seq<char>|
                        t.states@.contains_key(k) <==> (is_row_of(
                            keys@.take(i as int),
                            states_per_key,
                            k,
                        ) || is_row_below(keys@[i as int]@, j as nat, k)),
                    forall|n: int|
                        0 <= n < t.records@.len() ==> (#[trigger] t.records@[n])@.len() == 0,
                decreases states_per_key - j,
            {
                let name = row_key(keys[i], j);
                let at = t.records.len();
                let ghost before = t.states@;
                t.states.insert(name, at);
                let ring: RingBuf<DataPoint> = RingBuf::new(ring_size, Some(full2panic));
                assert(records_of(ring) =~= Seq::<Record>::empty());
                t.records.push(ring);
                proof {
                    let fresh = spec_row_key(keys@[i as int]@, j as nat);
                    let done = keys@.take(i as int);
                    assert(t.states@ == before.insert(fresh, at));
                    assert forall|k: Seq<char>|
                        t.states@.contains_key(k) <==> (is_row_of(done, states_per_key, k)
                            || is_row_below(keys@[i as int]@, (j + 1) as nat, k)) by {
                        assert(before.contains_key(k) <==> (is_row_of(done, states_per_key, k)
                            || is_row_below(keys@[i as int]@, j as nat, k)));
                        lemma_row_below_step(keys@[i as int]@, j as nat, k);
                    }
                }
                j = j + 1;
            }
            proof {
                let done = keys@.take(i as int);
                let more = keys@.take(i + 1);
                assert forall|k: Seq<char>| t.states@.contains_key(k) <==> is_row_of(
                    more,
                    states_per_key,
                    k,
                ) by {
                    lemma_row_of_step(keys@, i as int, states_per_key, k);
                }
            }
            i = i + 1;
        }
        proof {
            assert(keys@.take(keys@.len() as int) =~= keys@);
            assert(t.content() =~= fresh_table(keys@, states_per_key)) by {
                assert forall|k: Seq<char>| #[trigger]
                    t.content().contains_key(k) implies t.content()[k] == Seq::<Record>::empty() by {
                    let n = t.states@[k] as int;
                    assert(t.states@.contains_key(k));
                    assert(t.records@[n]@.len() == 0);
                    assert(records_of(t.records@[n]) =~= Seq::<Record>::empty());
                }
            }
        }
        t
    }

    /// The ring of `key`.
    fn ring_index(&self, key: &str) -> (i: usize)
        requires
            self.wf(),
            self.content().contains_key(key@),
        ensures
            i == self.states@[key@],
            i < self.records@.len(),
            self.states@.contains_key(key@),
            records_of(self.records@[i as int]) == self.content()[key@],
    {
        match self.states.get(key) {
            Some(i) => *i,
            None => 0,
        }
    }

    /// After ring `i`, which is that of `key`, was replaced by a ring with
    /// versions `s`, the table holds `s` for `key` and is otherwise as before.
    proof fn lemma_ring_replaced(old_t: &Table, new_t: &Table, key: Seq<char>, i: int)
        requires
            old_t.wf(),
            old_t.states@.contains_key(key),
            i == old_t.states@[key],
            new_t.states@ == old_t.states@,
            new_t.ring_size == old_t.ring_size,
            new_t.full2panic == old_t.full2panic,
            new_t.records@.len() == old_t.records@.len(),
            forall|n: int|
                0 <= n < old_t.records@.len() && n != i ==> new_t.records@[n]
                    == old_t.records@[n],
            new_t.records@[i].wf(),
            new_t.records@[i].spec_cap() == old_t.ring_size,
            new_t.records@[i].full_to_panic() == old_t.full2panic,
            increasing(records_of(new_t.records@[i])),
            normal_filled(records_of(new_t.records@[i])),
        ensures
            new_t.wf(),
            new_t.content() == old_t.content().insert(key, records_of(new_t.records@[i])),
    {
        assert forall|n: int| 0 <= n < new_t.records@.len() implies {
            &&& (#[trigger] new_t.records@[n]).wf()
            &&& new_t.records@[n].spec_cap() == new_t.ring_size
            &&& new_t.records@[n].full_to_panic() == new_t.full2panic
            &&& increasing(records_of(new_t.records@[n]))
            &&& normal_filled(records_of(new_t.records@[n]))
        } by {
            if n != i {
                assert(old_t.records@[n].wf());
            }
        }
        assert(new_t.content() =~= old_t.content().insert(key, records_of(new_t.records@[i])))
            by {
            assert forall|k: Seq<char>| #[trigger]
                new_t.content().contains_key(k) && k != key implies new_t.content()[k]
                == old_t.content()[k] by {
                assert(old_t.states@[k] != old_t.states@[key]);
            }
        }
    }

    /// Marks the readable version of `key` at `ts` as empty.
    pub fn reset_version(&mut self, key: &str, ts: u64)
        requires
            old(self).wf(),
            old(self).content().contains_key(key@),
            slot_state(old(self).content()[key@], ts) == Some(DataPointState::NORMAL),
        ensures
            final(self).wf(),
            final(self).content() == old(self).content().insert(
                key@,
                after_reset(old(self).content()[key@], ts),
            ),
            final(self).spec_ring_size() == old(self).spec_ring_size(),
            final(self).full_to_panic() == old(self).full_to_panic(),
    {
        let i = self.ring_index(key);
        let ghost s = self.content()[key@];
        assert(self.records@[i as int].wf());
        let found = find_slot(&self.records[i], ts);
        match found {
            Some(at) => {
                proof {
                    assert(s[at as int] == self.records@[i as int]@[at as int]@);
                    lemma_slot_index(s, at as int);
                }
                let value = self.records[i].peek(at).value.clone();
                self.records[i].set(at, DataPoint { ts, value, state: DataPointState::EMPTY });
                proof {
                    assert(records_of(self.records@[i as int]) =~= after_reset(s, ts));
                    Self::lemma_ring_replaced(old(self), self, key@, i as int);
                }
            },
            None => {
                proof {
                    let w = slot_index(s, ts);
                    assert(s[w] == self.records@[i as int]@[w]@);
                    assert(false);
                }
            },
        }
    }

    /// Makes the version of `key` at `ts` readable, with the value of the
    /// nearest readable version before it.
    pub fn copy_last_version(&mut self, key: &str, ts: u64, has_slot: bool) -> (overflow: bool)
        requires
            old(self).wf(),
            old(self).content().contains_key(key@),
            has_slot ==> crate::database::versions::has_slot(old(self).content()[key@], ts),
            !has_slot ==> newer_than_all(old(self).content()[key@], ts),
            !has_slot ==> !push_fatal(
                old(self).content()[key@],
                old(self).spec_ring_size(),
                old(self).full_to_panic(),
            ),
        ensures
            final(self).wf(),
            final(self).content() == old(self).content().insert(
                key@,
                after_copy_last(
                    old(self).content()[key@],
                    old(self).spec_ring_size(),
                    ts,
                    has_slot,
                ),
            ),
            overflow == (!has_slot && old(self).content()[key@].len() + 1 == old(
                self,
            ).spec_ring_size()),
            final(self).spec_ring_size() == old(self).spec_ring_size(),
            final(self).full_to_panic() == old(self).full_to_panic(),
    {
        let i = self.ring_index(key);
        let ghost s = self.content()[key@];
        assert(self.records@[i as int].wf());
        if !has_slot {
            let n = self.records[i].len();
            let value = value_before(&self.records[i], n);
            proof {
                lemma_nearest_normal_filled(s, n as int);
            }
            self.push_version(key, ts, &value)
        } else {
            let found = find_slot(&self.records[i], ts);
            match found {
                Some(at) => {
                    proof {
                        assert(s[at as int] == self.records@[i as int]@[at as int]@);
                        lemma_slot_index(s, at as int);
                        lemma_nearest_normal_filled(s, at as int);
                    }
                    let value = value_before(&self.records[i], at);
                    self.records[i].set(at, DataPoint { ts, value, state: DataPointState::NORMAL });
                    proof {
                        assert(records_of(self.records@[i as int]) =~= after_copy_last(
                            s,
                            self.ring_size,
                            ts,
                            true,
                        ));
                        Self::lemma_ring_replaced(old(self), self, key@, i as int);
                    }
                    false
                },
                None => {
                    proof {
                        let w = slot_index(s, ts);
                        assert(s[w] == self.records@[i as int]@[w]@);
                        assert(false);
                    }
                    false
                },
            }
        }
    }

    /// Appends a readable version of `key` at `ts`.
    pub fn push_version(&mut self, key: &str, ts: u64, value: &Vec<u8>) -> (overflow: bool)
        requires
            old(self).wf(),
            old(self).content().contains_key(key@),
            newer_than_all(old(self).content()[key@], ts),
            value@.len() > 0,
            !push_fatal(
                old(self).content()[key@],
                old(self).spec_ring_size(),
                old(self).full_to_panic(),
            ),
        ensures
            final(self).wf(),
            final(self).content() == old(self).content().insert(
                key@,
                after_push(old(self).content()[key@], old(self).spec_ring_size(), ts, value@),
            ),
            overflow == (old(self).content()[key@].len() + 1 == old(self).spec_ring_size()),
            final(self).spec_ring_size() == old(self).spec_ring_size(),
            final(self).full_to_panic() == old(self).full_to_panic(),
    {
        let i = self.ring_index(key);
        let ghost s = self.content()[key@];
        assert(self.records@[i as int].wf());
        let new_data_point = DataPoint { ts, value: value.clone(), state: DataPointState::NORMAL };
        proof {
            self.records@[i as int].lemma_len_bound();
        }
        let overflow = self.records[i].push(new_data_point);
        proof {
            let pushed = after_push(s, self.ring_size, ts, value@);
            assert(records_of(self.records@[i as int]) =~= pushed);
            assert(increasing(pushed)) by {
                if !overflow {
                    assert forall|a: int, b: int| 0 <= a < b < pushed.len() implies pushed[a].ts
                        < pushed[b].ts by {
                        if b == s.len() {
                            if a < s.len() - 1 {
                                assert(s[a].ts < s[s.len() - 1].ts);
                            }
                        } else {
                            assert(s[a].ts < s[b].ts);
                        }
                    }
                }
            }
            Self::lemma_ring_replaced(old(self), self, key@, i as int);
        }
        overflow
    }

    /// Fills the empty version of `key` at `ts` with `value`.
    pub fn write_version(&mut self, key: &str, ts: u64, value: &Vec<u8>)
        requires
            old(self).wf(),
            old(self).content().contains_key(key@),
            slot_state(old(self).content()[key@], ts) == Some(DataPointState::EMPTY),
            value@.len() > 0,
        ensures
            final(self).wf(),
            final(self).content() == old(self).content().insert(
                key@,
                after_write(old(self).content()[key@], ts, value@),
            ),
            final(self).spec_ring_size() == old(self).spec_ring_size(),
            final(self).full_to_panic() == old(self).full_to_panic(),
    {
        let i = self.ring_index(key);
        let ghost s = self.content()[key@];
        assert(self.records@[i as int].wf());
        let found = find_slot(&self.records[i], ts);
        match found {
            Some(at) => {
                proof {
                    assert(s[at as int] == self.records@[i as int]@[at as int]@);
                    lemma_slot_index(s, at as int);
                }
                self.records[i].set(
                    at,
                    DataPoint { ts, value: value.clone(), state: DataPointState::NORMAL },
                );
                proof {
                    assert(records_of(self.records@[i as int]) =~= after_write(s, ts, value@));
                    Self::lemma_ring_replaced(old(self), self, key@, i as int);
                }
            },
            None => {
                proof {
                    let w = slot_index(s, ts);
                    assert(s[w] == self.records@[i as int]@[w]@);
                    assert(false);
                }
            },
        }
    }

    /// Releases the oldest version of `key`, which is the one at `ts`.
    pub fn release_version(&mut self, key: &str, ts: u64)
        requires
            old(self).wf(),
            old(self).content().contains_key(key@),
            old(self).content()[key@].len() > 0,
            old(self).content()[key@][0].ts == ts,
        ensures
            final(self).wf(),
            final(self).content() == old(self).content().insert(
                key@,
                after_release(old(self).content()[key@]),
            ),
            final(self).spec_ring_size() == old(self).spec_ring_size(),
            final(self).full_to_panic() == old(self).full_to_panic(),
    {
        let i = self.ring_index(key);
        let ghost s = self.content()[key@];
        assert(self.records@[i as int].wf());
        let value = self.records[i].peek(0).value.clone();
        self.records[i].set(0, DataPoint { ts, value, state: DataPointState::EMPTY });
        self.records[i].discard_before(1);
        proof {
            assert(records_of(self.records@[i as int]) =~= after_release(s));
            Self::lemma_ring_replaced(old(self), self, key@, i as int);
        }
    }

    /// The value of the readable version of `key` at `ts`.
    pub fn get_version(&self, key: &str, ts: u64) -> (value: Vec<u8>)
        requires
            self.wf(),
            self.content().contains_key(key@),
            slot_state(self.content()[key@], ts) == Some(DataPointState::NORMAL),
        ensures
            value@ == self.content()[key@][slot_index(self.content()[key@], ts)].value,
            value@.len() > 0,
    {
        let i = self.ring_index(key);
        let ghost s = self.content()[key@];
        assert(self.records@[i as int].wf());
        let found = find_slot(&self.records[i], ts);
        match found {
            Some(at) => {
                proof {
                    assert(s[at as int] == self.records@[i as int]@[at as int]@);
                    lemma_slot_index(s, at as int);
                }
                self.records[i].peek(at).value.clone()
            },
            None => {
                proof {
                    let w = slot_index(s, ts);
                    assert(s[w] == self.records@[i as int]@[w]@);
                    assert(false);
                }
                Vec::new()
            },
        }
    }

    /// Whether the table has the row key `key`.
    pub fn has_key(&self, key: &str) -> (r: bool)
        ensures
            r == self.content().contains_key(key@),
    {
        self.states.contains_key(key)
    }

    /// The state of the version of `key` at `ts`, if the key has one.
    pub fn version_state(&self, key: &str, ts: u64) -> (r: Option<DataPointState>)
        requires
            self.wf(),
            self.content().contains_key(key@),
        ensures
            r == slot_state(self.content()[key@], ts),
    {
        let i = self.ring_index(key);
        let ghost s = self.content()[key@];
        assert(self.records@[i as int].wf());
        let found = find_slot(&self.records[i], ts);
        match found {
            Some(at) => {
                proof {
                    assert(s[at as int] == self.records@[i as int]@[at as int]@);
                    lemma_slot_index(s, at as int);
                }
                Some(self.records[i].peek(at).state)
            },
            None => {
                proof {
                    if has_slot(s, ts) {
                        let w = slot_index(s, ts);
                        assert(s[w] == self.records@[i as int]@[w]@);
                    }
                }
                None
            },
        }
    }

    /// The timestamp of the newest version of `key`.
    pub fn newest_ts(&self, key: &str) -> (r: Option<u64>)
        requires
            self.wf(),
            self.content().contains_key(key@),
        ensures
            r == (if self.content()[key@].len() == 0 {
                None
            } else {
                Some(self.content()[key@].last().ts)
            }),
    {
        let i = self.ring_index(key);
        assert(self.records@[i as int].wf());
        let n = self.records[i].len();
        if n == 0 {
            None
        } else {
            Some(self.records[i].peek(n - 1).ts)
        }
    }

    /// The timestamp of the oldest version of `key`.
    pub fn oldest_ts(&self, key: &str) -> (r: Option<u64>)
        requires
            self.wf(),
            self.content().contains_key(key@),
        ensures
            r == (if self.content()[key@].len() == 0 {
                None
            } else {
                Some(self.content()[key@][0].ts)
            }),
    {
        let i = self.ring_index(key);
        assert(self.records@[i as int].wf());
        let n = self.records[i].len();
        if n == 0 {
            None
        } else {
            Some(self.records[i].peek(0).ts)
        }
    }

    /// Whether one more version of `key` would fill a ring that must not be
    /// filled.
    pub fn push_is_fatal(&self, key: &str) -> (r: bool)
        requires
            self.wf(),
            self.content().contains_key(key@),
        ensures
            r == push_fatal(self.content()[key@], self.spec_ring_size(), self.full_to_panic()),
    {
        let i = self.ring_index(key);
        assert(self.records@[i as int].wf());
        let n = self.records[i].len();
        proof {
            self.records@[i as int].lemma_len_bound();
        }
        self.full2panic && n + 1 == self.ring_size
    }
}

/// A multi-version store that keeps its tables in memory.
pub struct SimpleDB {
    names: StringHashMap<usize>,
    tables: Vec<Table>,
    ring_size: usize,
    full2panic: bool,
    rows: usize,
}

impl SimpleDB {
    pub closed spec fn inv(&self) -> bool {
        &&& self.ring_size > 0
        &&& forall|t: Seq<char>| #[trigger]
            self.names@.contains_key(t) ==> self.names@[t] < self.tables@.len()
        &&& forall|t1: Seq<char>, t2: Seq<char>|
            #![trigger self.names@[t1], self.names@[t2]]
            self.names@.contains_key(t1) && self.names@.contains_key(t2) && t1 != t2
                ==> self.names@[t1] != self.names@[t2]
        &&& forall|i: int|
            0 <= i < self.tables@.len() ==> {
                &&& (#[trigger] self.tables@[i]).wf()
                &&& self.tables@[i].spec_ring_size() == self.ring_size
                &&& self.tables@[i].full_to_panic() == self.full2panic
            }
    }

    pub closed spec fn tables_content(&self) -> Content {
        Map::new(
            |t: Seq<char>| self.names@.contains_key(t),
            |t: Seq<char>| self.tables@[self.names@[t] as int].content(),
        )
    }

    pub closed spec fn spec_ring_size(&self) -> usize {
        self.ring_size
    }

    pub closed spec fn spec_full_to_panic(&self) -> bool {
        self.full2panic
    }

    pub closed spec fn spec_rows(&self) -> usize {
        self.rows
    }

    /// Whether the store has a table of this name.
    pub fn contains_table(&self, table: &str) -> (r: bool)
        ensures
            r == self.content().contains_key(table@),
    {
        self.names.contains_key(table)
    }

    /// The table `table`.
    fn table_index(&self, table: &str, Ghost(key): Ghost<Seq<char>>) -> (i: usize)
        requires
            self.inv(),
            knows(self.tables_content(), table@, key),
        ensures
            i == self.names@[table@],
            i < self.tables@.len(),
            self.names@.contains_key(table@),
            self.tables@[i as int].wf(),
            self.tables@[i as int].content() == self.tables_content()[table@],
            self.tables@[i as int].content().contains_key(key),
            self.tables@[i as int].spec_ring_size() == self.ring_size,
            self.tables@[i as int].full_to_panic() == self.full2panic,
    {
        match self.names.get(table) {
            Some(i) => *i,
            None => 0,
        }
    }

    /// After table `i`, which is `table`, was replaced by one with content
    /// `c`, the store holds `c` for `table` and is otherwise as before.
    proof fn lemma_table_replaced(old_db: &SimpleDB, new_db: &SimpleDB, table: Seq<char>, i: int)
        requires
            old_db.inv(),
            old_db.names@.contains_key(table),
            i == old_db.names@[table],
            new_db.names@ == old_db.names@,
            new_db.ring_size == old_db.ring_size,
            new_db.full2panic == old_db.full2panic,
            new_db.rows == old_db.rows,
            new_db.tables@.len() == old_db.tables@.len(),
            forall|n: int|
                0 <= n < old_db.tables@.len() && n != i ==> new_db.tables@[n] == old_db.tables@[n],
            new_db.tables@[i].wf(),
            new_db.tables@[i].spec_ring_size() == old_db.ring_size,
            new_db.tables@[i].full_to_panic() == old_db.full2panic,
        ensures
            new_db.inv(),
            new_db.tables_content() == old_db.tables_content().insert(
                table,
                new_db.tables@[i].content(),
            ),
    {
        assert forall|n: int| 0 <= n < new_db.tables@.len() implies {
            &&& (#[trigger] new_db.tables@[n]).wf()
            &&& new_db.tables@[n].spec_ring_size() == new_db.ring_size
            &&& new_db.tables@[n].full_to_panic() == new_db.full2panic
        } by {
            if n != i {
                assert(old_db.tables@[n].wf());
            }
        }
        assert(new_db.tables_content() =~= old_db.tables_content().insert(
            table,
            new_db.tables@[i].content(),
        )) by {
            assert forall|t: Seq<char>| #[trigger]
                new_db.tables_content().contains_key(t) && t != table implies new_db.tables_content()[t]
                == old_db.tables_content()[t] by {
                assert(old_db.names@[t] != old_db.names@[table]);
            }
        }
    }
}

impl Database for SimpleDB {
    open spec fn wf(&self) -> bool {
        self.inv()
    }

    open spec fn content(&self) -> Content {
        self.tables_content()
    }

    open spec fn ring_size(&self) -> usize {
        self.spec_ring_size()
    }

    open spec fn full_to_panic(&self) -> bool {
        self.spec_full_to_panic()
    }

    open spec fn rows(&self) -> usize {
        self.spec_rows()
    }

    proof fn lemma_ordered(&self, table: Seq<char>, key: Seq<char>) {
        let i = self.names@[table] as int;
        assert(self.names@.contains_key(table));
        assert(self.tables@[i].wf());
        self.tables@[i].lemma_ordered(key);
    }

    fn new(config: &Config) -> (r: Self) {
        let r = SimpleDB {
            names: StringHashMap::new(),
            tables: Vec::new(),
            ring_size: config.ringbuffer_size,
            full2panic: config.ringbuffer_full_to_panic,
            rows: config.max_state_records,
        };
        assert(r.tables_content() =~= Map::<Seq<char>, Map<Seq<char>, Seq<Record>>>::empty());
        r
    }

    fn add_table(&mut self, to_add_table: &str, keys: Vec<&str>) {
        let ghost wanted = fresh_table(keys@, self.rows);
        let table = Table::empty_init(keys, self.rows, self.ring_size, self.full2panic);
        let at = self.tables.len();
        self.names.insert(to_add_table.to_owned(), at);
        self.tables.push(table);
        proof {
            assert forall|i: int| 0 <= i < self.tables@.len() implies {
                &&& (#[trigger] self.tables@[i]).wf()
                &&& self.tables@[i].spec_ring_size() == self.ring_size
                &&& self.tables@[i].full_to_panic() == self.full2panic
            } by {
                if i < at {
                    assert(old(self).tables@[i].wf());
                }
            }
            assert(self.tables_content() =~= old(self).tables_content().insert(
                to_add_table@,
                wanted,
            )) by {
                assert forall|t: Seq<char>| #[trigger]
                    self.tables_content().contains_key(t) && t != to_add_table@ implies self.tables_content()[t]
                    == old(self).tables_content()[t] by {
                    assert(old(self).names@.contains_key(t));
                }
            }
        }
    }

    fn reset_version(&mut self, table: &str, key: &str, ts: u64) {
        let i = self.table_index(table, Ghost(key@));
        self.tables[i].reset_version(key, ts);
        proof {
            Self::lemma_table_replaced(old(self), self, table@, i as int);
        }
    }

    fn write_version(&mut self, table: &str, key: &str, ts: u64, value: &Vec<u8>) {
        let i = self.table_index(table, Ghost(key@));
        self.tables[i].write_version(key, ts, value);
        proof {
            Self::lemma_table_replaced(old(self), self, table@, i as int);
        }
    }

    fn push_version(&mut self, table: &str, key: &str, ts: u64, value: &Vec<u8>) -> (overflow:
        bool) {
        let i = self.table_index(table, Ghost(key@));
        let overflow = self.tables[i].push_version(key, ts, value);
        proof {
            Self::lemma_table_replaced(old(self), self, table@, i as int);
        }
        overflow
    }

    fn copy_last_version(&mut self, table: &str, key: &str, ts: u64, has_slot: bool) -> (overflow:
        bool) {
        let i = self.table_index(table, Ghost(key@));
        let overflow = self.tables[i].copy_last_version(key, ts, has_slot);
        proof {
            Self::lemma_table_replaced(old(self), self, table@, i as int);
        }
        overflow
    }

    fn release_version(&mut self, table: &str, key: &str, ts: u64) {
        let i = self.table_index(table, Ghost(key@));
        self.tables[i].release_version(key, ts);
        proof {
            Self::lemma_table_replaced(old(self), self, table@, i as int);
        }
    }

    fn get_version(&self, table: &str, key: &str, ts: u64) -> (value: Vec<u8>) {
        let i = self.table_index(table, Ghost(key@));
        self.tables[i].get_version(key, ts)
    }

    fn has_key(&self, table: &str, key: &str) -> (r: bool) {
        match self.names.get(table) {
            Some(i) => {
                assert(self.names@.contains_key(table@));
                self.tables[*i].has_key(key)
            },
            None => false,
        }
    }

    fn version_state(&self, table: &str, key: &str, ts: u64) -> (r: Option<DataPointState>) {
        let i = self.table_index(table, Ghost(key@));
        self.tables[i].version_state(key, ts)
    }

    fn newest_ts(&self, table: &str, key: &str) -> (r: Option<u64>) {
        let i = self.table_index(table, Ghost(key@));
        self.tables[i].newest_ts(key)
    }

    fn oldest_ts(&self, table: &str, key: &str) -> (r: Option<u64>) {
        let i = self.table_index(table, Ghost(key@));
        self.tables[i].oldest_ts(key)
    }

    fn push_is_fatal(&self, table: &str, key: &str) -> (r: bool) {
        let i = self.table_index(table, Ghost(key@));
        self.tables[i].push_is_fatal(key)
    }
}

} // verus!
