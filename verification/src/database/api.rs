use crate::config::Config;
use crate::database::versions::{
    after_copy_last, after_push, after_release, after_reset, after_write, has_slot, increasing,
    newer_than_all, normal_filled, slot_index, slot_state, DataPointState, Record,
};
use crate::utils::spec_row_key;
use vstd::prelude::*;

verus! {

/// What a store holds: for each table, for each row key, the versions of
/// that key from the oldest to the newest.
pub type Content = Map<Seq<char>, Map<Seq<char>, Seq<Record>>>;

/// Whether `content` has the row key `key` in table `table`.
pub open spec fn knows(content: Content, table: Seq<char>, key: Seq<char>) -> bool {
    content.contains_key(table) && content[table].contains_key(key)
}

/// The versions of `key` in `table`.
pub open spec fn versions_of(content: Content, table: Seq<char>, key: Seq<char>) -> Seq<Record> {
    content[table][key]
}

/// `content` with the versions of one key replaced.
pub open spec fn with_versions(
    content: Content,
    table: Seq<char>,
    key: Seq<char>,
    versions: Seq<Record>,
) -> Content {
    content.insert(table, content[table].insert(key, versions))
}

/// Whether `key` is a row key of one of the logical keys `keys`, each of
/// which has `rows` row slots.
pub open spec fn is_row_of(keys: Seq<&str>, rows: usize, key: Seq<char>) -> bool {
    exists|i: int, j: nat|
        0 <= i < keys.len() && j < rows && key == #[trigger] spec_row_key(keys[i]@, j)
}

/// Whether `key` is one of the first `rows` row keys of the logical key
/// `name`.
pub open spec fn is_row_below(name: Seq<char>, rows: nat, key: Seq<char>) -> bool {
    exists|j: nat| j < rows && key == #[trigger] spec_row_key(name, j)
}

/// One more row slot adds one row key.
pub proof fn lemma_row_below_step(name: Seq<char>, rows: nat, key: Seq<char>)
    ensures
        is_row_below(name, rows + 1, key) <==> (is_row_below(name, rows, key) || key
            == spec_row_key(name, rows)),
{
    if is_row_below(name, rows + 1, key) {
        let j = choose|j: nat| j < rows + 1 && key == #[trigger] spec_row_key(name, j);
        if j < rows {
            assert(is_row_below(name, rows, key));
        }
    }
    if is_row_below(name, rows, key) {
        let j = choose|j: nat| j < rows && key == #[trigger] spec_row_key(name, j);
        assert(j < rows + 1 && key == spec_row_key(name, j));
    }
    if key == spec_row_key(name, rows) {
        assert(rows < rows + 1 && key == spec_row_key(name, rows));
    }
}

/// One more logical key adds the row keys of that key.
pub proof fn lemma_row_of_step(keys: Seq<&str>, i: int, rows: usize, key: Seq<char>)
    requires
        0 <= i < keys.len(),
    ensures
        is_row_of(keys.take(i + 1), rows, key) <==> (is_row_of(keys.take(i), rows, key)
            || is_row_below(keys[i]@, rows as nat, key)),
{
    let done = keys.take(i);
    let more = keys.take(i + 1);
    if is_row_of(more, rows, key) {
        let (a, b) = choose|a: int, b: nat|
            0 <= a < more.len() && b < rows && key == #[trigger] spec_row_key(more[a]@, b);
        if a < i {
            assert(done[a] == more[a]);
            assert(0 <= a < done.len() && b < rows && key == spec_row_key(done[a]@, b));
        } else {
            assert(more[a] == keys[i]);
            assert(b < rows && key == spec_row_key(keys[i]@, b));
        }
    }
    if is_row_of(done, rows, key) {
        let (a, b) = choose|a: int, b: nat|
            0 <= a < done.len() && b < rows && key == #[trigger] spec_row_key(done[a]@, b);
        assert(done[a] == more[a]);
        assert(0 <= a < more.len() && b < rows && key == spec_row_key(more[a]@, b));
    }
    if is_row_below(keys[i]@, rows as nat, key) {
        let b = choose|b: nat| b < rows && key == #[trigger] spec_row_key(keys[i]@, b);
        assert(more[i] == keys[i]);
        assert(0 <= i < more.len() && b < rows && key == spec_row_key(more[i]@, b));
    }
}

/// A table of the logical keys `keys`, with `rows` row slots each and no
/// version in any of them.
pub open spec fn fresh_table(keys: Seq<&str>, rows: usize) -> Map<Seq<char>, Seq<Record>> {
    Map::new(|k: Seq<char>| is_row_of(keys, rows, k), |k: Seq<char>| Seq::<Record>::empty())
}

/// Whether appending to versions `s` would fill a ring of `cap` cells that
/// must not be filled.
pub open spec fn push_fatal(s: Seq<Record>, cap: usize, full_to_panic: bool) -> bool {
    full_to_panic && s.len() + 1 == cap
}

/// A multi-version store: tables of row keys, each key with a ring of
/// versions ordered by timestamp.
pub trait Database: Sized {
    /// The store's invariant.
    spec fn wf(&self) -> bool;

    /// What the store holds.
    spec fn content(&self) -> Content;

    /// The number of cells of each key's ring.
    spec fn ring_size(&self) -> usize;

    /// Whether filling a ring is fatal.
    spec fn full_to_panic(&self) -> bool;

    /// The number of row slots that each logical key gets.
    spec fn rows(&self) -> usize;

    /// In a well-formed store every key's versions are ordered by strictly
    /// increasing timestamp, so that a timestamp names at most one version
    /// of a key, and every readable version holds a value.
    proof fn lemma_ordered(&self, table: Seq<char>, key: Seq<char>)
        requires
            self.wf(),
            knows(self.content(), table, key),
        ensures
            increasing(versions_of(self.content(), table, key)),
            normal_filled(versions_of(self.content(), table, key)),
            versions_of(self.content(), table, key).len() < self.ring_size(),
    ;

    /// An empty store with the ring size, overflow policy and row slots of
    /// `config`.
    fn new(config: &Config) -> (r: Self)
        requires
            config.ringbuffer_size > 0,
        ensures
            r.wf(),
            r.content() == Map::<Seq<char>, Map<Seq<char>, Seq<Record>>>::empty(),
            r.ring_size() == config.ringbuffer_size,
            r.full_to_panic() == config.ringbuffer_full_to_panic,
            r.rows() == config.max_state_records,
    ;

    /// Adds, or replaces, the table `to_add_table` with every row slot of
    /// the logical keys `keys`, all without versions.
    fn add_table(&mut self, to_add_table: &str, keys: Vec<&str>)
        requires
            old(self).wf(),
        ensures
            final(self).wf(),
            final(self).content() == old(self).content().insert(
                to_add_table@,
                fresh_table(keys@, old(self).rows()),
            ),
            final(self).ring_size() == old(self).ring_size(),
            final(self).full_to_panic() == old(self).full_to_panic(),
            final(self).rows() == old(self).rows(),
    ;

    /// Marks the readable version of `key` at `ts` as empty.
    fn reset_version(&mut self, table: &str, key: &str, ts: u64)
        requires
            old(self).wf(),
            knows(old(self).content(), table@, key@),
            slot_state(versions_of(old(self).content(), table@, key@), ts) == Some(
                DataPointState::NORMAL,
            ),
        ensures
            final(self).wf(),
            final(self).content() == with_versions(
                old(self).content(),
                table@,
                key@,
                after_reset(versions_of(old(self).content(), table@, key@), ts),
            ),
            final(self).ring_size() == old(self).ring_size(),
            final(self).full_to_panic() == old(self).full_to_panic(),
            final(self).rows() == old(self).rows(),
    ;

    /// Fills the empty version of `key` at `ts` with `value`.
    fn write_version(&mut self, table: &str, key: &str, ts: u64, value: &Vec<u8>)
        requires
            old(self).wf(),
            knows(old(self).content(), table@, key@),
            slot_state(versions_of(old(self).content(), table@, key@), ts) == Some(
                DataPointState::EMPTY,
            ),
            value@.len() > 0,
        ensures
            final(self).wf(),
            final(self).content() == with_versions(
                old(self).content(),
                table@,
                key@,
                after_write(versions_of(old(self).content(), table@, key@), ts, value@),
            ),
            final(self).ring_size() == old(self).ring_size(),
            final(self).full_to_panic() == old(self).full_to_panic(),
            final(self).rows() == old(self).rows(),
    ;

    /// Appends a readable version of `key` at `ts`, which is newer than all
    /// that the key has.  Says whether that filled the key's ring, in which
    /// case the key is left without versions.
    fn push_version(&mut self, table: &str, key: &str, ts: u64, value: &Vec<u8>) -> (overflow: bool)
        requires
            old(self).wf(),
            knows(old(self).content(), table@, key@),
            newer_than_all(versions_of(old(self).content(), table@, key@), ts),
            value@.len() > 0,
            !push_fatal(
                versions_of(old(self).content(), table@, key@),
                old(self).ring_size(),
                old(self).full_to_panic(),
            ),
        ensures
            final(self).wf(),
            final(self).content() == with_versions(
                old(self).content(),
                table@,
                key@,
                after_push(
                    versions_of(old(self).content(), table@, key@),
                    old(self).ring_size(),
                    ts,
                    value@,
                ),
            ),
            overflow == (versions_of(old(self).content(), table@, key@).len() + 1 == old(
                self,
            ).ring_size()),
            final(self).ring_size() == old(self).ring_size(),
            final(self).full_to_panic() == old(self).full_to_panic(),
            final(self).rows() == old(self).rows(),
    ;

    /// Makes the version of `key` at `ts` readable, with the value of the
    /// nearest readable version before it, or the default value where there
    /// is none.  With `has_slot` the version exists and is overwritten;
    /// without, it is appended, and the result says whether that filled the
    /// ring.
    fn copy_last_version(&mut self, table: &str, key: &str, ts: u64, has_slot: bool) -> (overflow:
        bool)
        requires
            old(self).wf(),
            knows(old(self).content(), table@, key@),
            has_slot ==> crate::database::versions::has_slot(
                versions_of(old(self).content(), table@, key@),
                ts,
            ),
            !has_slot ==> newer_than_all(versions_of(old(self).content(), table@, key@), ts),
            !has_slot ==> !push_fatal(
                versions_of(old(self).content(), table@, key@),
                old(self).ring_size(),
                old(self).full_to_panic(),
            ),
        ensures
            final(self).wf(),
            final(self).content() == with_versions(
                old(self).content(),
                table@,
                key@,
                after_copy_last(
                    versions_of(old(self).content(), table@, key@),
                    old(self).ring_size(),
                    ts,
                    has_slot,
                ),
            ),
            overflow == (!has_slot && versions_of(old(self).content(), table@, key@).len() + 1
                == old(self).ring_size()),
            final(self).ring_size() == old(self).ring_size(),
            final(self).full_to_panic() == old(self).full_to_panic(),
            final(self).rows() == old(self).rows(),
    ;

    /// Releases the oldest version of `key`, which is the one at `ts`.
    fn release_version(&mut self, table: &str, key: &str, ts: u64)
        requires
            old(self).wf(),
            knows(old(self).content(), table@, key@),
            versions_of(old(self).content(), table@, key@).len() > 0,
            versions_of(old(self).content(), table@, key@)[0].ts == ts,
        ensures
            final(self).wf(),
            final(self).content() == with_versions(
                old(self).content(),
                table@,
                key@,
                after_release(versions_of(old(self).content(), table@, key@)),
            ),
            final(self).ring_size() == old(self).ring_size(),
            final(self).full_to_panic() == old(self).full_to_panic(),
            final(self).rows() == old(self).rows(),
    ;

    /// The value of the readable version of `key` at `ts`.
    fn get_version(&self, table: &str, key: &str, ts: u64) -> (value: Vec<u8>)
        requires
            self.wf(),
            knows(self.content(), table@, key@),
            slot_state(versions_of(self.content(), table@, key@), ts) == Some(
                DataPointState::NORMAL,
            ),
        ensures
            value@ == versions_of(self.content(), table@, key@)[slot_index(
                versions_of(self.content(), table@, key@),
                ts,
            )].value,
            value@.len() > 0,
    ;

    /// Whether the store has the row key `key` in table `table`.
    fn has_key(&self, table: &str, key: &str) -> (r: bool)
        requires
            self.wf(),
        ensures
            r == knows(self.content(), table@, key@),
    ;

    /// The state of the version of `key` at `ts`, if the key has one.
    fn version_state(&self, table: &str, key: &str, ts: u64) -> (r: Option<DataPointState>)
        requires
            self.wf(),
            knows(self.content(), table@, key@),
        ensures
            r == slot_state(versions_of(self.content(), table@, key@), ts),
    ;

    /// The timestamp of the newest version of `key`, if the key has one.
    fn newest_ts(&self, table: &str, key: &str) -> (r: Option<u64>)
        requires
            self.wf(),
            knows(self.content(), table@, key@),
        ensures
            r == (if versions_of(self.content(), table@, key@).len() == 0 {
                None
            } else {
                Some(versions_of(self.content(), table@, key@).last().ts)
            }),
    ;

    /// The timestamp of the oldest version of `key`, if the key has one.
    fn oldest_ts(&self, table: &str, key: &str) -> (r: Option<u64>)
        requires
            self.wf(),
            knows(self.content(), table@, key@),
        ensures
            r == (if versions_of(self.content(), table@, key@).len() == 0 {
                None
            } else {
                Some(versions_of(self.content(), table@, key@)[0].ts)
            }),
    ;

    /// Whether one more version of `key` would fill a ring that must not be
    /// filled.
    fn push_is_fatal(&self, table: &str, key: &str) -> (r: bool)
        requires
            self.wf(),
            knows(self.content(), table@, key@),
        ensures
            r == push_fatal(
                versions_of(self.content(), table@, key@),
                self.ring_size(),
                self.full_to_panic(),
            ),
    ;
}

} // verus!
