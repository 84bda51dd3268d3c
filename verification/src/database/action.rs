use crate::database::api::{knows, push_fatal, versions_of, with_versions, Content, Database};
use crate::database::versions::{
    after_copy_last, after_push, after_release, after_reset, after_write, default_value, has_slot,
    increasing, lemma_nearest_normal_filled, lemma_slot_index, nearest_normal, newer_than_all,
    normal_filled, slot_index, slot_state, DataPointState, Record,
};
use vstd::prelude::*;

verus! {

/// The table that the engine keeps its state in.
pub open spec fn default_table() -> Seq<char> {
    "default"@
}

/// A change of the store that the graph asks for.
pub enum DbAction {
    /// Append the first version that an event writes.
    Push { key: String, ts: u64, value: Vec<u8> },
    /// Fill the version of an event that writes again.
    Write { key: String, ts: u64, value: Vec<u8> },
    /// Empty the version of an event that is executed again.
    Reset { key: String, ts: u64 },
    /// Give the version of an aborted event the value before it.
    CopyLast { key: String, ts: u64, has_slot: bool },
    /// Release the version of a transaction that is gone.
    Release { key: String, ts: u64 },
}

/// A change of the store as the contracts see it.
pub ghost enum Action {
    Push { key: Seq<char>, ts: u64, value: Seq<u8> },
    Write { key: Seq<char>, ts: u64, value: Seq<u8> },
    Reset { key: Seq<char>, ts: u64 },
    CopyLast { key: Seq<char>, ts: u64, has_slot: bool },
    Release { key: Seq<char>, ts: u64 },
}

impl View for DbAction {
    type V = Action;

    open spec fn view(&self) -> Action {
        match self {
            DbAction::Push { key, ts, value } => Action::Push {
                key: key@,
                ts: *ts,
                value: value@,
            },
            DbAction::Write { key, ts, value } => Action::Write {
                key: key@,
                ts: *ts,
                value: value@,
            },
            DbAction::Reset { key, ts } => Action::Reset { key: key@, ts: *ts },
            DbAction::CopyLast { key, ts, has_slot } => Action::CopyLast {
                key: key@,
                ts: *ts,
                has_slot: *has_slot,
            },
            DbAction::Release { key, ts } => Action::Release { key: key@, ts: *ts },
        }
    }
}

/// The views of a list of changes.
pub open spec fn actions_of(list: Seq<DbAction>) -> Seq<Action> {
    list.map_values(|a: DbAction| a@)
}

/// Why a change of the store cannot be made.  Each is a broken invariant of
/// the engine, after which it cannot go on.
#[derive(Debug, Clone, Copy, PartialEq, Eq, Structural)]
pub enum Fault {
    /// The store has no such row key.
    UnknownKey,
    /// A version was to be appended that is not newer than all versions.
    NotNewest,
    /// A version was to be appended to a ring that must not be filled.
    RingFull,
    /// The version that was to be changed, read or released is not there.
    NoVersion,
    /// The version is not in the state that the change starts from.
    WrongState,
    /// The version that was to be released is not the oldest one.
    NotOldest,
    /// A version was to be written without a value.
    EmptyValue,
}

impl Action {
    pub open spec fn key(self) -> Seq<char> {
        match self {
            Action::Push { key, .. } => key,
            Action::Write { key, .. } => key,
            Action::Reset { key, .. } => key,
            Action::CopyLast { key, .. } => key,
            Action::Release { key, .. } => key,
        }
    }

    /// Why the change cannot be made on the versions `s` of its key, if it
    /// cannot.
    pub open spec fn fault(self, s: Seq<Record>, cap: usize, full_to_panic: bool) -> Option<Fault> {
        match self {
            Action::Push { ts, value, .. } => if value.len() == 0 {
                Some(Fault::EmptyValue)
            } else if !newer_than_all(s, ts) {
                Some(Fault::NotNewest)
            } else if push_fatal(s, cap, full_to_panic) {
                Some(Fault::RingFull)
            } else {
                None
            },
            Action::Write { ts, value, .. } => if value.len() == 0 {
                Some(Fault::EmptyValue)
            } else {
                match slot_state(s, ts) {
                    None => Some(Fault::NoVersion),
                    Some(DataPointState::NORMAL) => Some(Fault::WrongState),
                    Some(DataPointState::EMPTY) => None,
                }
            },
            Action::Reset { ts, .. } => match slot_state(s, ts) {
                None => Some(Fault::NoVersion),
                Some(DataPointState::EMPTY) => Some(Fault::WrongState),
                Some(DataPointState::NORMAL) => None,
            },
            Action::CopyLast { ts, has_slot, .. } => if has_slot {
                if crate::database::versions::has_slot(s, ts) {
                    None
                } else {
                    Some(Fault::NoVersion)
                }
            } else if !newer_than_all(s, ts) {
                Some(Fault::NotNewest)
            } else if push_fatal(s, cap, full_to_panic) {
                Some(Fault::RingFull)
            } else {
                None
            },
            Action::Release { ts, .. } => if s.len() == 0 {
                Some(Fault::NoVersion)
            } else if s[0].ts != ts {
                Some(Fault::NotOldest)
            } else {
                None
            },
        }
    }

    /// The versions of the key after the change.
    pub open spec fn effect(self, s: Seq<Record>, cap: usize) -> Seq<Record> {
        match self {
            Action::Push { ts, value, .. } => after_push(s, cap, ts, value),
            Action::Write { ts, value, .. } => after_write(s, ts, value),
            Action::Reset { ts, .. } => after_reset(s, ts),
            Action::CopyLast { ts, has_slot, .. } => after_copy_last(s, cap, ts, has_slot),
            Action::Release { .. } => after_release(s),
        }
    }

    /// Whether the change fills the ring of its key.
    pub open spec fn overflows(self, s: Seq<Record>, cap: usize) -> bool {
        match self {
            Action::Push { .. } => s.len() + 1 == cap,
            Action::CopyLast { has_slot, .. } => !has_slot && s.len() + 1 == cap,
            _ => false,
        }
    }
}

/// What making the change `a` in the table of the engine gives: the new
/// content and whether a ring was filled, or the fault that prevents it.
pub open spec fn applied(content: Content, cap: usize, full_to_panic: bool, a: Action) -> Result<
    (Content, bool),
    Fault,
> {
    if !knows(content, default_table(), a.key()) {
        Err(Fault::UnknownKey)
    } else {
        let s = versions_of(content, default_table(), a.key());
        match a.fault(s, cap, full_to_panic) {
            Some(f) => Err(f),
            None => Ok(
                (with_versions(content, default_table(), a.key(), a.effect(s, cap)), a.overflows(
                    s,
                    cap,
                )),
            ),
        }
    }
}

/// What making the first `upto` changes of `list` gives: the new content
/// and the number of rings filled on the way, or the first fault.
pub open spec fn applied_all(
    content: Content,
    cap: usize,
    full_to_panic: bool,
    list: Seq<Action>,
    upto: int,
) -> Result<(Content, nat), Fault>
    decreases upto,
{
    if upto <= 0 {
        Ok((content, 0))
    } else {
        match applied_all(content, cap, full_to_panic, list, upto - 1) {
            Err(f) => Err(f),
            Ok(sofar) => match applied(sofar.0, cap, full_to_panic, list[upto - 1]) {
                Err(f) => Err(f),
                Ok(next) => Ok((next.0, sofar.1 + if next.1 {
                    1nat
                } else {
                    0nat
                })),
            },
        }
    }
}

/// Whether `left` is what a store of `content` holds once the changes of
/// `list` were made up to the first that cannot be made.
pub open spec fn stopped(
    content: Content,
    cap: usize,
    full_to_panic: bool,
    list: Seq<Action>,
    left: Content,
) -> bool {
    exists|n: int|
        0 <= n < list.len() && (#[trigger] applied_all(content, cap, full_to_panic, list, n)
            matches Ok(done) && done.0 == left && applied(left, cap, full_to_panic, list[n])
            is Err)
}

/// Makes the change `a` in the store, after testing that it can be made.
/// The store is left as it was where it cannot.
pub fn apply<D: Database>(db: &mut D, a: &DbAction) -> (r: Result<bool, Fault>)
    requires
        old(db).wf(),
    ensures
        final(db).wf(),
        final(db).ring_size() == old(db).ring_size(),
        final(db).full_to_panic() == old(db).full_to_panic(),
        final(db).rows() == old(db).rows(),
        match applied(old(db).content(), old(db).ring_size(), old(db).full_to_panic(), a@) {
            Ok(done) => r == Ok::<bool, Fault>(done.1) && final(db).content() == done.0,
            Err(f) => r == Err::<bool, Fault>(f) && final(db).content() == old(db).content(),
        },
{
    proof {
        reveal_strlit("default");
    }
    let table = "default";
    match a {
        DbAction::Push { key, ts, value } => {
            if !db.has_key(table, key.as_str()) {
                return Err(Fault::UnknownKey);
            }
            if value.len() == 0 {
                return Err(Fault::EmptyValue);
            }
            match db.newest_ts(table, key.as_str()) {
                Some(newest) => {
                    if newest >= *ts {
                        return Err(Fault::NotNewest);
                    }
                },
                None => {},
            }
            if db.push_is_fatal(table, key.as_str()) {
                return Err(Fault::RingFull);
            }
            Ok(db.push_version(table, key.as_str(), *ts, value))
        },
        DbAction::Write { key, ts, value } => {
            if !db.has_key(table, key.as_str()) {
                return Err(Fault::UnknownKey);
            }
            if value.len() == 0 {
                return Err(Fault::EmptyValue);
            }
            match db.version_state(table, key.as_str(), *ts) {
                None => Err(Fault::NoVersion),
                Some(DataPointState::NORMAL) => Err(Fault::WrongState),
                Some(DataPointState::EMPTY) => {
                    db.write_version(table, key.as_str(), *ts, value);
                    Ok(false)
                },
            }
        },
        DbAction::Reset { key, ts } => {
            if !db.has_key(table, key.as_str()) {
                return Err(Fault::UnknownKey);
            }
            match db.version_state(table, key.as_str(), *ts) {
                None => Err(Fault::NoVersion),
                Some(DataPointState::EMPTY) => Err(Fault::WrongState),
                Some(DataPointState::NORMAL) => {
                    db.reset_version(table, key.as_str(), *ts);
                    Ok(false)
                },
            }
        },
        DbAction::CopyLast { key, ts, has_slot } => {
            if !db.has_key(table, key.as_str()) {
                return Err(Fault::UnknownKey);
            }
            if *has_slot {
                match db.version_state(table, key.as_str(), *ts) {
                    None => {
                        return Err(Fault::NoVersion);
                    },
                    Some(_) => {},
                }
            } else {
                match db.newest_ts(table, key.as_str()) {
                    Some(newest) => {
                        if newest >= *ts {
                            return Err(Fault::NotNewest);
                        }
                    },
                    None => {},
                }
                if db.push_is_fatal(table, key.as_str()) {
                    return Err(Fault::RingFull);
                }
            }
            Ok(db.copy_last_version(table, key.as_str(), *ts, *has_slot))
        },
        DbAction::Release { key, ts } => {
            if !db.has_key(table, key.as_str()) {
                return Err(Fault::UnknownKey);
            }
            match db.oldest_ts(table, key.as_str()) {
                None => Err(Fault::NoVersion),
                Some(oldest) => {
                    if oldest != *ts {
                        Err(Fault::NotOldest)
                    } else {
                        db.release_version(table, key.as_str(), *ts);
                        Ok(false)
                    }
                },
            }
        },
    }
}

/// Makes the changes of `list` in the store, in order, up to the first
/// that cannot be made.  Returns the number of rings that were filled, or
/// the fault of the change that could not be made; the changes before it
/// stay.
pub fn apply_all<D: Database>(db: &mut D, list: &Vec<DbAction>) -> (r: Result<usize, Fault>)
    requires
        old(db).wf(),
    ensures
        final(db).wf(),
        final(db).ring_size() == old(db).ring_size(),
        final(db).full_to_panic() == old(db).full_to_panic(),
        final(db).rows() == old(db).rows(),
        match applied_all(
            old(db).content(),
            old(db).ring_size(),
            old(db).full_to_panic(),
            actions_of(list@),
            list@.len() as int,
        ) {
            Ok(done) => r is Ok && r->Ok_0 == done.1 && final(db).content() == done.0,
            Err(f) => r == Err::<usize, Fault>(f) && stopped(
                old(db).content(),
                old(db).ring_size(),
                old(db).full_to_panic(),
                actions_of(list@),
                final(db).content(),
            ),
        },
{
    let ghost start = db.content();
    let ghost cap = db.ring_size();
    let ghost f2p = db.full_to_panic();
    let ghost all = actions_of(list@);
    let mut filled: usize = 0;
    let mut i: usize = 0;
    while i < list.len()
        invariant
            i <= list@.len(),
            db.wf(),
            db.ring_size() == cap,
            db.full_to_panic() == f2p,
            db.rows() == old(db).rows(),
            cap == old(db).ring_size(),
            f2p == old(db).full_to_panic(),
            start == old(db).content(),
            all == actions_of(list@),
            filled <= i,
            applied_all(start, cap, f2p, all, i as int) == Ok::<(Content, nat), Fault>(
                (db.content(), filled as nat),
            ),
        decreases list.len() - i,
    {
        match apply(db, &list[i]) {
            Ok(overflow) => {
                if overflow {
                    filled = filled + 1;
                }
            },
            Err(f) => {
                proof {
                    lemma_applied_all_fails(start, cap, f2p, all, i + 1, list@.len() as int);
                    assert(applied_all(start, cap, f2p, all, i as int) matches Ok(done) && done.0
                        == db.content() && applied(db.content(), cap, f2p, all[i as int]) is Err);
                }
                return Err(f);
            },
        }
        i = i + 1;
    }
    Ok(filled)
}

/// Once a change has failed, the list has failed.
pub proof fn lemma_applied_all_fails(
    content: Content,
    cap: usize,
    full_to_panic: bool,
    list: Seq<Action>,
    at: int,
    upto: int,
)
    requires
        0 <= at <= upto,
        applied_all(content, cap, full_to_panic, list, at) is Err,
    ensures
        applied_all(content, cap, full_to_panic, list, upto) == applied_all(
            content,
            cap,
            full_to_panic,
            list,
            at,
        ),
    decreases upto - at,
{
    if at < upto {
        lemma_applied_all_fails(content, cap, full_to_panic, list, at, upto - 1);
    }
}

/// Where the value of a read comes from.
pub enum ReadSource {
    /// The key was never written: the default value.
    Default,
    /// The version of `key` that the producer wrote at `ts`.
    Version { key: String, ts: u64 },
}

/// Where the value of a read comes from, as the contracts see it.
pub ghost enum Source {
    Default,
    Version { key: Seq<char>, ts: u64 },
}

impl View for ReadSource {
    type V = Source;

    open spec fn view(&self) -> Source {
        match self {
            ReadSource::Default => Source::Default,
            ReadSource::Version { key, ts } => Source::Version { key: key@, ts: *ts },
        }
    }
}

/// The views of a list of sources.
pub open spec fn sources_of(list: Seq<ReadSource>) -> Seq<Source> {
    list.map_values(|s: ReadSource| s@)
}

/// The value that reading from `source` gives, or the fault that prevents
/// it: a key that was never written reads as the default value, and a
/// version is read if it is there and readable.
pub open spec fn fetched(content: Content, source: Source) -> Result<Seq<u8>, Fault> {
    match source {
        Source::Default => Ok(default_value()),
        Source::Version { key, ts } => if !knows(content, default_table(), key) {
            Err(Fault::UnknownKey)
        } else {
            let s = versions_of(content, default_table(), key);
            match slot_state(s, ts) {
                None => Err(Fault::NoVersion),
                Some(DataPointState::EMPTY) => Err(Fault::WrongState),
                Some(DataPointState::NORMAL) => Ok(s[slot_index(s, ts)].value),
            }
        },
    }
}

/// The values that reading from the first `upto` of `plan` gives, or the
/// first fault.
pub open spec fn fetched_all(content: Content, plan: Seq<Source>, upto: int) -> Result<
    Seq<Seq<u8>>,
    Fault,
>
    decreases upto,
{
    if upto <= 0 {
        Ok(Seq::empty())
    } else {
        match fetched_all(content, plan, upto - 1) {
            Err(f) => Err(f),
            Ok(sofar) => match fetched(content, plan[upto - 1]) {
                Err(f) => Err(f),
                Ok(value) => Ok(sofar.push(value)),
            },
        }
    }
}

/// Once a read has failed, the plan has failed.
pub proof fn lemma_fetched_all_fails(content: Content, plan: Seq<Source>, at: int, upto: int)
    requires
        0 <= at <= upto,
        fetched_all(content, plan, at) is Err,
    ensures
        fetched_all(content, plan, upto) == fetched_all(content, plan, at),
    decreases upto - at,
{
    if at < upto {
        lemma_fetched_all_fails(content, plan, at, upto - 1);
    }
}

/// Reads the values of `plan` from the store, after testing for each that
/// it can be read.
pub fn fetch<D: Database>(db: &D, plan: &Vec<ReadSource>) -> (r: Result<Vec<Vec<u8>>, Fault>)
    requires
        db.wf(),
    ensures
        match fetched_all(db.content(), sources_of(plan@), plan@.len() as int) {
            Ok(values) => r is Ok && r->Ok_0@.map_values(|v: Vec<u8>| v@) == values,
            Err(f) => r == Err::<Vec<Vec<u8>>, Fault>(f),
        },
{
    proof {
        reveal_strlit("default");
    }
    let table = "default";
    let ghost all = sources_of(plan@);
    let mut values: Vec<Vec<u8>> = Vec::new();
    let mut i: usize = 0;
    assert(values@.map_values(|v: Vec<u8>| v@) =~= Seq::<Seq<u8>>::empty());
    while i < plan.len()
        invariant
            i <= plan@.len(),
            db.wf(),
            table@ == default_table(),
            all == sources_of(plan@),
            fetched_all(db.content(), all, i as int) == Ok::<Seq<Seq<u8>>, Fault>(
                values@.map_values(|v: Vec<u8>| v@),
            ),
        decreases plan.len() - i,
    {
        let ghost sofar = values@.map_values(|v: Vec<u8>| v@);
        let value = match &plan[i] {
            ReadSource::Default => {
                let v = vec![0u8];
                assert(v@ =~= default_value());
                v
            },
            ReadSource::Version { key, ts } => {
                if !db.has_key(table, key.as_str()) {
                    proof {
                        lemma_fetched_all_fails(db.content(), all, i + 1, plan@.len() as int);
                    }
                    return Err(Fault::UnknownKey);
                }
                match db.version_state(table, key.as_str(), *ts) {
                    None => {
                        proof {
                            lemma_fetched_all_fails(db.content(), all, i + 1, plan@.len() as int);
                        }
                        return Err(Fault::NoVersion);
                    },
                    Some(DataPointState::EMPTY) => {
                        proof {
                            lemma_fetched_all_fails(db.content(), all, i + 1, plan@.len() as int);
                        }
                        return Err(Fault::WrongState);
                    },
                    Some(DataPointState::NORMAL) => db.get_version(table, key.as_str(), *ts),
                }
            },
        };
        values.push(value);
        assert(values@.map_values(|v: Vec<u8>| v@) =~= sofar.push(value@));
        i = i + 1;
    }
    Ok(values)
}

impl Action {
    /// The timestamp of the version that the change names.
    pub open spec fn ts(self) -> u64 {
        match self {
            Action::Push { ts, .. } => ts,
            Action::Write { ts, .. } => ts,
            Action::Reset { ts, .. } => ts,
            Action::CopyLast { ts, .. } => ts,
            Action::Release { ts, .. } => ts,
        }
    }
}

/// Whatever the engine does to the versions of a key, they stay ordered by
/// strictly increasing timestamp, and every readable version holds a value.
pub proof fn lemma_effect_keeps_order(a: Action, s: Seq<Record>, cap: usize, full_to_panic: bool)
    requires
        increasing(s),
        normal_filled(s),
        a.fault(s, cap, full_to_panic) is None,
    ensures
        increasing(a.effect(s, cap)),
        normal_filled(a.effect(s, cap)),
{
    let after = a.effect(s, cap);
    match a {
        Action::Push { ts, value, .. } => {
            assert forall|i: int, j: int| 0 <= i < j < after.len() implies after[i].ts
                < after[j].ts by {
                if j == s.len() {
                    if i < s.len() - 1 {
                        assert(s[i].ts < s[s.len() - 1].ts);
                    }
                } else {
                    assert(s[i].ts < s[j].ts);
                }
            }
        },
        Action::CopyLast { ts, has_slot, .. } => {
            if has_slot {
                lemma_nearest_normal_filled(s, slot_index(s, ts));
                assert forall|i: int, j: int| 0 <= i < j < after.len() implies after[i].ts
                    < after[j].ts by {
                    assert(s[i].ts < s[j].ts);
                }
            } else {
                lemma_nearest_normal_filled(s, s.len() as int);
                assert forall|i: int, j: int| 0 <= i < j < after.len() implies after[i].ts
                    < after[j].ts by {
                    if j == s.len() {
                        if i < s.len() - 1 {
                            assert(s[i].ts < s[s.len() - 1].ts);
                        }
                    } else {
                        assert(s[i].ts < s[j].ts);
                    }
                }
            }
        },
        Action::Release { .. } => {
            assert forall|i: int, j: int| 0 <= i < j < after.len() implies after[i].ts
                < after[j].ts by {
                assert(s[i + 1].ts < s[j + 1].ts);
            }
            assert forall|i: int|
                0 <= i < after.len() && after[i].state
                    == DataPointState::NORMAL implies after[i].value.len() > 0 by {
                assert(s[i + 1].state == DataPointState::NORMAL);
            }
        },
        _ => {
            assert forall|i: int, j: int| 0 <= i < j < after.len() implies after[i].ts
                < after[j].ts by {
                assert(s[i].ts < s[j].ts);
            }
        },
    }
}

/// What a change makes of the version that it names, where it does not
/// fill the ring.  What an event writes back can be read with its value; a
/// version that is reset cannot be read; a version that is copied forward
/// can be read, with the value of the nearest readable version before it;
/// and a version that is released is gone.
pub proof fn lemma_effect_on_version(a: Action, s: Seq<Record>, cap: usize, full_to_panic: bool)
    requires
        increasing(s),
        a.fault(s, cap, full_to_panic) is None,
        !a.overflows(s, cap),
        s.len() < cap,
    ensures
        match a {
            Action::Push { ts, value, .. } => readable_with(a.effect(s, cap), ts, value),
            Action::Write { ts, value, .. } => readable_with(a.effect(s, cap), ts, value),
            Action::Reset { ts, .. } => slot_state(a.effect(s, cap), ts) == Some(
                DataPointState::EMPTY,
            ),
            Action::CopyLast { ts, has_slot, .. } => readable_with(
                a.effect(s, cap),
                ts,
                nearest_normal(
                    s,
                    if has_slot {
                        slot_index(s, ts)
                    } else {
                        s.len() as int
                    },
                ),
            ),
            Action::Release { ts, .. } => slot_state(a.effect(s, cap), ts) is None,
        },
{
    let after = a.effect(s, cap);
    lemma_effect_keeps_order_weak(a, s, cap, full_to_panic);
    match a {
        Action::Push { ts, .. } => {
            assert(after[s.len() as int].ts == ts);
            lemma_slot_index(after, s.len() as int);
        },
        Action::Write { ts, .. } => {
            let i = slot_index(s, ts);
            assert(after[i].ts == ts);
            lemma_slot_index(after, i);
        },
        Action::Reset { ts, .. } => {
            let i = slot_index(s, ts);
            assert(after[i].ts == ts);
            lemma_slot_index(after, i);
        },
        Action::CopyLast { ts, has_slot, .. } => {
            if has_slot {
                let i = slot_index(s, ts);
                assert(after[i].ts == ts);
                lemma_slot_index(after, i);
            } else {
                assert(after[s.len() as int].ts == ts);
                lemma_slot_index(after, s.len() as int);
            }
        },
        Action::Release { ts, .. } => {
            if has_slot(after, ts) {
                let i = slot_index(after, ts);
                assert(s[i + 1].ts == ts);
                assert(s[0].ts < s[i + 1].ts);
            }
        },
    }
}

/// The version of timestamp `ts` can be read, and holds `value`.
pub open spec fn readable_with(s: Seq<Record>, ts: u64, value: Seq<u8>) -> bool {
    slot_state(s, ts) == Some(DataPointState::NORMAL) && s[slot_index(s, ts)].value == value
}

/// A change keeps the versions ordered, whether or not readable versions
/// hold a value.
pub proof fn lemma_effect_keeps_order_weak(
    a: Action,
    s: Seq<Record>,
    cap: usize,
    full_to_panic: bool,
)
    requires
        increasing(s),
        a.fault(s, cap, full_to_panic) is None,
    ensures
        increasing(a.effect(s, cap)),
{
    let after = a.effect(s, cap);
    match a {
        Action::Push { .. } => {
            assert forall|i: int, j: int| 0 <= i < j < after.len() implies after[i].ts
                < after[j].ts by {
                if j == s.len() {
                    if i < s.len() - 1 {
                        assert(s[i].ts < s[s.len() - 1].ts);
                    }
                } else {
                    assert(s[i].ts < s[j].ts);
                }
            }
        },
        Action::CopyLast { has_slot, .. } => {
            assert forall|i: int, j: int| 0 <= i < j < after.len() implies after[i].ts
                < after[j].ts by {
                if !has_slot && j == s.len() {
                    if i < s.len() - 1 {
                        assert(s[i].ts < s[s.len() - 1].ts);
                    }
                } else {
                    assert(s[i].ts < s[j].ts);
                }
            }
        },
        Action::Release { .. } => {
            assert forall|i: int, j: int| 0 <= i < j < after.len() implies after[i].ts
                < after[j].ts by {
                assert(s[i + 1].ts < s[j + 1].ts);
            }
        },
        _ => {
            assert forall|i: int, j: int| 0 <= i < j < after.len() implies after[i].ts
                < after[j].ts by {
                assert(s[i].ts < s[j].ts);
            }
        },
    }
}

/// A change leaves every version alone but the one that it names, where it
/// does not fill the ring: the others keep their state and their value.
pub proof fn lemma_effect_elsewhere(
    a: Action,
    s: Seq<Record>,
    cap: usize,
    full_to_panic: bool,
    other: u64,
)
    requires
        increasing(s),
        a.fault(s, cap, full_to_panic) is None,
        !a.overflows(s, cap),
        s.len() < cap,
        other != a.ts(),
    ensures
        slot_state(a.effect(s, cap), other) == slot_state(s, other),
        has_slot(s, other) ==> a.effect(s, cap)[slot_index(a.effect(s, cap), other)] == s[slot_index(
            s,
            other,
        )],
{
    let after = a.effect(s, cap);
    lemma_effect_keeps_order_weak(a, s, cap, full_to_panic);
    let shift: int = if a is Release {
        1
    } else {
        0
    };
    if has_slot(s, other) {
        let i = slot_index(s, other);
        if a is Release {
            assert(i != 0);
        }
        assert(after[i - shift] == s[i]);
        lemma_slot_index(after, i - shift);
    }
    if has_slot(after, other) {
        let i = slot_index(after, other);
        assert(s[i + shift].ts == other);
        lemma_slot_index(s, i + shift);
    }
}

/// What an accepted event writes back can be read from the store
/// afterwards, with the value that was written, unless the write filled
/// the ring.
pub proof fn lemma_write_back_publishes(
    content: Content,
    cap: usize,
    full_to_panic: bool,
    a: Action,
    value: Seq<u8>,
)
    requires
        a == (Action::Push { key: a.key(), ts: a.ts(), value }) || a == (Action::Write {
            key: a.key(),
            ts: a.ts(),
            value,
        }),
        knows(content, default_table(), a.key()) ==> increasing(
            versions_of(content, default_table(), a.key()),
        ) && versions_of(content, default_table(), a.key()).len() < cap,
        applied(content, cap, full_to_panic, a) matches Ok(done) && !done.1,
    ensures
        fetched(
            applied(content, cap, full_to_panic, a)->Ok_0.0,
            Source::Version { key: a.key(), ts: a.ts() },
        ) == Ok::<Seq<u8>, Fault>(value),
{
    let s = versions_of(content, default_table(), a.key());
    lemma_effect_on_version(a, s, cap, full_to_panic);
    let done = applied(content, cap, full_to_panic, a)->Ok_0;
    assert(versions_of(done.0, default_table(), a.key()) == a.effect(s, cap));
}

/// What making the changes of `list` gives, in order.
pub open spec fn run(content: Content, cap: usize, full_to_panic: bool, list: Seq<Action>) -> Result<
    (Content, nat),
    Fault,
> {
    applied_all(content, cap, full_to_panic, list, list.len() as int)
}

/// Every key of the table of the engine has its versions in order, with a
/// cell of its ring to spare.
pub open spec fn ordered(content: Content, cap: usize) -> bool {
    forall|k: Seq<char>| #[trigger]
        knows(content, default_table(), k) ==> increasing(versions_of(content, default_table(), k))
            && versions_of(content, default_table(), k).len() < cap
}

/// The changes of a list that is put together from two lists are those of
/// the first list, then those of the second.
pub proof fn lemma_run_concat(
    content: Content,
    cap: usize,
    full_to_panic: bool,
    a: Seq<Action>,
    b: Seq<Action>,
)
    ensures
        run(content, cap, full_to_panic, a + b) == (match run(content, cap, full_to_panic, a) {
            Err(f) => Err::<(Content, nat), Fault>(f),
            Ok(first) => match run(first.0, cap, full_to_panic, b) {
                Err(f) => Err(f),
                Ok(second) => Ok((second.0, first.1 + second.1)),
            },
        }),
    decreases b.len(),
{
    if b.len() == 0 {
        assert(a + b =~= a);
    } else {
        let all = a + b;
        let head = b.drop_last();
        lemma_run_concat(content, cap, full_to_panic, a, head);
        assert((a + head) =~= all.drop_last());
        lemma_applied_all_prefix(content, cap, full_to_panic, all, a + head, (all.len() - 1) as int);
        assert(all[all.len() - 1] == b[b.len() - 1]);
        match run(content, cap, full_to_panic, a) {
            Err(f) => {},
            Ok(first) => {
                lemma_applied_all_prefix(
                    first.0,
                    cap,
                    full_to_panic,
                    b,
                    head,
                    (b.len() - 1) as int,
                );
            },
        }
    }
}

/// The changes of the first `upto` of a list depend on those only.
pub proof fn lemma_applied_all_prefix(
    content: Content,
    cap: usize,
    full_to_panic: bool,
    list: Seq<Action>,
    prefix: Seq<Action>,
    upto: int,
)
    requires
        0 <= upto <= prefix.len() <= list.len(),
        forall|i: int| 0 <= i < upto ==> list[i] == prefix[i],
    ensures
        applied_all(content, cap, full_to_panic, list, upto) == applied_all(
            content,
            cap,
            full_to_panic,
            prefix,
            upto,
        ),
    decreases upto,
{
    if upto > 0 {
        lemma_applied_all_prefix(content, cap, full_to_panic, list, prefix, upto - 1);
    }
}

/// No change leaves the store as it is.
pub proof fn lemma_run_none(content: Content, cap: usize, full_to_panic: bool)
    ensures
        run(content, cap, full_to_panic, Seq::<Action>::empty()) == Ok::<(Content, nat), Fault>(
            (content, 0nat),
        ),
{
}

/// The change of a list of one is that one change.
pub proof fn lemma_run_one(content: Content, cap: usize, full_to_panic: bool, a: Action)
    ensures
        run(content, cap, full_to_panic, seq![a]) == (match applied(
            content,
            cap,
            full_to_panic,
            a,
        ) {
            Err(f) => Err::<(Content, nat), Fault>(f),
            Ok(done) => Ok((done.0, if done.1 {
                1nat
            } else {
                0nat
            })),
        }),
{
    let list = seq![a];
    assert(applied_all(content, cap, full_to_panic, list, 0) == Ok::<(Content, nat), Fault>(
        (content, 0nat),
    ));
    assert(list[0] == a);
}

/// What a change that does not fill a ring does to an ordered store: the
/// store stays ordered and keeps its keys; the versions of every other key
/// stay as they are; and among the versions of the key of the change, all
/// but the one that it names keep their place and their state.
pub proof fn lemma_applied(content: Content, cap: usize, full_to_panic: bool, a: Action)
    requires
        ordered(content, cap),
        applied(content, cap, full_to_panic, a) matches Ok(done) && !done.1,
    ensures
        ({
            let after = applied(content, cap, full_to_panic, a)->Ok_0.0;
            let before_key = versions_of(content, default_table(), a.key());
            let after_key = versions_of(after, default_table(), a.key());
            &&& ordered(after, cap)
            &&& knows(content, default_table(), a.key())
            &&& a.fault(before_key, cap, full_to_panic) is None
            &&& after_key == a.effect(before_key, cap)
            &&& forall|k: Seq<char>|
                knows(after, default_table(), k) == knows(content, default_table(), k)
            &&& forall|k: Seq<char>|
                k != a.key() ==> versions_of(after, default_table(), k) == versions_of(
                    content,
                    default_table(),
                    k,
                )
            &&& forall|other: u64|
                other != a.ts() ==> #[trigger] slot_state(after_key, other) == slot_state(
                    before_key,
                    other,
                ) && (has_slot(before_key, other) ==> after_key[slot_index(after_key, other)]
                    == before_key[slot_index(before_key, other)])
        }),
{
    let after = applied(content, cap, full_to_panic, a)->Ok_0.0;
    let before_key = versions_of(content, default_table(), a.key());
    let after_key = versions_of(after, default_table(), a.key());
    lemma_effect_keeps_order_weak(a, before_key, cap, full_to_panic);
    assert forall|other: u64| other != a.ts() implies #[trigger] slot_state(after_key, other)
        == slot_state(before_key, other) && (has_slot(before_key, other)
        ==> after_key[slot_index(after_key, other)] == before_key[slot_index(
        before_key,
        other,
    )]) by {
        lemma_effect_elsewhere(a, before_key, cap, full_to_panic, other);
    }
    assert forall|k: Seq<char>| #[trigger] knows(after, default_table(), k) implies increasing(
        versions_of(after, default_table(), k),
    ) && versions_of(after, default_table(), k).len() < cap by {
        assert(knows(content, default_table(), k));
    }
}

/// A store that is in order has every key of the table of the engine in
/// order.
pub proof fn lemma_store_ordered<D: Database>(db: &D)
    requires
        db.wf(),
    ensures
        ordered(db.content(), db.ring_size()),
{
    assert forall|k: Seq<char>| #[trigger]
        knows(db.content(), default_table(), k) implies increasing(
        versions_of(db.content(), default_table(), k),
    ) && versions_of(db.content(), default_table(), k).len() < db.ring_size() by {
        db.lemma_ordered(default_table(), k);
    }
}

} // verus!
