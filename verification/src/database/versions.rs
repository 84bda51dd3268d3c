use vstd::prelude::*;

verus! {

/// Whether a version holds a value.
#[derive(Clone, Copy, Debug, PartialEq, Eq, Structural)]
pub enum DataPointState {
    /// The version holds a value that may be read.
    NORMAL,
    /// The version is reserved, was reset, or is not in use.
    EMPTY,
}

/// One version of a key, as the contracts see it.
pub ghost struct Record {
    pub ts: u64,
    pub value: Seq<u8>,
    pub state: DataPointState,
}

/// The value that a key has before anything was written to it.
pub open spec fn default_value() -> Seq<u8> {
    seq![0u8]
}

/// The versions of a key are ordered by strictly increasing timestamp.
pub open spec fn increasing(s: Seq<Record>) -> bool {
    forall|i: int, j: int| 0 <= i < j < s.len() ==> s[i].ts < s[j].ts
}

/// Every version that may be read holds at least one byte.
pub open spec fn normal_filled(s: Seq<Record>) -> bool {
    forall|i: int| 0 <= i < s.len() && s[i].state == DataPointState::NORMAL ==> s[i].value.len() > 0
}

/// Whether `s` holds a version of timestamp `ts`.
pub open spec fn has_slot(s: Seq<Record>, ts: u64) -> bool {
    exists|i: int| 0 <= i < s.len() && s[i].ts == ts
}

/// The position of the version of timestamp `ts`.
pub open spec fn slot_index(s: Seq<Record>, ts: u64) -> int {
    choose|i: int| 0 <= i < s.len() && s[i].ts == ts
}

/// The state of the version of timestamp `ts`, if there is one.
pub open spec fn slot_state(s: Seq<Record>, ts: u64) -> Option<DataPointState> {
    if has_slot(s, ts) {
        Some(s[slot_index(s, ts)].state)
    } else {
        None
    }
}

/// Whether a version of timestamp `ts` can be appended: it is newer than
/// every version held.
pub open spec fn newer_than_all(s: Seq<Record>, ts: u64) -> bool {
    s.len() == 0 || s.last().ts < ts
}

/// The value of the nearest readable version among the first `below`
/// versions, or the default value where none of them can be read.
pub open spec fn nearest_normal(s: Seq<Record>, below: int) -> Seq<u8>
    decreases below,
{
    if below <= 0 {
        default_value()
    } else if s[below - 1].state == DataPointState::NORMAL {
        s[below - 1].value
    } else {
        nearest_normal(s, below - 1)
    }
}

/// A ring of `cap` cells after a version was appended: one more version, or
/// nothing at all where the version took the last free cell.
pub open spec fn after_push(s: Seq<Record>, cap: usize, ts: u64, value: Seq<u8>) -> Seq<Record> {
    if s.len() + 1 < cap {
        s.push(Record { ts, value, state: DataPointState::NORMAL })
    } else {
        Seq::empty()
    }
}

/// The versions after the reserved version of timestamp `ts` was filled.
pub open spec fn after_write(s: Seq<Record>, ts: u64, value: Seq<u8>) -> Seq<Record> {
    s.update(slot_index(s, ts), Record { ts, value, state: DataPointState::NORMAL })
}

/// The versions after the version of timestamp `ts` was reset.
pub open spec fn after_reset(s: Seq<Record>, ts: u64) -> Seq<Record> {
    let i = slot_index(s, ts);
    s.update(i, Record { ts, value: s[i].value, state: DataPointState::EMPTY })
}

/// The versions after the version of timestamp `ts` was given the value of
/// the nearest readable version before it.
pub open spec fn after_copy_last(s: Seq<Record>, cap: usize, ts: u64, has_slot: bool) -> Seq<
    Record,
> {
    if has_slot {
        let i = slot_index(s, ts);
        s.update(i, Record { ts, value: nearest_normal(s, i), state: DataPointState::NORMAL })
    } else {
        after_push(s, cap, ts, nearest_normal(s, s.len() as int))
    }
}

/// The versions after the oldest one was released.
pub open spec fn after_release(s: Seq<Record>) -> Seq<Record> {
    s.skip(1)
}

/// In an ordered ring a timestamp names at most one version.
pub proof fn lemma_slot_unique(s: Seq<Record>, i: int, j: int)
    requires
        increasing(s),
        0 <= i < s.len(),
        0 <= j < s.len(),
        s[i].ts == s[j].ts,
    ensures
        i == j,
{
    if i < j {
        assert(s[i].ts < s[j].ts);
    } else if j < i {
        assert(s[j].ts < s[i].ts);
    }
}

/// In an ordered ring the version of a timestamp is found at the one
/// position that holds it.
pub proof fn lemma_slot_index(s: Seq<Record>, i: int)
    requires
        increasing(s),
        0 <= i < s.len(),
    ensures
        has_slot(s, s[i].ts),
        slot_index(s, s[i].ts) == i,
{
    let j = slot_index(s, s[i].ts);
    lemma_slot_unique(s, i, j);
}

/// The value is that of position `i` where position `i` can be read and
/// nothing between it and `below` can.
pub proof fn lemma_nearest_normal_found(s: Seq<Record>, below: int, i: int)
    requires
        0 <= i < below <= s.len(),
        s[i].state == DataPointState::NORMAL,
        forall|j: int| i < j < below ==> s[j].state != DataPointState::NORMAL,
    ensures
        nearest_normal(s, below) == s[i].value,
    decreases below,
{
    if below - 1 > i {
        lemma_nearest_normal_found(s, below - 1, i);
    }
}

/// The value is the default where none of the first `below` versions can be
/// read.
pub proof fn lemma_nearest_normal_none(s: Seq<Record>, below: int)
    requires
        below <= s.len(),
        forall|j: int| 0 <= j < below ==> s[j].state != DataPointState::NORMAL,
    ensures
        nearest_normal(s, below) == default_value(),
    decreases below,
{
    if below > 0 {
        lemma_nearest_normal_none(s, below - 1);
    }
}

/// What is copied forward can always be read: it holds at least one byte.
pub proof fn lemma_nearest_normal_filled(s: Seq<Record>, below: int)
    requires
        below <= s.len(),
        normal_filled(s),
    ensures
        nearest_normal(s, below).len() > 0,
    decreases below,
{
    if below > 0 && s[below - 1].state != DataPointState::NORMAL {
        lemma_nearest_normal_filled(s, below - 1);
    }
}

/// Appending a version and releasing it again leaves the ring as it was.
/// The version can be released only if it is the oldest one, so the ring
/// held nothing before.
pub proof fn lemma_push_release(s: Seq<Record>, cap: usize, ts: u64, value: Seq<u8>)
    requires
        increasing(s),
        newer_than_all(s, ts),
        after_push(s, cap, ts, value).len() > 0,
        after_push(s, cap, ts, value)[0].ts == ts,
    ensures
        after_release(after_push(s, cap, ts, value)) == s,
{
    let pushed = after_push(s, cap, ts, value);
    assert(pushed == s.push(Record { ts, value, state: DataPointState::NORMAL }));
    if s.len() > 0 {
        assert(pushed[0] == s[0]);
        assert(s[0].ts <= s.last().ts) by {
            if s.len() > 1 {
                assert(s[0].ts < s[s.len() - 1].ts);
            }
        }
    }
    assert(pushed.skip(1) =~= s);
}

/// Filling a reserved version, resetting it and filling it again leaves a
/// readable version with the second value.
pub proof fn lemma_write_reset_write(s: Seq<Record>, ts: u64, v1: Seq<u8>, v2: Seq<u8>)
    requires
        increasing(s),
        slot_state(s, ts) == Some(DataPointState::EMPTY),
    ensures
        ({
            let s1 = after_write(s, ts, v1);
            let s2 = after_reset(s1, ts);
            let s3 = after_write(s2, ts, v2);
            &&& slot_state(s1, ts) == Some(DataPointState::NORMAL)
            &&& slot_state(s2, ts) == Some(DataPointState::EMPTY)
            &&& slot_state(s3, ts) == Some(DataPointState::NORMAL)
            &&& s3[slot_index(s3, ts)].value == v2
            &&& s3 == after_write(s, ts, v2)
            &&& increasing(s3)
        }),
{
    let i = slot_index(s, ts);
    let s1 = after_write(s, ts, v1);
    let s2 = after_reset(s1, ts);
    let s3 = after_write(s2, ts, v2);
    assert(s1[i].ts == ts);
    assert(increasing(s1));
    lemma_slot_index(s1, i);
    assert(s2[i].ts == ts);
    assert(increasing(s2));
    lemma_slot_index(s2, i);
    assert(s3[i].ts == ts);
    assert(increasing(s3));
    lemma_slot_index(s3, i);
    assert(s3 =~= after_write(s, ts, v2));
}

/// Copying forward into a new version, in a ring whose newest version can
/// be read, appends a version with that version's value.
pub proof fn lemma_copy_last_of_normal_tail(s: Seq<Record>, cap: usize, ts: u64)
    requires
        s.len() > 0,
        s.len() + 1 < cap,
        s.last().state == DataPointState::NORMAL,
    ensures
        after_copy_last(s, cap, ts, false) == s.push(
            Record { ts, value: s.last().value, state: DataPointState::NORMAL },
        ),
{
}

} // verus!
