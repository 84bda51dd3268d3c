use std::time::SystemTime;
use std::time::Duration;
use vstd::prelude::*;
use vstd::string::StringExecFns;

verus! {

/// A cell for data that the engine's own discipline keeps free of
/// contention: whoever holds the cell reads it, whoever holds it exclusively
/// writes it, and nobody ever waits.
pub struct ShouldSyncCell<T> {
    body: T,
}

impl<T> View for ShouldSyncCell<T> {
    type V = T;

    closed spec fn view(&self) -> T {
        self.body
    }
}

impl<T> ShouldSyncCell<T> {
    pub fn new(value: T) -> (r: Self)
        ensures
            r@ == value,
    {
        Self { body: value }
    }

    pub fn read(&self) -> (r: &T)
        ensures
            *r == self@,
    {
        &self.body
    }

    /// Access to write the content: what is stored through the reference is
    /// what the cell then holds.
    pub fn write(&mut self) -> (r: &mut T)
        ensures
            *r == old(self)@,
            final(self)@ == *final(r),
    {
        &mut self.body
    }
}

/// The character of a decimal digit.
pub open spec fn digit(d: nat) -> char {
    if d == 0 {
        '0'
    } else if d == 1 {
        '1'
    } else if d == 2 {
        '2'
    } else if d == 3 {
        '3'
    } else if d == 4 {
        '4'
    } else if d == 5 {
        '5'
    } else if d == 6 {
        '6'
    } else if d == 7 {
        '7'
    } else if d == 8 {
        '8'
    } else {
        '9'
    }
}

/// The decimal numeral of `n`, without leading zeros.
pub open spec fn decimal(n: nat) -> Seq<char>
    decreases n,
{
    if n < 10 {
        seq![digit(n)]
    } else {
        decimal(n / 10).push(digit(n % 10))
    }
}

/// The key of row slot `row` of the logical key `key`: the key, an
/// underscore, and the slot's number.
pub open spec fn spec_row_key(key: Seq<char>, row: nat) -> Seq<char> {
    key.push('_') + decimal(row)
}

fn digit_str(d: usize) -> (r: &'static str)
    requires
        d < 10,
    ensures
        r@ == seq![digit(d as nat)],
{
    proof {
        reveal_strlit("0");
        reveal_strlit("1");
        reveal_strlit("2");
        reveal_strlit("3");
        reveal_strlit("4");
        reveal_strlit("5");
        reveal_strlit("6");
        reveal_strlit("7");
        reveal_strlit("8");
        reveal_strlit("9");
    }
    let r = if d == 0 {
        "0"
    } else if d == 1 {
        "1"
    } else if d == 2 {
        "2"
    } else if d == 3 {
        "3"
    } else if d == 4 {
        "4"
    } else if d == 5 {
        "5"
    } else if d == 6 {
        "6"
    } else if d == 7 {
        "7"
    } else if d == 8 {
        "8"
    } else {
        "9"
    };
    assert(r@ =~= seq![digit(d as nat)]);
    r
}

fn append_decimal(s: &mut String, n: usize)
    ensures
        final(s)@ == old(s)@ + decimal(n as nat),
    decreases n,
{
    if n >= 10 {
        append_decimal(s, n / 10);
    }
    s.append(digit_str(n % 10));
    assert(s@ =~= old(s)@ + decimal(n as nat));
}

/// Builds the row key of `key` and `row`.
pub fn row_key(key: &str, row: usize) -> (r: String)
    ensures
        r@ == spec_row_key(key@, row as nat),
{
    proof {
        reveal_strlit("_");
    }
    let mut s = String::from_str(key);
    s.append("_");
    assert(s@ =~= key@.push('_'));
    append_decimal(&mut s, row);
    s
}

#[verifier::external_type_specification]
#[verifier::external_body]
pub struct ExSystemTime(SystemTime);

/// `SystemTime::now`: the reading of the system clock.  Nothing is claimed of
/// it.
#[verifier::external_body]
fn clock_now() -> SystemTime {
    SystemTime::now()
}

/// `SystemTime::duration_since` against `UNIX_EPOCH`: the time from the epoch
/// to `t`, or nothing where `t` lies before the epoch.
#[verifier::external_body]
fn since_epoch(t: &SystemTime) -> Option<Duration> {
    match t.duration_since(std::time::UNIX_EPOCH) {
        Ok(d) => Some(d),
        Err(_) => None,
    }
}

/// `Duration::as_nanos`.  Nothing is claimed of the number but its type.
#[verifier::external_body]
fn duration_nanos(d: &Duration) -> u128 {
    d.as_nanos()
}

/// `Duration::from_nanos`.
#[verifier::external_body]
fn duration_of_nanos(nanoseconds: u64) -> Duration {
    Duration::from_nanos(nanoseconds)
}

/// `SystemTime::checked_add` on `UNIX_EPOCH`: the point in time `d` after the
/// epoch, or nothing where the platform cannot represent it.
#[verifier::external_body]
fn epoch_plus(d: Duration) -> Option<SystemTime> {
    std::time::UNIX_EPOCH.checked_add(d)
}

/// The constant `UNIX_EPOCH`.
#[verifier::external_body]
fn unix_epoch() -> SystemTime {
    std::time::UNIX_EPOCH
}

/// The low 64 bits of a count of nanoseconds.
pub fn low_64(n: u128) -> (r: u64)
    ensures
        r == n % 0x1_0000_0000_0000_0000,
{
    let r = #[verifier::truncate] (n as u64);
    assert(r == n % 0x1_0000_0000_0000_0000) by (bit_vector)
        requires
            r == #[verifier::truncate] (n as u64),
    ;
    r
}

/// The stamp of a reading of the clock that lies `elapsed` nanoseconds
/// after the Unix epoch: the count, cut to 64 bits.  A reading before the
/// epoch has no such count; its stamp is 0.
pub fn stamp_of(elapsed: Option<u128>) -> (r: u64)
    ensures
        r == (match elapsed {
            Some(n) => n % 0x1_0000_0000_0000_0000,
            None => 0,
        }),
{
    match elapsed {
        Some(n) => low_64(n),
        None => 0,
    }
}

/// The point in time `time`, or `fallback` where there is none.
pub fn time_or(time: Option<SystemTime>, fallback: SystemTime) -> (r: SystemTime)
    ensures
        r == (match time {
            Some(t) => t,
            None => fallback,
        }),
{
    match time {
        Some(t) => t,
        None => fallback,
    }
}

/// The system clock's time, in nanoseconds since the Unix epoch, cut to 64
/// bits; 0 where the clock reads a time before the epoch.  The value is
/// whatever the clock reads: `stamp_of` says what becomes of each reading.
pub fn current_time_ns() -> u64 {
    let start = clock_now();
    let elapsed = match since_epoch(&start) {
        Some(since_the_epoch) => Some(duration_nanos(&since_the_epoch)),
        None => None,
    };
    stamp_of(elapsed)
}

/// The point in time that lies `nanoseconds` after the Unix epoch; the epoch
/// itself on a platform that cannot represent that point.  The value is
/// what the platform makes of the sum: `time_or` says what becomes of each
/// outcome.
pub fn ns_to_system_time(nanoseconds: u64) -> SystemTime {
    let duration = duration_of_nanos(nanoseconds);
    time_or(epoch_plus(duration), unix_epoch())
}

} // verus!
