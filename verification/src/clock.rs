//! The time at which a trade happens.
use std::time::{Duration, SystemTime, SystemTimeError, UNIX_EPOCH};
use vstd::prelude::*;

verus! {

#[verifier::external_type_specification]
#[verifier::external_body]
pub struct ExSystemTime(SystemTime);

#[verifier::external_type_specification]
#[verifier::external_body]
pub struct ExSystemTimeError(SystemTimeError);

/// `SystemTime::now`: what the machine's clock shows. Nothing is claimed of it.
pub assume_specification[ SystemTime::now ]() -> SystemTime;

/// `Duration::as_nanos`: the whole length in nanoseconds. The length is the clock's, and
/// nothing is claimed of it.
pub assume_specification[ Duration::as_nanos ](d: &Duration) -> (nanos: u128);

/// `SystemTime::duration_since`, with the Unix epoch: how long after it `now` is, or an error
/// where `now` is before it. What comes back rests on the machine's clock: nothing is claimed
/// of it.
#[verifier::external_body]
pub(crate) fn since_epoch(now: SystemTime) -> (elapsed: Result<Duration, SystemTimeError>) {
    now.duration_since(UNIX_EPOCH)
}

/// A time as it is written on a trade: the low 64 bits of the nanoseconds since the Unix
/// epoch, and 0 for a time before it.
pub open spec fn stamp(since_epoch: Option<u128>) -> int {
    match since_epoch {
        Some(nanos) => nanos as int % 0x1_0000_0000_0000_0000,
        None => 0,
    }
}

/// The clock was read, and showed a time this many nanoseconds after the Unix epoch, or one
/// before it.
pub closed spec fn clock_showed(reading: Option<u128>) -> bool {
    exists|now: SystemTime, elapsed: Result<Duration, SystemTimeError>|
        {
            &&& call_ensures(SystemTime::now, (), now)
            &&& #[trigger] call_ensures(since_epoch, (now,), elapsed)
            &&& match elapsed {
                Ok(d) => reading is Some && call_ensures(Duration::as_nanos, (&d,), reading->0),
                Err(_) => reading is None,
            }
        }
}

/// The time is that of a reading of the clock. Which time it showed is the machine's affair.
pub open spec fn is_clock_time(ns: u64) -> bool {
    exists|reading: Option<u128>| #[trigger] clock_showed(reading) && ns == stamp(reading)
}

/// Writes a time as `stamp` says.
pub fn timestamp_ns(since_epoch: Option<u128>) -> (ns: u64)
    ensures
        ns == stamp(since_epoch),
{
    match since_epoch {
        Some(nanos) => {
            assert(nanos as u64 == nanos % 0x1_0000_0000_0000_0000u128) by (bit_vector);
            #[verifier::truncate]
            (nanos as u64)
        },
        None => 0,
    }
}

/// Reads the machine's clock, and writes what it showed as `timestamp_ns` does.
pub(crate) fn now_ns() -> (ns: u64)
    ensures
        is_clock_time(ns),
{
    let now = SystemTime::now();
    let elapsed = since_epoch(now);
    let reading = match &elapsed {
        Ok(d) => Some(d.as_nanos()),
        Err(_) => None,
    };
    assert(clock_showed(reading));
    timestamp_ns(reading)
}

/// A time is written in 64 bits: as it is where it fits, else without what is above them, and as
/// 0 where it is before the Unix epoch.
pub proof fn law_timestamp(since_epoch: Option<u128>, ns: u64)
    requires
        call_ensures(timestamp_ns, (since_epoch,), ns),
    ensures
        since_epoch is None ==> ns == 0,
        since_epoch matches Some(nanos) ==> {
            &&& nanos <= u64::MAX ==> ns == nanos
            &&& (nanos - ns) % 0x1_0000_0000_0000_0000 == 0
        },
{
}

/// The time on a trade goes back to a reading of the clock: it is what the reading, measured from
/// the Unix epoch, is written as.
pub(crate) proof fn law_clock_time(ns: u64)
    requires
        is_clock_time(ns),
    ensures
        exists|now: SystemTime, elapsed: Result<Duration, SystemTimeError>|
            {
                &&& call_ensures(SystemTime::now, (), now)
                &&& #[trigger] call_ensures(since_epoch, (now,), elapsed)
                &&& elapsed is Err ==> ns == 0
                &&& elapsed matches Ok(d) ==> exists|nanos: u128| #[trigger]
                    call_ensures(Duration::as_nanos, (&d,), nanos) && (nanos - ns)
                        % 0x1_0000_0000_0000_0000 == 0
            },
{
    let reading = choose|reading: Option<u128>| #[trigger]
        clock_showed(reading) && ns == stamp(reading);
    let (now, elapsed) = choose|now: SystemTime, elapsed: Result<Duration, SystemTimeError>|
        {
            &&& call_ensures(SystemTime::now, (), now)
            &&& #[trigger] call_ensures(since_epoch, (now,), elapsed)
            &&& match elapsed {
                Ok(d) => reading is Some && call_ensures(Duration::as_nanos, (&d,), reading->0),
                Err(_) => reading is None,
            }
        };
    assert(call_ensures(since_epoch, (now,), elapsed));
}

} // verus!
