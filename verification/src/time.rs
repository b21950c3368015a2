//! Timestamps: tenths of microseconds since the beginning of the year 1601.
use std::time::{SystemTime, UNIX_EPOCH};
use vstd::prelude::*;

verus! {

/// The timestamp of the beginning of the year 1970.
pub const UNIX_EPOCH_TIMESTAMP: u64 = 116_444_736_000_000_000;

/// The length of a time span in tenths of microseconds.
pub open spec fn ticks(secs: u64, nanos: u32) -> int {
    secs * 10_000_000 + nanos / 100
}

/// The timestamp of the moment that lies a time span after, or before, the
/// beginning of the year 1970; the nearest one, if there is none.
pub open spec fn timestamp(before: bool, secs: u64, nanos: u32) -> int {
    let exact = if before {
        UNIX_EPOCH_TIMESTAMP - ticks(secs, nanos)
    } else {
        UNIX_EPOCH_TIMESTAMP + ticks(secs, nanos)
    };
    if exact < 0 {
        0
    } else if exact > u64::MAX {
        u64::MAX as int
    } else {
        exact
    }
}

/// The beginning of the year 1970 lies 116444736000000000 tenths of microseconds after
/// that of 1601. A timestamp is as many ticks from there as fit into the time span,
/// forwards or backwards, but never before zero or beyond the greatest number.
pub proof fn lemma_timestamp_meaning(secs: u64, nanos: u32)
    ensures
        ({
            let span = secs * 10_000_000 + nanos / 100;
            &&& timestamp(false, secs, nanos) == if span <= 0xffff_ffff_ffff_ffff
                - 116_444_736_000_000_000 {
                116_444_736_000_000_000 + span
            } else {
                0xffff_ffff_ffff_ffff
            }
            &&& timestamp(true, secs, nanos) == if span <= 116_444_736_000_000_000 {
                116_444_736_000_000_000 - span
            } else {
                0
            }
        }),
{
}

/// Returns the timestamp of the moment that lies `secs` seconds and `nanos`
/// nanoseconds after the beginning of the year 1970, or before it; or the nearest
/// one, if there is none for this moment.
pub fn timestamp_from_unix_time(before: bool, secs: u64, nanos: u32) -> (result: u64)
    ensures
        result == timestamp(before, secs, nanos),
{
    let span: u128 = secs as u128 * 10_000_000 + nanos as u128 / 100;
    if before {
        if span > UNIX_EPOCH_TIMESTAMP as u128 {
            0
        } else {
            UNIX_EPOCH_TIMESTAMP - span as u64
        }
    } else {
        let exact: u128 = UNIX_EPOCH_TIMESTAMP as u128 + span;
        if exact > u64::MAX as u128 {
            u64::MAX
        } else {
            exact as u64
        }
    }
}

/// Declares `std::time::SystemTime`, of which only [`since_epoch`] looks inside.
#[verifier::external_type_specification]
#[verifier::external_body]
pub struct ExSystemTime(std::time::SystemTime);

/// `std::time::SystemTime::now`: nothing is claimed of what the clock shows.
pub assume_specification[ SystemTime::now ]() -> SystemTime;

/// The span between a moment and the beginning of the year 1970, in seconds and
/// nanoseconds, with a flag if the moment lies before.
pub uninterp spec fn unix_time(moment: SystemTime) -> (bool, u64, u32);

/// Calls `std::time::SystemTime::duration_since` with the beginning of the year
/// 1970, and hands out the span in seconds and nanoseconds, with a flag if the
/// moment lies before. The span is the one that [`unix_time`] names; the
/// nanoseconds are less than a second.
#[verifier::external_body]
fn since_epoch(moment: &SystemTime) -> (span: (bool, u64, u32))
    ensures
        span == unix_time(*moment),
        span.2 < 1_000_000_000,
{
    match moment.duration_since(UNIX_EPOCH) {
        Ok(span) => (false, span.as_secs(), span.subsec_nanos()),
        Err(error) => (true, error.duration().as_secs(), error.duration().subsec_nanos()),
    }
}

/// The timestamp of a moment.
pub open spec fn moment_timestamp(moment: SystemTime) -> int {
    let (before, secs, nanos) = unix_time(moment);
    timestamp(before, secs, nanos)
}

/// Returns the timestamp of a moment.
pub fn timestamp_from_system_time(moment: &SystemTime) -> (result: u64)
    ensures
        result == moment_timestamp(*moment),
{
    let (before, secs, nanos) = since_epoch(moment);
    timestamp_from_unix_time(before, secs, nanos)
}

/// The timestamp is that of some moment.
pub open spec fn is_timestamp(t: u64) -> bool {
    exists|moment: SystemTime| t == #[trigger] moment_timestamp(moment)
}

/// The timestamp of a moment is the number of ticks that [`lemma_timestamp_meaning`] tells
/// for its span to the beginning of the year 1970, and a timestamp is always that of a
/// moment.
pub proof fn lemma_moment_meaning(moment: SystemTime, t: u64)
    ensures
        ({
            let (before, secs, nanos) = unix_time(moment);
            moment_timestamp(moment) == timestamp(before, secs, nanos)
        }),
        is_timestamp(t) ==> exists|m: SystemTime|
            t == timestamp((#[trigger] unix_time(m)).0, unix_time(m).1, unix_time(m).2),
{
    if is_timestamp(t) {
        let m = choose|m: SystemTime| t == #[trigger] moment_timestamp(m);
        assert(t == timestamp(unix_time(m).0, unix_time(m).1, unix_time(m).2));
    }
}

/// Returns the timestamp of the present moment, as the clock of the system shows
/// it.
pub fn current_timestamp() -> (now: u64)
    ensures
        is_timestamp(now),
{
    let moment = SystemTime::now();
    timestamp_from_system_time(&moment)
}

} // verus!
