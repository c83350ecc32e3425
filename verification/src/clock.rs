//! Instants and durations as counts of nanoseconds.
use vstd::prelude::*;

verus! {

/// One second.
pub const SECOND: u128 = 1_000_000_000;

/// One millisecond.
pub const MILLISECOND: u128 = 1_000_000;

/// The last instant that the monotonic clock can express.
pub const LAST_INSTANT: u128 = 9_223_372_036_854_775_807_999_999_999;

/// The time from an earlier instant to a later one; nothing where they come in another order.
pub open spec fn elapsed(later: u128, earlier: u128) -> int {
    if later >= earlier {
        later - earlier
    } else {
        0
    }
}

/// The instant after some time, where the clock can express it.
pub open spec fn after(at: u128, time: u128) -> Option<u128> {
    if at + time <= LAST_INSTANT {
        Some((at + time) as u128)
    } else {
        None
    }
}

pub fn since(later: u128, earlier: u128) -> (r: u128)
    ensures
        r == elapsed(later, earlier),
{
    if later >= earlier {
        later - earlier
    } else {
        0
    }
}

pub fn checked_after(at: u128, time: u128) -> (r: Option<u128>)
    ensures
        r == after(at, time),
{
    if at <= LAST_INSTANT && time <= LAST_INSTANT - at {
        Some(at + time)
    } else {
        None
    }
}

pub open spec fn larger(a: u128, b: u128) -> u128 {
    if a >= b {
        a
    } else {
        b
    }
}

pub fn max_of(a: u128, b: u128) -> (r: u128)
    ensures
        r == larger(a, b),
{
    if a >= b {
        a
    } else {
        b
    }
}

/// Wall-clock seconds after some more, at most what 64 bits hold.
pub open spec fn later_second(at: u64, seconds: u64) -> u64 {
    if at + seconds <= u64::MAX {
        (at + seconds) as u64
    } else {
        u64::MAX
    }
}

pub fn saturating_second(at: u64, seconds: u64) -> (r: u64)
    ensures
        r == later_second(at, seconds),
{
    if seconds <= u64::MAX - at {
        at + seconds
    } else {
        u64::MAX
    }
}

/// Whole seconds in a duration, at most what 64 bits hold.
pub open spec fn whole_seconds(time: u128) -> u64 {
    if time / SECOND <= u64::MAX {
        (time / SECOND) as u64
    } else {
        u64::MAX
    }
}

pub fn seconds_of(time: u128) -> (r: u64)
    ensures
        r == whole_seconds(time),
{
    let s = time / SECOND;
    if s <= u64::MAX as u128 {
        s as u64
    } else {
        u64::MAX
    }
}

/// A time that has passed brings the earlier instant to the later one.
pub proof fn law_elapsed_time_adds_up(later: u128, earlier: u128)
    ensures
        later >= earlier ==> earlier + elapsed(later, earlier) == later,
        later < earlier ==> elapsed(later, earlier) == 0,
{
}

/// The instant after some time is as far ahead as the time is long, where the clock reaches it.
pub proof fn law_instants_add_up(at: u128, time: u128)
    ensures
        after(at, time) is Some <==> at + time <= 9_223_372_036_854_775_807_999_999_999,
        after(at, time) matches Some(next) ==> next == at + time,
        larger(at, time) >= at && larger(at, time) >= time,
        larger(at, time) == at || larger(at, time) == time,
{
}

/// Whole seconds are as many as fit into the time, and seconds are counted up to what 64 bits
/// hold.
pub proof fn law_seconds_add_up(at: u64, seconds: u64, time: u128)
    requires
        time < 18_446_744_073_709_551_616_000_000_000,
    ensures
        at + seconds < 0x1_0000_0000_0000_0000 ==> later_second(at, seconds) == at + seconds,
        at + seconds >= 0x1_0000_0000_0000_0000 ==> later_second(at, seconds)
            == 0xFFFF_FFFF_FFFF_FFFF,
        whole_seconds(time) * 1_000_000_000 <= time < (whole_seconds(time) + 1) * 1_000_000_000,
{
    assert(time == (time / SECOND) * SECOND + time % SECOND) by (nonlinear_arith)
        requires
            SECOND == 1_000_000_000,
    ;
    assert(time / SECOND <= u64::MAX) by (nonlinear_arith)
        requires
            time < 18_446_744_073_709_551_616_000_000_000,
            SECOND == 1_000_000_000,
    ;
}

} // verus!
