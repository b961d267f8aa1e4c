//! The daemon's recording schedule: traffic is tallied over intervals of
//! `RECORD_PERIOD_SECS` seconds that start at multiples of that length, and each
//! tally is written out stamped with the start of its interval.
use vstd::prelude::*;

verus! {

/// Length of a recording interval, in seconds.
pub const RECORD_PERIOD_SECS: i64 = 60;

/// `a % b` as Rust computes it for integers: the remainder takes the sign of `a`.
pub open spec fn rust_rem(a: int, b: int) -> int {
    if a >= 0 {
        a % b
    } else {
        -((-a) % b)
    }
}

/// The start of the recording interval that `current_time` falls in (for times
/// before 1970, Rust's remainder rounds toward zero, so the start is the next
/// multiple of the interval rather than the previous one).
pub fn period_start(current_time: i64) -> (start: i64)
    ensures
        start == current_time - rust_rem(current_time as int, RECORD_PERIOD_SECS as int),
{
    current_time - current_time % RECORD_PERIOD_SECS
}

/// What the recording timer does at `current_time`: how long to sleep until the
/// interval in progress ends, and the start of that interval, with which the
/// tally is stamped when the sleep is over.
pub fn next_tick(current_time: i64) -> (r: (u64, i64))
    ensures
        r.0 == RECORD_PERIOD_SECS - rust_rem(current_time as int, RECORD_PERIOD_SECS as int),
        r.1 == current_time - rust_rem(current_time as int, RECORD_PERIOD_SECS as int),
        1 <= r.0 <= 2 * RECORD_PERIOD_SECS - 1,
{
    let since_period_start = current_time % RECORD_PERIOD_SECS;
    let remainder = RECORD_PERIOD_SECS - since_period_start;
    let start = current_time - since_period_start;
    (remainder as u64, start)
}

/// For times since 1970, a recording interval starts at a multiple of its length,
/// contains the time it was computed for, and the timer sleeps exactly until the
/// interval ends.
pub proof fn lemma_tick_aligned(current_time: int)
    requires
        current_time >= 0,
    ensures
        (current_time - rust_rem(current_time, RECORD_PERIOD_SECS as int)) % (RECORD_PERIOD_SECS as int) == 0,
        current_time - rust_rem(current_time, RECORD_PERIOD_SECS as int) <= current_time,
        current_time < current_time - rust_rem(current_time, RECORD_PERIOD_SECS as int) + RECORD_PERIOD_SECS,
        current_time + (RECORD_PERIOD_SECS - rust_rem(current_time, RECORD_PERIOD_SECS as int))
            == (current_time - rust_rem(current_time, RECORD_PERIOD_SECS as int)) + RECORD_PERIOD_SECS,
{
}

} // verus!
