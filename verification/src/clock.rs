//! The monotonic clock that times retransmissions and rate reports.

use vstd::prelude::*;

verus! {

/// `time::precise_time_ns`: the value of a high-resolution performance
/// counter in nanoseconds since an unspecified epoch. It depends on the
/// moment of the call, so nothing is stated of it.
#[verifier::external_body]
pub(crate) fn precise_now() -> (res: u64) {
    time::precise_time_ns()
}

/// Whether more than `secs` seconds lie between `start` and `now`, both
/// read from `precise_now`. A `now` before `start` counts as no time.
pub open spec fn spec_elapsed_over(start: u64, now: u64, secs: u64) -> bool {
    now >= start && now - start > secs * 1_000_000_000
}

/// Whether more than `secs` seconds lie between `start` and `now`.
pub fn elapsed_over(start: u64, now: u64, secs: u64) -> (res: bool)
    requires
        secs <= u64::MAX / 1_000_000_000,
    ensures
        res == spec_elapsed_over(start, now, secs),
{
    now >= start && now - start > secs * 1_000_000_000
}

} // verus!
