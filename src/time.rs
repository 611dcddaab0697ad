//! Time on the tick grid.
use vstd::prelude::*;

verus! {

/// The latest time that the simulation reaches; later times are refused, so
/// that sums of times and durations stay within `u64`.
pub const TIME_LIMIT: u64 = 0x3fff_ffff_ffff_ffff;

/// The next representable time after `time`.
pub fn next_after(time: u64) -> (r: u64)
    requires
        time < u64::MAX,
    ensures
        r == time + 1,
{
    time + 1
}

} // verus!
