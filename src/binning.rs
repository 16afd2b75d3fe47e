//! Temporal binning: which frame a timestamp falls in.
use vstd::prelude::*;
use vstd::arithmetic::div_mod::lemma_div_is_ordered;

verus! {

/// 1 April 2005, 00:00 UTC, in seconds since the Unix epoch; no edit is
/// older.
pub const EPOCH: u64 = 1109635200;

/// The frame, of `sec_per_frame` seconds each, counted from `EPOCH`, that
/// holds `timestamp`.
pub open spec fn frame_of(timestamp: int, sec_per_frame: int) -> int {
    (timestamp - EPOCH) / sec_per_frame
}

/// The frame number of a timestamp. A timestamp before `EPOCH` is a
/// broken input and is not accepted.
pub fn frame_number(timestamp: u64, sec_per_frame: u32) -> (r: u32)
    requires
        timestamp >= EPOCH,
        sec_per_frame > 0,
        frame_of(timestamp as int, sec_per_frame as int) <= u32::MAX,
    ensures
        r == frame_of(timestamp as int, sec_per_frame as int),
{
    ((timestamp - EPOCH) / sec_per_frame as u64) as u32
}

/// Frame numbers never decrease as time goes on.
pub proof fn lemma_frame_number_monotonic(t1: u64, t2: u64, sec_per_frame: u32)
    requires
        EPOCH <= t1 <= t2,
        sec_per_frame > 0,
    ensures
        0 <= frame_of(t1 as int, sec_per_frame as int) <= frame_of(t2 as int, sec_per_frame as int),
{
    lemma_div_is_ordered(t1 - EPOCH, t2 - EPOCH, sec_per_frame as int);
    lemma_div_is_ordered(0, t1 - EPOCH, sec_per_frame as int);
}

} // verus!
