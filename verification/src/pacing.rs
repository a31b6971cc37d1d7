//! Pacing rule for the file-loop frame source: the k-th frame is due at
//! `k * delay` microseconds after the loop started, and the loop sleeps
//! only for the remainder of that budget, so a slow read never causes
//! permanent drift.
use vstd::prelude::*;

verus! {

/// Microseconds still to wait before the `frame`-th frame (1-indexed) is
/// due, given that `elapsed` microseconds have passed since the loop
/// started. Zero when the target time is already past: the loop catches
/// up immediately instead of compounding the delay.
pub open spec fn remaining_wait(delay: u64, frame: u64, elapsed: u64) -> int {
    if delay * frame >= elapsed {
        delay * frame - elapsed
    } else {
        0
    }
}

/// How long the file loop should sleep after emitting the `frame`-th
/// frame: the time remaining until that frame's target emission instant,
/// clamped to zero when the loop is already late.
pub fn sleep_budget(delay: u64, frame: u64, elapsed: u64) -> (r: u64)
    requires
        delay * frame <= u64::MAX,
    ensures
        r == remaining_wait(delay, frame, elapsed),
{
    let target: u64 = delay * frame;
    if target >= elapsed {
        target - elapsed
    } else {
        0
    }
}

} // verus!
