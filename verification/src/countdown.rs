//! The day count: whole days from now until the target instant, counting
//! the target day itself as day 1.

use vstd::prelude::*;

verus! {

/// Calendar year of the target instant.
pub const TARGET_YEAR: i32 = 2023;

/// Calendar month of the target instant.
pub const TARGET_MONTH: u32 = 6;

/// Calendar day of the target instant.
pub const TARGET_DAY: u32 = 30;

/// Seconds in one day.
pub const SECONDS_PER_DAY: u64 = 86400;

/// Signed division truncating toward zero, the way machine division of
/// signed integers rounds (the mathematical `/` on `int` rounds toward
/// negative infinity instead).
pub open spec fn div_trunc(a: int, b: int) -> int
    recommends
        b > 0,
{
    if a >= 0 {
        a / b
    } else {
        -((-a) / b)
    }
}

/// The number of days still to go, given the signed distance from now to
/// the target in whole seconds (positive when the target lies ahead).
///
/// The distance is turned into whole days by truncating toward zero, and
/// one is added so that the target day itself reads as day 1: half a day
/// before the target the count is 1, not 0, and one day past the target
/// it is 0.
pub fn day_count(delta_seconds: i64) -> (days: i64)
    ensures
        days == div_trunc(delta_seconds as int, SECONDS_PER_DAY as int) + 1,
{
    let magnitude: u64 = if delta_seconds < 0 {
        (-(delta_seconds + 1)) as u64 + 1
    } else {
        delta_seconds as u64
    };
    assert(magnitude == vstd::math::abs(delta_seconds as int));
    let whole_days: u64 = magnitude / SECONDS_PER_DAY;
    assert(whole_days <= magnitude) by {
        vstd::arithmetic::div_mod::lemma_div_nonincreasing(magnitude as int, SECONDS_PER_DAY as int);
    }
    if delta_seconds < 0 {
        -(whole_days as i64) + 1
    } else {
        whole_days as i64 + 1
    }
}

} // verus!
