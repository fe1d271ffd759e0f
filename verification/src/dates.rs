//! The timeline model: instants are seconds, calendar days are day numbers.
//!
//! An instant is an `i64` count of seconds on one local timeline; the day
//! holding an instant is the floor of its second count divided by the day
//! length.  A day-boundary offset (a second count in `[0, SECS_PER_DAY)`)
//! is subtracted from instants before day classification, which is how a
//! "day" can be made to start at, say, 03:00; a shifted instant can
//! therefore dip at most one day below zero.

use vstd::prelude::*;

verus! {

/// Seconds in one calendar day.
pub const SECS_PER_DAY: i64 = 86400;

/// Largest instant (in seconds) the library accepts, roughly 125 000 years.
/// Bounding instants keeps every day-boundary product and every per-entry
/// duration comfortably inside `i64`.
pub const MAX_INSTANT: i64 = 4_000_000_000_000;

/// A well-formed instant: a non-negative second count of bounded size.
pub open spec fn instant_wf(t: int) -> bool {
    0 <= t <= MAX_INSTANT as int
}

/// A well-formed day-boundary offset: less than one day of seconds.
pub open spec fn offset_wf(off: int) -> bool {
    0 <= off < SECS_PER_DAY as int
}

/// The day number holding instant `t` (floor division by the day length).
pub open spec fn day_of(t: int) -> int {
    t / (SECS_PER_DAY as int)
}

/// The instant at which day `d` begins.
pub open spec fn day_start(d: int) -> int {
    d * (SECS_PER_DAY as int)
}

/// The day number of an instant, executable form.  The instant may be
/// offset-shifted, so it may lie up to one day below zero.
pub fn day_of_i64(t: i64) -> (d: i64)
    requires
        -(SECS_PER_DAY as int) <= t as int <= MAX_INSTANT as int + SECS_PER_DAY as int,
    ensures
        d as int == day_of(t as int),
{
    if t >= 0 {
        ((t as u64) / (SECS_PER_DAY as u64)) as i64
    } else {
        proof {
            vstd::arithmetic::div_mod::lemma_fundamental_div_mod_converse(
                t as int,
                SECS_PER_DAY as int,
                -1,
                t as int + SECS_PER_DAY as int,
            );
        }
        -1
    }
}

/// The smaller of two second counts.
pub fn min_i64(a: i64, b: i64) -> (r: i64)
    ensures
        r as int == vstd::math::min(a as int, b as int),
{
    if a <= b {
        a
    } else {
        b
    }
}

/// The larger of two second counts.
pub fn max_i64(a: i64, b: i64) -> (r: i64)
    ensures
        r as int == vstd::math::max(a as int, b as int),
{
    if a >= b {
        a
    } else {
        b
    }
}

/// An instant lies within the day holding it.
pub proof fn lemma_day_bounds(t: int)
    ensures
        day_start(day_of(t)) <= t < day_start(day_of(t) + 1),
{
    vstd::arithmetic::div_mod::lemma_fundamental_div_mod(t, SECS_PER_DAY as int);
}

/// Day numbers are monotone in the instant.
pub proof fn lemma_day_monotone(a: int, b: int)
    requires
        a <= b,
    ensures
        day_of(a) <= day_of(b),
{
    vstd::arithmetic::div_mod::lemma_div_is_ordered(a, b, SECS_PER_DAY as int);
}

} // verus!
