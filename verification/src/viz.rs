//! The day visualizer: one calendar day as quarter-hour slots.
//!
//! Each entry overlapping the day is clipped to it and its endpoints are
//! rounded to quarter-hour indices; entries that round to nothing are
//! skipped.  The timeline runs from a short lead-in before the first
//! visible entry (aligned so clock labels land on even rows) to the last
//! visible entry's end, extended to the next two-hour boundary when it
//! ends within two slots of one.  Every slot carries the index of the
//! entry occupying it, if any; the log's entries must not overlap in time
//! for this layout to be meaningful.

use vstd::prelude::*;
use vstd::math::max;
use vstd::math::min;
use vstd::arithmetic::div_mod::lemma_div_is_ordered;
use vstd::arithmetic::div_mod::lemma_fundamental_div_mod;
use crate::dates::{SECS_PER_DAY, MAX_INSTANT, instant_wf, day_start, min_i64, max_i64};
use crate::entry::{Entry, entry_wf, entry_stop, log_wf, log_before, log_disjoint};

verus! {

/// The last day number the visualizer addresses; its end still lies below
/// `MAX_INSTANT`.
pub const MAX_DAY: i64 = 46_000_000;

/// One timeline cell: a quarter-hour index, and the entry occupying it.
pub struct Slot {
    pub index: i64,
    pub entry: Option<usize>,
}

/// Quarter-hour index of minute `m`: the nearest multiple of fifteen
/// minutes (halves, which cannot occur for whole minutes, would round up).
pub open spec fn quarter_round(m: int) -> int {
    (2 * m + 15) / 30
}

/// Whether an entry overlaps the visualized day at all.
pub open spec fn overlaps_day(e: Entry, now: int, date: int) -> bool {
    e.start < day_start(date + 1) && entry_stop(e, now) >= day_start(date)
}

/// The first quarter-hour index an entry covers: its start, clipped to the
/// day, as minutes into the day, rounded.
pub open spec fn slot_lo(e: Entry, now: int, date: int) -> int {
    quarter_round((max(e.start as int, day_start(date)) - day_start(date)) / 60)
}

/// One past the last quarter-hour index an entry covers.
pub open spec fn slot_hi(e: Entry, now: int, date: int) -> int {
    quarter_round((min(entry_stop(e, now), day_start(date + 1)) - day_start(date)) / 60)
}

/// Whether an entry shows in the timeline: it overlaps the day and spans
/// at least one slot after rounding.
pub open spec fn visible(e: Entry, now: int, date: int) -> bool {
    overlaps_day(e, now, date) && slot_lo(e, now, date) < slot_hi(e, now, date)
}

/// Whether any entry of the log shows.
pub open spec fn any_visible(s: Seq<Entry>, now: int, date: int) -> bool {
    exists|k: int| 0 <= k < s.len() && visible(#[trigger] s[k], now, date)
}

/// Whether entry `k` occupies quarter-hour index `i`.
pub open spec fn covers(s: Seq<Entry>, now: int, date: int, k: int, i: int) -> bool {
    0 <= k < s.len() && visible(s[k], now, date) && slot_lo(s[k], now, date) <= i < slot_hi(
        s[k],
        now,
        date,
    )
}

/// Whether any entry occupies quarter-hour index `i`.
pub open spec fn covered(s: Seq<Entry>, now: int, date: int, i: int) -> bool {
    exists|k: int| covers(s, now, date, k, i)
}

/// Index of the first visible entry; the log's length when none shows.
pub open spec fn first_visible(s: Seq<Entry>, now: int, date: int) -> int
    decreases s.len(),
{
    if s.len() == 0 {
        0
    } else if visible(s[0], now, date) {
        0
    } else {
        1 + first_visible(s.drop_first(), now, date)
    }
}

/// One past the index of the last visible entry; zero when none shows.
pub open spec fn last_visible_end(s: Seq<Entry>, now: int, date: int) -> int
    decreases s.len(),
{
    if s.len() == 0 {
        0
    } else if visible(s.last(), now, date) {
        s.len() as int
    } else {
        last_visible_end(s.drop_last(), now, date)
    }
}

/// The first timeline index: two slots before the two-hour-aligned point
/// at or before the first visible entry.
#[verifier::opaque]
pub open spec fn grid_lo(s: Seq<Entry>, now: int, date: int) -> int {
    (slot_lo(s[first_visible(s, now, date)], now, date) / 8) * 8 - 2
}

/// One past the last timeline index: the last visible entry's end slot,
/// extended to the next two-hour boundary when within two slots of it.
#[verifier::opaque]
pub open spec fn grid_hi(s: Seq<Entry>, now: int, date: int) -> int {
    let e = slot_hi(s[last_visible_end(s, now, date) - 1], now, date);
    if (e - 1) % 8 >= 6 {
        ((e - 1) / 8 + 1) * 8 + 1
    } else {
        e
    }
}

/// A witnessed first visible entry pins `first_visible`.
pub proof fn lemma_first_visible_is(s: Seq<Entry>, now: int, date: int, k: int)
    requires
        0 <= k < s.len(),
        visible(s[k], now, date),
        forall|j: int| 0 <= j < k ==> !visible(#[trigger] s[j], now, date),
    ensures
        first_visible(s, now, date) == k,
    decreases s.len(),
{
    if k > 0 {
        let t = s.drop_first();
        assert forall|j: int| 0 <= j < k - 1 implies !visible(#[trigger] t[j], now, date) by {
            assert(t[j] == s[j + 1]);
        }
        assert(t[k - 1] == s[k]);
        lemma_first_visible_is(t, now, date, k - 1);
    }
}

/// A witnessed last visible entry pins `last_visible_end`.
pub proof fn lemma_last_visible_is(s: Seq<Entry>, now: int, date: int, k: int)
    requires
        0 <= k < s.len(),
        visible(s[k], now, date),
        forall|j: int| k < j < s.len() ==> !visible(#[trigger] s[j], now, date),
    ensures
        last_visible_end(s, now, date) == k + 1,
    decreases s.len(),
{
    if k < s.len() - 1 {
        let t = s.drop_last();
        assert(t[k] == s[k]);
        assert forall|j: int| k < j < t.len() implies !visible(#[trigger] t[j], now, date) by {
            assert(t[j] == s[j]);
        }
        lemma_last_visible_is(t, now, date, k);
    }
}

/// When something shows, `first_visible` is the least visible index.
pub proof fn lemma_first_visible_props(s: Seq<Entry>, now: int, date: int)
    requires
        any_visible(s, now, date),
    ensures
        0 <= first_visible(s, now, date) < s.len(),
        visible(s[first_visible(s, now, date)], now, date),
        forall|j: int| 0 <= j < first_visible(s, now, date) ==> !visible(#[trigger] s[j], now, date),
    decreases s.len(),
{
    if !visible(s[0], now, date) {
        let t = s.drop_first();
        let w = choose|w: int| 0 <= w < s.len() && visible(#[trigger] s[w], now, date);
        assert(t[w - 1] == s[w]);
        assert(any_visible(t, now, date));
        lemma_first_visible_props(t, now, date);
        let fv = first_visible(t, now, date);
        assert(s[fv + 1] == t[fv]);
        assert forall|j: int| 0 <= j < fv + 1 implies !visible(#[trigger] s[j], now, date) by {
            if j > 0 {
                assert(s[j] == t[j - 1]);
            }
        }
    }
}

/// When something shows, `last_visible_end` is one past the greatest
/// visible index.
pub proof fn lemma_last_visible_props(s: Seq<Entry>, now: int, date: int)
    requires
        any_visible(s, now, date),
    ensures
        0 < last_visible_end(s, now, date) <= s.len(),
        visible(s[last_visible_end(s, now, date) - 1], now, date),
        forall|j: int|
            last_visible_end(s, now, date) <= j < s.len() ==> !visible(#[trigger] s[j], now, date),
    decreases s.len(),
{
    if !visible(s.last(), now, date) {
        let t = s.drop_last();
        let w = choose|w: int| 0 <= w < s.len() && visible(#[trigger] s[w], now, date);
        assert(t[w] == s[w]);
        assert(any_visible(t, now, date));
        lemma_last_visible_props(t, now, date);
        let lv = last_visible_end(t, now, date);
        assert(s[lv - 1] == t[lv - 1]);
        assert forall|j: int| lv <= j < s.len() implies !visible(#[trigger] s[j], now, date) by {
            if j < s.len() - 1 {
                assert(s[j] == t[j]);
            }
        }
    }
}

/// An earlier entry stops no later than a later entry starts.
proof fn lemma_stop_le_start(s: Seq<Entry>, now: int, i: int, j: int)
    requires
        log_wf(s),
        log_disjoint(s),
        log_before(s, now),
        0 <= i < j < s.len(),
    ensures
        entry_stop(s[i], now) <= s[j].start,
{
    assert(entry_wf(s[i]));
    assert(s[i].end is Some);
    assert(s[i + 1].start <= s[j].start);
}

/// Rounding to quarter-hour indices is monotone.
proof fn lemma_quarter_monotone(a: int, b: int)
    requires
        a <= b,
    ensures
        quarter_round(a) <= quarter_round(b),
{
    lemma_div_is_ordered(2 * a + 15, 2 * b + 15, 30);
}

/// Clipping and rounding keep the entries' order: an earlier entry's last
/// slot is no later than a later, day-overlapping entry's first slot.
proof fn lemma_slots_ordered(s: Seq<Entry>, now: int, date: int, i: int, j: int)
    requires
        log_wf(s),
        log_disjoint(s),
        log_before(s, now),
        0 <= i < j < s.len(),
        overlaps_day(s[j], now, date),
    ensures
        slot_hi(s[i], now, date) <= slot_lo(s[j], now, date),
{
    lemma_stop_le_start(s, now, i, j);
    let wlo = day_start(date);
    let whi = day_start(date + 1);
    let ce = min(entry_stop(s[i], now), whi);
    let cs = max(s[j].start as int, wlo);
    assert(ce <= cs);
    lemma_div_is_ordered(ce - wlo, cs - wlo, 60);
    lemma_quarter_monotone((ce - wlo) / 60, (cs - wlo) / 60);
}

/// At most one entry occupies a slot.
pub proof fn lemma_cover_unique(s: Seq<Entry>, now: int, date: int, k1: int, k2: int, i: int)
    requires
        log_wf(s),
        log_disjoint(s),
        log_before(s, now),
        covers(s, now, date, k1, i),
        covers(s, now, date, k2, i),
    ensures
        k1 == k2,
{
    if k1 < k2 {
        lemma_slots_ordered(s, now, date, k1, k2);
    } else if k2 < k1 {
        lemma_slots_ordered(s, now, date, k2, k1);
    }
}


/// Quarter-hour index of an in-day instant, executable form.
fn quarter_of(t: i64, wlo: i64) -> (q: i64)
    requires
        0 <= wlo,
        wlo <= t <= wlo + SECS_PER_DAY,
        wlo + SECS_PER_DAY <= MAX_INSTANT as int + SECS_PER_DAY as int,
    ensures
        q as int == quarter_round((t as int - wlo as int) / 60),
        0 <= q <= 96,
{
    let m = ((t - wlo) as u64) / 60;
    ((2 * m + 15) / 30) as i64
}

/// The slot range of an entry that overlaps the day, executable form.
fn slot_range(e: &Entry, now: i64, wlo: i64, whi: i64, Ghost(gdate): Ghost<int>) -> (r: (i64, i64))
    requires
        entry_wf(*e),
        e.end is None ==> e.start <= now,
        instant_wf(now as int),
        0 <= gdate <= MAX_DAY as int,
        wlo as int == day_start(gdate),
        whi as int == day_start(gdate + 1),
        overlaps_day(*e, now as int, gdate),
    ensures
        r.0 as int == slot_lo(*e, now as int, gdate),
        r.1 as int == slot_hi(*e, now as int, gdate),
        0 <= r.0 <= 96,
        0 <= r.1 <= 96,
{
    let stop = if let Some(t) = e.end {
        t
    } else {
        now
    };
    let cs = max_i64(e.start, wlo);
    let ce = min_i64(stop, whi);
    (quarter_of(cs, wlo), quarter_of(ce, wlo))
}

/// The first and last visible entries of the log, if any entry shows.
fn visible_bounds(entries: &Vec<Entry>, now: i64, wlo: i64, whi: i64, Ghost(gdate): Ghost<int>) -> (r:
    Option<(usize, usize)>)
    requires
        log_wf(entries@),
        log_before(entries@, now as int),
        instant_wf(now as int),
        0 <= gdate <= MAX_DAY as int,
        wlo as int == day_start(gdate),
        whi as int == day_start(gdate + 1),
    ensures
        match r {
            None => !any_visible(entries@, now as int, gdate),
            Some(fl) => {
                &&& fl.0 <= fl.1 < entries@.len()
                &&& visible(entries@[fl.0 as int], now as int, gdate)
                &&& visible(entries@[fl.1 as int], now as int, gdate)
                &&& forall|j: int| 0 <= j < fl.0 as int ==> !visible(#[trigger] entries@[j], now as int, gdate)
                &&& forall|j: int|
                    (fl.1 as int) < j < entries@.len() ==> !visible(#[trigger] entries@[j], now as int, gdate)
            },
        },
{
    let ghost s = entries@;
    let ghost gnow = now as int;
    let mut first: usize = 0;
    let mut last: usize = 0;
    let mut found = false;
    let mut k: usize = 0;
    while k < entries.len()
        invariant
            s == entries@,
            gnow == now as int,
            log_wf(s),
            log_before(s, gnow),
            instant_wf(gnow),
            0 <= gdate <= MAX_DAY as int,
            wlo as int == day_start(gdate),
            whi as int == day_start(gdate + 1),
            k <= s.len(),
            !found ==> forall|j: int| 0 <= j < k ==> !visible(#[trigger] s[j], gnow, gdate),
            found ==> first <= last < k && visible(s[first as int], gnow, gdate) && visible(
                s[last as int],
                gnow,
                gdate,
            ),
            found ==> forall|j: int| 0 <= j < first as int ==> !visible(#[trigger] s[j], gnow, gdate),
            found ==> forall|j: int|
                (last as int) < j < k ==> !visible(#[trigger] s[j], gnow, gdate),
        decreases s.len() - k,
    {
        let stop = if let Some(t) = entries[k].end {
            t
        } else {
            now
        };
        proof {
            assert(entry_wf(s[k as int]));
            assert(stop as int == entry_stop(s[k as int], gnow));
        }
        if entries[k].start < whi && stop >= wlo {
            let r = slot_range(&entries[k], now, wlo, whi, Ghost(gdate));
            if r.0 < r.1 {
                proof {
                    assert(visible(s[k as int], gnow, gdate));
                }
                if !found {
                    found = true;
                    first = k;
                }
                last = k;
            } else {
                proof {
                    assert(!visible(s[k as int], gnow, gdate));
                }
            }
        } else {
            proof {
                assert(!overlaps_day(s[k as int], gnow, gdate));
                assert(!visible(s[k as int], gnow, gdate));
            }
        }
        k = k + 1;
    }
    if found {
        Some((first, last))
    } else {
        proof {
            if any_visible(s, gnow, gdate) {
                let w = choose|w: int| 0 <= w < s.len() && visible(#[trigger] s[w], gnow, gdate);
            }
        }
        None
    }
}

/// The entry occupying quarter-hour index `i`, if any.
fn find_cover(entries: &Vec<Entry>, now: i64, wlo: i64, whi: i64, i: i64, Ghost(gdate): Ghost<int>) -> (r:
    Option<usize>)
    requires
        log_wf(entries@),
        log_before(entries@, now as int),
        instant_wf(now as int),
        0 <= gdate <= MAX_DAY as int,
        wlo as int == day_start(gdate),
        whi as int == day_start(gdate + 1),
    ensures
        match r {
            Some(k) => covers(entries@, now as int, gdate, k as int, i as int),
            None => !covered(entries@, now as int, gdate, i as int),
        },
{
    let ghost s = entries@;
    let ghost gnow = now as int;
    let mut k: usize = 0;
    while k < entries.len()
        invariant
            s == entries@,
            gnow == now as int,
            log_wf(s),
            log_before(s, gnow),
            instant_wf(gnow),
            0 <= gdate <= MAX_DAY as int,
            wlo as int == day_start(gdate),
            whi as int == day_start(gdate + 1),
            k <= s.len(),
            forall|kk: int| 0 <= kk < k ==> !(#[trigger] covers(s, gnow, gdate, kk, i as int)),
        decreases s.len() - k,
    {
        let stop = if let Some(t) = entries[k].end {
            t
        } else {
            now
        };
        proof {
            assert(entry_wf(s[k as int]));
            assert(stop as int == entry_stop(s[k as int], gnow));
        }
        if entries[k].start < whi && stop >= wlo {
            let r = slot_range(&entries[k], now, wlo, whi, Ghost(gdate));
            if r.0 < r.1 && r.0 <= i && i < r.1 {
                return Some(k);
            }
            proof {
                assert(!covers(s, gnow, gdate, k as int, i as int));
            }
        } else {
            proof {
                assert(!overlaps_day(s[k as int], gnow, gdate));
                assert(!covers(s, gnow, gdate, k as int, i as int));
            }
        }
        k = k + 1;
    }
    proof {
        if covered(s, gnow, gdate, i as int) {
            let w = choose|w: int| covers(s, gnow, gdate, w, i as int);
        }
    }
    None
}

/// The timeline of one day: consecutive quarter-hour slots from the
/// lead-in to the trail-off, each holding the entry that occupies it.  An
/// empty vector when nothing shows.
#[verifier::rlimit(60)]
pub fn day_slots(entries: &Vec<Entry>, now: i64, date: i64) -> (slots: Vec<Slot>)
    requires
        log_wf(entries@),
        log_disjoint(entries@),
        log_before(entries@, now as int),
        instant_wf(now as int),
        0 <= date <= MAX_DAY,
    ensures
        !any_visible(entries@, now as int, date as int) ==> slots@.len() == 0,
        any_visible(entries@, now as int, date as int) ==> slots@.len() == grid_hi(
            entries@,
            now as int,
            date as int,
        ) - grid_lo(entries@, now as int, date as int),
        any_visible(entries@, now as int, date as int) ==> -2 <= grid_lo(
            entries@,
            now as int,
            date as int,
        ) < grid_hi(entries@, now as int, date as int) <= 97,
        forall|j: int|
            0 <= j < slots@.len() ==> (#[trigger] slots@[j]).index as int == grid_lo(
                entries@,
                now as int,
                date as int,
            ) + j,
        forall|j: int|
            0 <= j < slots@.len() ==> match (#[trigger] slots@[j]).entry {
                Some(kk) => covers(
                    entries@,
                    now as int,
                    date as int,
                    kk as int,
                    slots@[j].index as int,
                ),
                None => !covered(entries@, now as int, date as int, slots@[j].index as int),
            },
{
    let ghost s = entries@;
    let ghost gnow = now as int;
    let ghost gdate = date as int;
    let wlo = date * SECS_PER_DAY;
    let whi = (date + 1) * SECS_PER_DAY;
    let mut slots: Vec<Slot> = Vec::new();
    let bounds = visible_bounds(entries, now, wlo, whi, Ghost(gdate));
    if let Some((first, last)) = bounds {
        proof {
            assert(any_visible(s, gnow, gdate));
            lemma_first_visible_is(s, gnow, gdate, first as int);
            lemma_last_visible_is(s, gnow, gdate, last as int);
        }
        let fr = slot_range(&entries[first], now, wlo, whi, Ghost(gdate));
        let lr = slot_range(&entries[last], now, wlo, whi, Ghost(gdate));
        let base = ((fr.0 as u64 / 8) * 8) as i64 - 2;
        let le = lr.1;
        let hilim = if ((le - 1) as u64) % 8 >= 6 {
            (((le - 1) as u64 / 8 + 1) * 8) as i64 + 1
        } else {
            le
        };
        proof {
            reveal(grid_lo);
            reveal(grid_hi);
            lemma_fundamental_div_mod(fr.0 as int, 8);
            lemma_fundamental_div_mod(le as int - 1, 8);
            assert(base as int == grid_lo(s, gnow, gdate));
            assert(hilim as int == grid_hi(s, gnow, gdate));
            if first < last {
                lemma_slots_ordered(s, gnow, gdate, first as int, last as int);
            }
            assert(base < le <= hilim);
        }
        let mut i = base;
        while i < hilim
            invariant
                s == entries@,
                gnow == now as int,
                gdate == date as int,
                log_wf(s),
                log_before(s, gnow),
                instant_wf(gnow),
                0 <= gdate <= MAX_DAY as int,
                wlo as int == day_start(gdate),
                whi as int == day_start(gdate + 1),
                base <= i <= hilim,
                slots@.len() == i - base,
                forall|j: int|
                    0 <= j < slots@.len() ==> (#[trigger] slots@[j]).index as int == base as int
                        + j,
                forall|j: int|
                    0 <= j < slots@.len() ==> match (#[trigger] slots@[j]).entry {
                        Some(kk) => covers(s, gnow, gdate, kk as int, slots@[j].index as int),
                        None => !covered(s, gnow, gdate, slots@[j].index as int),
                    },
            decreases hilim - i,
        {
            let c = find_cover(entries, now, wlo, whi, i, Ghost(gdate));
            slots.push(Slot { index: i, entry: c });
            i = i + 1;
        }
    } else {
        proof {
            assert(!any_visible(s, gnow, gdate));
        }
    }
    slots
}

} // verus!
