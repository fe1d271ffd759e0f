//! The interval aggregator: per-project totals over three windows.
//!
//! Every report is a pure function of the log, an explicit `now`, and (for
//! the day-based windows) a day-boundary offset.  An ongoing entry counts
//! up to `now` in every mode.  The daily report covers only entries whose
//! offset-shifted end falls on today, clipped at today's start; the weekly
//! report splits each entry's shifted span over the seven day windows
//! ending today.

use vstd::prelude::*;
use vstd::math::max;
use vstd::math::min;
use crate::dates::{SECS_PER_DAY, MAX_INSTANT, instant_wf, offset_wf, day_of, day_start,
    day_of_i64, min_i64, max_i64, lemma_day_bounds, lemma_day_monotone};
use crate::entry::{Entry, entry_wf, entry_stop, log_wf, log_before};
use crate::rows::{ProjectTotal, ProjectWeek, totals_sorted, weeks_sorted, total_of, row_sum,
    has_project, week_total_of, week_row_sum, has_week, bump_total, bump_week,
    lemma_total_of_present, lemma_week_total_of_present};

verus! {

/// Sum of a per-entry measure over a log.
pub open spec fn sum_entries(s: Seq<Entry>, f: spec_fn(Entry) -> int) -> int
    decreases s.len(),
{
    if s.len() == 0 {
        0
    } else {
        sum_entries(s.drop_last(), f) + f(s.last())
    }
}

/// Appending an entry adds its measure to the sum.
pub proof fn lemma_sum_entries_push(s: Seq<Entry>, f: spec_fn(Entry) -> int, e: Entry)
    ensures
        sum_entries(s.push(e), f) == sum_entries(s, f) + f(e),
{
    assert(s.push(e).drop_last() =~= s);
    assert(s.push(e).last() == e);
}

/// A pointwise bound on the measure bounds the sum.
pub proof fn lemma_sum_entries_bounds(s: Seq<Entry>, f: spec_fn(Entry) -> int, c: int)
    requires
        forall|i: int| 0 <= i < s.len() ==> 0 <= #[trigger] f(s[i]) <= c,
    ensures
        0 <= sum_entries(s, f) <= s.len() * c,
    decreases s.len(),
{
    if s.len() > 0 {
        assert forall|i: int| 0 <= i < s.drop_last().len() implies 0 <= #[trigger] f(
            s.drop_last()[i],
        ) <= c by {
            assert(s.drop_last()[i] == s[i]);
        }
        lemma_sum_entries_bounds(s.drop_last(), f, c);
        assert(f(s.last()) >= 0 && f(s.last()) <= c);
        assert(s.len() * c == (s.len() - 1) * c + c) by (nonlinear_arith);
    }
}

/// Seconds an entry contributes to the all-time report.
pub open spec fn full_span(e: Entry, now: int) -> int {
    entry_stop(e, now) - e.start
}

/// Today's day number: the day of `now` pulled back by the boundary offset.
pub open spec fn today_of(now: int, off: int) -> int {
    day_of(now - off)
}

/// Whether the daily report covers an entry: its shifted end falls on today.
pub open spec fn daily_included(e: Entry, now: int, off: int) -> bool {
    day_of(entry_stop(e, now) - off) == today_of(now, off)
}

/// Seconds an entry contributes to the daily report: nothing unless it is
/// covered, else its shifted span clipped at today's start.
pub open spec fn daily_span(e: Entry, now: int, off: int) -> int {
    let sp = e.start - off;
    let ep = entry_stop(e, now) - off;
    let today = today_of(now, off);
    if day_of(ep) == today {
        ep - max(sp, day_start(today))
    } else {
        0
    }
}

/// Whether the weekly report covers an entry: its shifted end falls on one
/// of the seven days ending today.
pub open spec fn weekly_included(e: Entry, now: int, off: int) -> bool {
    day_of(entry_stop(e, now) - off) >= today_of(now, off) - 6
}

/// Seconds an entry contributes to day `d` (days before today) of the
/// weekly report: the overlap of its shifted span with that day's window.
pub open spec fn weekly_span(e: Entry, now: int, off: int, d: int) -> int {
    let sp = e.start - off;
    let ep = entry_stop(e, now) - off;
    let today = today_of(now, off);
    if 0 <= d <= 6 && today - day_of(ep) <= d && d <= today - day_of(sp) {
        min(ep, day_start(today - d + 1)) - max(sp, day_start(today - d))
    } else {
        0
    }
}

/// Restriction of a measure to one project.
pub open spec fn for_project(f: spec_fn(Entry) -> int, p: Seq<char>) -> spec_fn(Entry) -> int {
    |e: Entry| if e.project@ == p { f(e) } else { 0 }
}

pub open spec fn full_measure(now: int) -> spec_fn(Entry) -> int {
    |e: Entry| full_span(e, now)
}

pub open spec fn daily_measure(now: int, off: int) -> spec_fn(Entry) -> int {
    |e: Entry| daily_span(e, now, off)
}

pub open spec fn weekly_measure(now: int, off: int, d: int) -> spec_fn(Entry) -> int {
    |e: Entry| weekly_span(e, now, off, d)
}

/// A project's all-time total.
pub open spec fn full_total(s: Seq<Entry>, now: int, p: Seq<char>) -> int {
    sum_entries(s, for_project(full_measure(now), p))
}

/// A project's daily total.
pub open spec fn daily_total(s: Seq<Entry>, now: int, off: int, p: Seq<char>) -> int {
    sum_entries(s, for_project(daily_measure(now, off), p))
}

/// The daily grand total over all projects.
pub open spec fn daily_grand(s: Seq<Entry>, now: int, off: int) -> int {
    sum_entries(s, daily_measure(now, off))
}

/// A project's weekly total for day `d`.
pub open spec fn weekly_total(s: Seq<Entry>, now: int, off: int, p: Seq<char>, d: int) -> int {
    sum_entries(s, for_project(weekly_measure(now, off, d), p))
}

/// The weekly grand total for day `d` over all projects.
pub open spec fn weekly_grand(s: Seq<Entry>, now: int, off: int, d: int) -> int {
    sum_entries(s, weekly_measure(now, off, d))
}

/// Some entry of the log carries project `p`.
pub open spec fn log_has(s: Seq<Entry>, p: Seq<char>) -> bool {
    exists|k: int| 0 <= k < s.len() && (#[trigger] s[k]).project@ == p
}

/// Some daily-covered entry of the log carries project `p`.
pub open spec fn log_has_daily(s: Seq<Entry>, now: int, off: int, p: Seq<char>) -> bool {
    exists|k: int|
        0 <= k < s.len() && (#[trigger] s[k]).project@ == p && daily_included(s[k], now, off)
}

/// Some weekly-covered entry of the log carries project `p`.
pub open spec fn log_has_weekly(s: Seq<Entry>, now: int, off: int, p: Seq<char>) -> bool {
    exists|k: int|
        0 <= k < s.len() && (#[trigger] s[k]).project@ == p && weekly_included(s[k], now, off)
}

/// The log is small enough that no report total can overflow a signed
/// 64-bit second count.
pub open spec fn log_fits(s: Seq<Entry>) -> bool {
    s.len() * (MAX_INSTANT as int + SECS_PER_DAY as int) <= i64::MAX as int
}

/// A well-formed past entry's all-time span is non-negative and bounded.
pub proof fn lemma_full_span_bounds(e: Entry, now: int)
    requires
        entry_wf(e),
        e.start <= now,
        instant_wf(now),
    ensures
        0 <= full_span(e, now) <= MAX_INSTANT as int,
{
}

/// A well-formed past entry's daily span is non-negative and below one day.
pub proof fn lemma_daily_span_bounds(e: Entry, now: int, off: int)
    requires
        entry_wf(e),
        e.start <= now,
        entry_stop(e, now) <= now,
        instant_wf(now),
        offset_wf(off),
    ensures
        0 <= daily_span(e, now, off) <= SECS_PER_DAY as int,
        daily_span(e, now, off) <= full_span(e, now),
{
    let sp = e.start - off;
    let ep = entry_stop(e, now) - off;
    let today = today_of(now, off);
    if day_of(ep) == today {
        lemma_day_bounds(ep);
    }
}

/// A well-formed past entry's weekly span is non-negative and at most one
/// day for each day index.
pub proof fn lemma_weekly_span_bounds(e: Entry, now: int, off: int, d: int)
    requires
        entry_wf(e),
        e.start <= now,
        entry_stop(e, now) <= now,
        instant_wf(now),
        offset_wf(off),
    ensures
        0 <= weekly_span(e, now, off, d) <= SECS_PER_DAY as int,
{
    let sp = e.start - off;
    let ep = entry_stop(e, now) - off;
    let today = today_of(now, off);
    if 0 <= d <= 6 && today - day_of(ep) <= d && d <= today - day_of(sp) {
        lemma_day_bounds(ep);
        lemma_day_bounds(sp);
        assert(ep >= day_start(today - d));
        assert(sp < day_start(today - d + 1));
    }
}

/// The all-time report: one sorted row per project of the log, holding
/// exactly that project's all-time total.
pub fn summary_full(entries: &Vec<Entry>, now: i64) -> (r: Vec<ProjectTotal>)
    requires
        log_wf(entries@),
        log_before(entries@, now as int),
        instant_wf(now as int),
        log_fits(entries@),
    ensures
        totals_sorted(r@),
        forall|i: int|
            0 <= i < r@.len() ==> (#[trigger] r@[i]).secs as int == full_total(
                entries@,
                now as int,
                r@[i].project@,
            ),
        forall|p: Seq<char>| #[trigger] has_project(r@, p) <==> log_has(entries@, p),
{
    let mut rows: Vec<ProjectTotal> = Vec::new();
    let mut k: usize = 0;
    proof {
        assert(entries@.take(0) =~= Seq::<Entry>::empty());
    }
    while k < entries.len()
        invariant
            k <= entries@.len(),
            totals_sorted(rows@),
            forall|p: Seq<char>|
                #[trigger] total_of(rows@, p) == sum_entries(
                    entries@.take(k as int),
                    for_project(full_measure(now as int), p),
                ),
            forall|p: Seq<char>| #[trigger] has_project(rows@, p) <==> log_has(
                entries@.take(k as int),
                p,
            ),
            forall|i: int| 0 <= i < rows@.len() ==> 0 <= (#[trigger] rows@[i]).secs,
            log_wf(entries@),
            log_before(entries@, now as int),
            instant_wf(now as int),
            log_fits(entries@),
        decreases entries@.len() - k,
    {
        let ghost pre = entries@.take(k as int);
        let stop = if let Some(t) = entries[k].end {
            t
        } else {
            now
        };
        proof {
            assert(entry_wf(entries@[k as int]));
            assert(stop as int == entry_stop(entries@[k as int], now as int));
        }
        let span = stop - entries[k].start;
        proof {
            let ghost e = entries@[k as int];
            let ghost p0 = e.project@;
            assert(span as int == full_span(e, now as int));
            lemma_full_span_bounds(e, now as int);
            assert forall|i: int| 0 <= i < rows@.len() implies 0 <= (#[trigger] rows@[i]).secs
                && rows@[i].secs + span <= i64::MAX by {
                lemma_total_of_present(rows@, i);
                let f = for_project(full_measure(now as int), rows@[i].project@);
                assert forall|j: int| 0 <= j < pre.len() implies 0 <= #[trigger] f(pre[j])
                    <= MAX_INSTANT as int by {
                    assert(pre[j] == entries@[j]);
                    lemma_full_span_bounds(entries@[j], now as int);
                }
                lemma_sum_entries_bounds(pre, f, MAX_INSTANT as int);
                assert(k * (MAX_INSTANT as int) + MAX_INSTANT as int <= entries@.len() * (
                MAX_INSTANT as int + SECS_PER_DAY as int)) by (nonlinear_arith)
                    requires
                        0 <= k < entries@.len(),
                        MAX_INSTANT == 4_000_000_000_000i64,
                        SECS_PER_DAY == 86400i64,
                ;
            }
        }
        bump_total(&mut rows, &entries[k].project, span);
        proof {
            let ghost e = entries@[k as int];
            assert(entries@.take(k as int + 1) =~= pre.push(e));
            assert forall|p: Seq<char>|
                #[trigger] total_of(rows@, p) == sum_entries(
                    entries@.take(k as int + 1),
                    for_project(full_measure(now as int), p),
                ) by {
                lemma_sum_entries_push(pre, for_project(full_measure(now as int), p), e);
            }
            assert forall|p: Seq<char>| #[trigger] has_project(rows@, p) <==> log_has(
                entries@.take(k as int + 1),
                p,
            ) by {
                let post = entries@.take(k as int + 1);
                if has_project(rows@, p) {
                    if log_has(pre, p) {
                        let w = choose|w: int| 0 <= w < pre.len() && pre[w].project@ == p;
                        assert(post[w].project@ == p);
                    } else {
                        assert(p == e.project@);
                        assert(post[k as int].project@ == p);
                    }
                }
                if log_has(post, p) {
                    let w = choose|w: int| 0 <= w < post.len() && post[w].project@ == p;
                    if w < k {
                        assert(pre[w].project@ == p);
                    } else {
                        assert(post[w] == e);
                    }
                }
            }
        }
        k = k + 1;
    }
    proof {
        assert(entries@.take(entries@.len() as int) =~= entries@);
        assert forall|i: int| 0 <= i < rows@.len() implies (#[trigger] rows@[i]).secs as int
            == full_total(entries@, now as int, rows@[i].project@) by {
            lemma_total_of_present(rows@, i);
        }
    }
    rows
}

/// The currently running entry, as the "Ongoing" line of a report shows
/// it: its project and the seconds it has accumulated up to `now`.
pub fn ongoing(entries: &Vec<Entry>, now: i64) -> (r: Option<(String, i64)>)
    requires
        log_wf(entries@),
        log_before(entries@, now as int),
        instant_wf(now as int),
    ensures
        match r {
            None => entries@.len() == 0 || entries@.last().end is Some,
            Some(pr) => entries@.len() > 0 && entries@.last().end is None && pr.0@
                == entries@.last().project@ && pr.1 as int == now - entries@.last().start,
        },
{
    if entries.len() == 0 {
        return None;
    }
    let last = &entries[entries.len() - 1];
    if last.end.is_none() {
        proof {
            assert(entry_wf(entries@.last()));
        }
        Some((last.project.clone(), now - last.start))
    } else {
        None
    }
}

/// The daily report: one sorted row per covered project with its clipped
/// total, and the grand total, which also equals the sum of the rows.
pub fn summary_daily(entries: &Vec<Entry>, now: i64, offset: i64) -> (r: (Vec<ProjectTotal>, i64))
    requires
        log_wf(entries@),
        log_before(entries@, now as int),
        instant_wf(now as int),
        offset_wf(offset as int),
        log_fits(entries@),
    ensures
        totals_sorted(r.0@),
        forall|i: int|
            0 <= i < r.0@.len() ==> (#[trigger] r.0@[i]).secs as int == daily_total(
                entries@,
                now as int,
                offset as int,
                r.0@[i].project@,
            ),
        forall|p: Seq<char>| #[trigger] has_project(r.0@, p) <==> log_has_daily(
            entries@,
            now as int,
            offset as int,
            p,
        ),
        r.1 as int == daily_grand(entries@, now as int, offset as int),
        r.1 as int == row_sum(r.0@),
{
    let ghost gnow = now as int;
    let ghost goff = offset as int;
    let shifted_now = now - offset;
    let today = day_of_i64(shifted_now);
    proof {
        lemma_day_bounds(gnow - goff);
        lemma_day_monotone(-(SECS_PER_DAY as int), gnow - goff);
        vstd::arithmetic::div_mod::lemma_fundamental_div_mod_converse(
            -(SECS_PER_DAY as int),
            SECS_PER_DAY as int,
            -1,
            0,
        );
        assert(day_of(-(SECS_PER_DAY as int)) == -1);
    }
    let midnight = today * SECS_PER_DAY;
    let mut rows: Vec<ProjectTotal> = Vec::new();
    let mut total: i64 = 0;
    let mut k: usize = 0;
    proof {
        assert(entries@.take(0) =~= Seq::<Entry>::empty());
    }
    while k < entries.len()
        invariant
            k <= entries@.len(),
            totals_sorted(rows@),
            gnow == now as int,
            goff == offset as int,
            today as int == today_of(gnow, goff),
            midnight as int == day_start(today as int),
            forall|p: Seq<char>|
                #[trigger] total_of(rows@, p) == sum_entries(
                    entries@.take(k as int),
                    for_project(daily_measure(gnow, goff), p),
                ),
            forall|p: Seq<char>| #[trigger] has_project(rows@, p) <==> log_has_daily(
                entries@.take(k as int),
                gnow,
                goff,
                p,
            ),
            forall|i: int| 0 <= i < rows@.len() ==> 0 <= (#[trigger] rows@[i]).secs,
            total as int == sum_entries(entries@.take(k as int), daily_measure(gnow, goff)),
            total as int == row_sum(rows@),
            log_wf(entries@),
            log_before(entries@, gnow),
            instant_wf(gnow),
            offset_wf(goff),
            log_fits(entries@),
        decreases entries@.len() - k,
    {
        let ghost pre = entries@.take(k as int);
        let ghost e = entries@[k as int];
        let stop = if let Some(t) = entries[k].end {
            t
        } else {
            now
        };
        proof {
            assert(entry_wf(e));
            assert(stop as int == entry_stop(e, gnow));
        }
        let ep = stop - offset;
        let epd = day_of_i64(ep);
        if epd == today {
            let sp = entries[k].start - offset;
            let clip = max_i64(sp, midnight);
            proof {
                lemma_day_bounds(ep as int);
            }
            let dur = ep - clip;
            proof {
                assert(dur as int == daily_span(e, gnow, goff));
                lemma_daily_span_bounds(e, gnow, goff);
                assert forall|i: int| 0 <= i < rows@.len() implies 0 <= (#[trigger] rows@[i]).secs
                    && rows@[i].secs + dur <= i64::MAX by {
                    lemma_total_of_present(rows@, i);
                    let f = for_project(daily_measure(gnow, goff), rows@[i].project@);
                    assert forall|j: int| 0 <= j < pre.len() implies 0 <= #[trigger] f(pre[j])
                        <= SECS_PER_DAY as int by {
                        assert(pre[j] == entries@[j]);
                        lemma_daily_span_bounds(entries@[j], gnow, goff);
                    }
                    lemma_sum_entries_bounds(pre, f, SECS_PER_DAY as int);
                    assert(k * (SECS_PER_DAY as int) + SECS_PER_DAY as int <= entries@.len() * (
                    MAX_INSTANT as int + SECS_PER_DAY as int)) by (nonlinear_arith)
                        requires
                            0 <= k < entries@.len(),
                            MAX_INSTANT == 4_000_000_000_000i64,
                            SECS_PER_DAY == 86400i64,
                    ;
                }
                assert forall|j: int| 0 <= j < pre.len() implies 0 <= #[trigger] daily_measure(
                    gnow,
                    goff,
                )(pre[j]) <= SECS_PER_DAY as int by {
                    assert(pre[j] == entries@[j]);
                    lemma_daily_span_bounds(entries@[j], gnow, goff);
                }
                lemma_sum_entries_bounds(pre, daily_measure(gnow, goff), SECS_PER_DAY as int);
                assert(k * (SECS_PER_DAY as int) + SECS_PER_DAY as int <= entries@.len() * (
                MAX_INSTANT as int + SECS_PER_DAY as int)) by (nonlinear_arith)
                    requires
                        0 <= k < entries@.len(),
                        MAX_INSTANT == 4_000_000_000_000i64,
                        SECS_PER_DAY == 86400i64,
                ;
            }
            bump_total(&mut rows, &entries[k].project, dur);
            total = total + dur;
        } else {
            proof {
                assert(daily_span(e, gnow, goff) == 0);
            }
        }
        proof {
            assert(entries@.take(k as int + 1) =~= pre.push(e));
            assert forall|p: Seq<char>|
                #[trigger] total_of(rows@, p) == sum_entries(
                    entries@.take(k as int + 1),
                    for_project(daily_measure(gnow, goff), p),
                ) by {
                lemma_sum_entries_push(pre, for_project(daily_measure(gnow, goff), p), e);
            }
            lemma_sum_entries_push(pre, daily_measure(gnow, goff), e);
            assert forall|p: Seq<char>| #[trigger] has_project(rows@, p) <==> log_has_daily(
                entries@.take(k as int + 1),
                gnow,
                goff,
                p,
            ) by {
                let post = entries@.take(k as int + 1);
                if has_project(rows@, p) {
                    if log_has_daily(pre, gnow, goff, p) {
                        let w = choose|w: int|
                            0 <= w < pre.len() && pre[w].project@ == p && daily_included(
                                pre[w],
                                gnow,
                                goff,
                            );
                        assert(post[w].project@ == p && daily_included(post[w], gnow, goff));
                    } else {
                        assert(p == e.project@ && daily_included(e, gnow, goff));
                        assert(post[k as int].project@ == p);
                    }
                }
                if log_has_daily(post, gnow, goff, p) {
                    let w = choose|w: int|
                        0 <= w < post.len() && post[w].project@ == p && daily_included(
                            post[w],
                            gnow,
                            goff,
                        );
                    if w < k {
                        assert(pre[w].project@ == p && daily_included(pre[w], gnow, goff));
                    } else {
                        assert(post[w] == e);
                    }
                }
            }
        }
        k = k + 1;
    }
    proof {
        assert(entries@.take(entries@.len() as int) =~= entries@);
        assert forall|i: int| 0 <= i < rows@.len() implies (#[trigger] rows@[i]).secs as int
            == daily_total(entries@, gnow, goff, rows@[i].project@) by {
            lemma_total_of_present(rows@, i);
        }
    }
    (rows, total)
}

/// Pointwise-split measures sum separately.
pub proof fn lemma_sum_entries_split(
    s: Seq<Entry>,
    f: spec_fn(Entry) -> int,
    g: spec_fn(Entry) -> int,
    h: spec_fn(Entry) -> int,
)
    requires
        forall|i: int| 0 <= i < s.len() ==> #[trigger] f(s[i]) == g(s[i]) + h(s[i]),
    ensures
        sum_entries(s, f) == sum_entries(s, g) + sum_entries(s, h),
    decreases s.len(),
{
    if s.len() > 0 {
        assert forall|i: int| 0 <= i < s.drop_last().len() implies #[trigger] f(s.drop_last()[i])
            == g(s.drop_last()[i]) + h(s.drop_last()[i]) by {
            assert(s.drop_last()[i] == s[i]);
        }
        lemma_sum_entries_split(s.drop_last(), f, g, h);
        assert(f(s.last()) == g(s.last()) + h(s.last()));
    }
}

/// A one-entry log's all-time total for its project is the entry's whole
/// span: `end - start` when closed, `now - start` while ongoing.
pub proof fn lemma_full_single(e: Entry, now: int)
    ensures
        e.end is Some ==> full_total(seq![e], now, e.project@) == e.end->0 - e.start,
        e.end is None ==> full_total(seq![e], now, e.project@) == now - e.start,
{
    let s = seq![e];
    let f = for_project(full_measure(now), e.project@);
    assert(s.drop_last() =~= Seq::<Entry>::empty());
    assert(sum_entries(s.drop_last(), f) == 0);
    assert(s.last() == e);
    assert(f(e) == full_span(e, now));
    assert(full_total(s, now, e.project@) == full_span(e, now));
}

/// The daily report excludes an entry whose shifted end does not fall on
/// today; an included entry contributes nothing from before today's start
/// boundary, and never more than its whole span.
pub proof fn lemma_daily_excludes_and_clips(e: Entry, now: int, off: int)
    requires
        entry_wf(e),
        e.start <= now,
        entry_stop(e, now) <= now,
        instant_wf(now),
        offset_wf(off),
    ensures
        !daily_included(e, now, off) ==> daily_span(e, now, off) == 0,
        daily_included(e, now, off) ==> daily_span(e, now, off) <= (entry_stop(e, now) - off)
            - day_start(today_of(now, off)),
        daily_span(e, now, off) <= full_span(e, now),
{
    lemma_daily_span_bounds(e, now, off);
}

/// An entry's shifted span clipped to the window of the `n` days ending
/// today: what the weekly report can show of it.
pub open spec fn window_span(e: Entry, now: int, off: int, n: int) -> int {
    let sp = e.start - off;
    let ep = entry_stop(e, now) - off;
    let today = today_of(now, off);
    max(0, min(ep, day_start(today + 1)) - max(sp, day_start(today + 1 - n)))
}

pub open spec fn window_measure(now: int, off: int, n: int) -> spec_fn(Entry) -> int {
    |e: Entry| window_span(e, now, off, n)
}

/// Sum of an entry's weekly spans over days 0 .. n-1.
pub open spec fn weekly_span_sum(e: Entry, now: int, off: int, n: int) -> int
    decreases n,
{
    if n <= 0 {
        0
    } else {
        weekly_span_sum(e, now, off, n - 1) + weekly_span(e, now, off, n - 1)
    }
}

/// Day `n-1`'s bucket extends the clip window by exactly one day.
proof fn lemma_weekly_splits_prefix(e: Entry, now: int, off: int, n: int)
    requires
        entry_wf(e),
        e.start <= now,
        entry_stop(e, now) <= now,
        instant_wf(now),
        offset_wf(off),
        0 <= n <= 7,
    ensures
        weekly_span_sum(e, now, off, n) == window_span(e, now, off, n),
    decreases n,
{
    let sp = e.start - off;
    let ep = entry_stop(e, now) - off;
    let today = today_of(now, off);
    lemma_day_bounds(now - off);
    lemma_day_bounds(ep);
    lemma_day_bounds(sp);
    lemma_day_monotone(ep, now - off);
    lemma_day_monotone(sp, ep);
    if n == 0 {
    } else {
        lemma_weekly_splits_prefix(e, now, off, n - 1);
        let d = n - 1;
        if today - day_of(ep) <= d && d <= today - day_of(sp) {
            assert(ep >= day_start(day_of(ep)));
            assert(day_start(today - d) <= day_start(day_of(ep)));
            assert(sp < day_start(day_of(sp) + 1));
            assert(day_start(day_of(sp) + 1) <= day_start(today - d + 1));
        } else if d < today - day_of(ep) {
            assert(ep < day_start(day_of(ep) + 1));
            assert(day_start(day_of(ep) + 1) <= day_start(today - d));
        } else {
            assert(sp >= day_start(day_of(sp)));
            assert(day_start(day_of(sp)) >= day_start(today - d + 1));
        }
    }
}

/// The seven weekly buckets split an entry's in-window time exactly: no
/// double counting, no gaps.
pub proof fn lemma_weekly_splits_entry(e: Entry, now: int, off: int)
    requires
        entry_wf(e),
        e.start <= now,
        entry_stop(e, now) <= now,
        instant_wf(now),
        offset_wf(off),
    ensures
        weekly_span_sum(e, now, off, 7) == window_span(e, now, off, 7),
{
    lemma_weekly_splits_prefix(e, now, off, 7);
}

/// Sum of a project's weekly buckets over days 0 .. n-1.
pub open spec fn weekly_total_sum(s: Seq<Entry>, now: int, off: int, p: Seq<char>, n: int) -> int
    decreases n,
{
    if n <= 0 {
        0
    } else {
        weekly_total_sum(s, now, off, p, n - 1) + weekly_total(s, now, off, p, n - 1)
    }
}

/// A project's all-time total restricted to the seven-day window.
pub open spec fn window_total(s: Seq<Entry>, now: int, off: int, p: Seq<char>) -> int {
    sum_entries(s, for_project(window_measure(now, off, 7), p))
}

proof fn lemma_weekly_matches_window_prefix(s: Seq<Entry>, now: int, off: int, p: Seq<char>, n: int)
    requires
        log_wf(s),
        log_before(s, now),
        instant_wf(now),
        offset_wf(off),
        0 <= n <= 7,
    ensures
        weekly_total_sum(s, now, off, p, n) == sum_entries(s, for_project(window_measure(now, off, n), p)),
    decreases n,
{
    if n == 0 {
        let f = for_project(window_measure(now, off, 0), p);
        assert forall|i: int| 0 <= i < s.len() implies 0 <= #[trigger] f(s[i]) <= 0 by {
            assert(entry_wf(s[i]));
            lemma_weekly_splits_prefix(s[i], now, off, 0);
        }
        lemma_sum_entries_bounds(s, f, 0);
    } else {
        lemma_weekly_matches_window_prefix(s, now, off, p, n - 1);
        let f = for_project(window_measure(now, off, n), p);
        let g = for_project(window_measure(now, off, n - 1), p);
        let h = for_project(weekly_measure(now, off, n - 1), p);
        assert forall|i: int| 0 <= i < s.len() implies #[trigger] f(s[i]) == g(s[i]) + h(s[i]) by {
            assert(entry_wf(s[i]));
            lemma_weekly_splits_prefix(s[i], now, off, n);
            lemma_weekly_splits_prefix(s[i], now, off, n - 1);
        }
        lemma_sum_entries_split(s, f, g, h);
    }
}

/// Summed over the seven days, a project's weekly buckets equal its
/// all-time total restricted to the week window.
pub proof fn lemma_weekly_matches_window(s: Seq<Entry>, now: int, off: int, p: Seq<char>)
    requires
        log_wf(s),
        log_before(s, now),
        instant_wf(now),
        offset_wf(off),
    ensures
        weekly_total_sum(s, now, off, p, 7) == window_total(s, now, off, p),
{
    lemma_weekly_matches_window_prefix(s, now, off, p, 7);
}

/// The weekly report: one sorted row per covered project with seconds for
/// each of the seven days ending today (index 0 = today, 6 = six days
/// ago), and per-day grand totals, each equal to the sum of its column.
pub fn summary_weekly(entries: &Vec<Entry>, now: i64, offset: i64) -> (r: (
    Vec<ProjectWeek>,
    [i64; 7],
))
    requires
        log_wf(entries@),
        log_before(entries@, now as int),
        instant_wf(now as int),
        offset_wf(offset as int),
        log_fits(entries@),
    ensures
        weeks_sorted(r.0@),
        forall|i: int, d: int|
            0 <= i < r.0@.len() && 0 <= d < 7 ==> (#[trigger] r.0@[i].days@[d]) as int
                == weekly_total(entries@, now as int, offset as int, r.0@[i].project@, d),
        forall|p: Seq<char>| #[trigger] has_week(r.0@, p) <==> log_has_weekly(
            entries@,
            now as int,
            offset as int,
            p,
        ),
        forall|d: int|
            0 <= d < 7 ==> (#[trigger] r.1@[d]) as int == weekly_grand(
                entries@,
                now as int,
                offset as int,
                d,
            ),
        forall|d: int| 0 <= d < 7 ==> (#[trigger] r.1@[d]) as int == week_row_sum(r.0@, d),
{
    let ghost gnow = now as int;
    let ghost goff = offset as int;
    let shifted_now = now - offset;
    let today = day_of_i64(shifted_now);
    proof {
        lemma_day_bounds(gnow - goff);
        lemma_day_monotone(-(SECS_PER_DAY as int), gnow - goff);
        vstd::arithmetic::div_mod::lemma_fundamental_div_mod_converse(
            -(SECS_PER_DAY as int),
            SECS_PER_DAY as int,
            -1,
            0,
        );
    }
    let mut rows: Vec<ProjectWeek> = Vec::new();
    let mut day_totals: [i64; 7] = [0, 0, 0, 0, 0, 0, 0];
    let mut k: usize = 0;
    proof {
        assert(entries@.take(0) =~= Seq::<Entry>::empty());
    }
    while k < entries.len()
        invariant
            k <= entries@.len(),
            weeks_sorted(rows@),
            gnow == now as int,
            goff == offset as int,
            today as int == today_of(gnow, goff),
            -1 <= today as int,
            day_start(today as int) <= gnow - goff,
            forall|p: Seq<char>, dd: int|
                0 <= dd < 7 ==> #[trigger] week_total_of(rows@, p, dd) == sum_entries(
                    entries@.take(k as int),
                    for_project(weekly_measure(gnow, goff, dd), p),
                ),
            forall|p: Seq<char>| #[trigger] has_week(rows@, p) <==> log_has_weekly(
                entries@.take(k as int),
                gnow,
                goff,
                p,
            ),
            forall|dd: int|
                0 <= dd < 7 ==> (#[trigger] day_totals@[dd]) as int == sum_entries(
                    entries@.take(k as int),
                    weekly_measure(gnow, goff, dd),
                ),
            forall|dd: int|
                0 <= dd < 7 ==> week_row_sum(rows@, dd) == (#[trigger] day_totals@[dd]) as int,
            forall|i: int, dd: int|
                0 <= i < rows@.len() && 0 <= dd < 7 ==> 0 <= #[trigger] rows@[i].days@[dd],
            log_wf(entries@),
            log_before(entries@, gnow),
            instant_wf(gnow),
            offset_wf(goff),
            log_fits(entries@),
        decreases entries@.len() - k,
    {
        let ghost pre = entries@.take(k as int);
        let ghost e = entries@[k as int];
        let stop = if let Some(t) = entries[k].end {
            t
        } else {
            now
        };
        proof {
            assert(entry_wf(entries@[k as int]));
            assert(stop as int == entry_stop(e, gnow));
        }
        let ep = stop - offset;
        let sp = entries[k].start - offset;
        let epd = day_of_i64(ep);
        let spd = day_of_i64(sp);
        proof {
            lemma_day_monotone(ep as int, gnow - goff);
            lemma_day_monotone(-(SECS_PER_DAY as int), ep as int);
            lemma_day_monotone(-(SECS_PER_DAY as int), sp as int);
            lemma_day_monotone(sp as int, ep as int);
            vstd::arithmetic::div_mod::lemma_fundamental_div_mod_converse(
                -(SECS_PER_DAY as int),
                SECS_PER_DAY as int,
                -1,
                0,
            );
        }
        let lo = today - epd;
        let hi_raw = today - spd;
        let hi = if hi_raw > 6 {
            6
        } else {
            hi_raw
        };
        if lo <= hi {
            let mut d = lo;
            while d <= hi
                invariant
                    k < entries@.len(),
                    e == entries@[k as int],
                    pre == entries@.take(k as int),
                    gnow == now as int,
                    goff == offset as int,
                    today as int == today_of(gnow, goff),
                    -1 <= today as int,
                    day_start(today as int) <= gnow - goff,
                    ep as int == entry_stop(e, gnow) - goff,
                    sp as int == e.start - goff,
                    lo as int == today as int - day_of(ep as int),
                    hi as int == min(6, today as int - day_of(sp as int)),
                    0 <= lo <= 6,
                    lo <= d <= hi + 1,
                    hi <= 6,
                    weeks_sorted(rows@),
                    forall|p: Seq<char>, dd: int|
                        0 <= dd < 7 ==> #[trigger] week_total_of(rows@, p, dd) == sum_entries(
                            pre,
                            for_project(weekly_measure(gnow, goff, dd), p),
                        ) + if p == e.project@ && lo <= dd < d {
                            weekly_span(e, gnow, goff, dd)
                        } else {
                            0
                        },
                    forall|p: Seq<char>|
                        #[trigger] has_week(rows@, p) <==> (log_has_weekly(pre, gnow, goff, p) || (
                        p == e.project@ && d > lo)),
                    forall|dd: int|
                        0 <= dd < 7 ==> (#[trigger] day_totals@[dd]) as int == sum_entries(
                            pre,
                            weekly_measure(gnow, goff, dd),
                        ) + if lo <= dd < d {
                            weekly_span(e, gnow, goff, dd)
                        } else {
                            0
                        },
                    forall|dd: int|
                        0 <= dd < 7 ==> week_row_sum(rows@, dd) == (#[trigger] day_totals@[dd]) as int,
                    forall|i: int, dd: int|
                        0 <= i < rows@.len() && 0 <= dd < 7 ==> 0 <= #[trigger] rows@[i].days@[dd],
                    log_wf(entries@),
                    log_before(entries@, gnow),
                    instant_wf(gnow),
                    offset_wf(goff),
                    log_fits(entries@),
                decreases 7 - d,
            {
                proof {
                    lemma_day_bounds(ep as int);
                    lemma_day_bounds(sp as int);
                    lemma_day_bounds(gnow - goff);
                }
                let bstart = (today - d) * SECS_PER_DAY;
                let bend = (today - d + 1) * SECS_PER_DAY;
                let dur = min_i64(ep, bend) - max_i64(sp, bstart);
                proof {
                    assert(dur as int == weekly_span(e, gnow, goff, d as int));
                    lemma_weekly_span_bounds(e, gnow, goff, d as int);
                    assert forall|i: int, dd: int|
                        0 <= i < rows@.len() && 0 <= dd < 7 implies 0 <= #[trigger] rows@[i].days@[dd]
                        && rows@[i].days@[dd] + dur <= i64::MAX by {
                        lemma_week_total_of_present(rows@, i, dd);
                        let f = for_project(weekly_measure(gnow, goff, dd), rows@[i].project@);
                        assert forall|j: int| 0 <= j < pre.len() implies 0 <= #[trigger] f(pre[j])
                            <= SECS_PER_DAY as int by {
                            assert(pre[j] == entries@[j]);
                            lemma_weekly_span_bounds(entries@[j], gnow, goff, dd);
                        }
                        lemma_sum_entries_bounds(pre, f, SECS_PER_DAY as int);
                        lemma_weekly_span_bounds(e, gnow, goff, dd);
                        assert(k * (SECS_PER_DAY as int) + 3 * (SECS_PER_DAY as int)
                            <= entries@.len() * (MAX_INSTANT as int + SECS_PER_DAY as int))
                            by (nonlinear_arith)
                            requires
                                0 <= k < entries@.len(),
                                MAX_INSTANT == 4_000_000_000_000i64,
                                SECS_PER_DAY == 86400i64,
                        ;
                    }
                    assert forall|j: int| 0 <= j < pre.len() implies 0 <= #[trigger] weekly_measure(
                        gnow,
                        goff,
                        d as int,
                    )(pre[j]) <= SECS_PER_DAY as int by {
                        assert(pre[j] == entries@[j]);
                        lemma_weekly_span_bounds(entries@[j], gnow, goff, d as int);
                    }
                    lemma_sum_entries_bounds(
                        pre,
                        weekly_measure(gnow, goff, d as int),
                        SECS_PER_DAY as int,
                    );
                    assert(k * (SECS_PER_DAY as int) + 3 * (SECS_PER_DAY as int) <= entries@.len()
                        * (MAX_INSTANT as int + SECS_PER_DAY as int)) by (nonlinear_arith)
                        requires
                            0 <= k < entries@.len(),
                            MAX_INSTANT == 4_000_000_000_000i64,
                            SECS_PER_DAY == 86400i64,
                    ;
                }
                bump_week(&mut rows, &entries[k].project, dur, d as usize);
                day_totals[d as usize] = day_totals[d as usize] + dur;
                d = d + 1;
            }
        } else {
            proof {
                assert(lo > 6);
                assert forall|dd: int| 0 <= dd < 7 implies weekly_span(e, gnow, goff, dd) == 0 by {
                    assert(today as int - day_of(ep as int) > dd);
                }
                assert(!weekly_included(e, gnow, goff));
            }
        }
        proof {
            assert(entries@.take(k as int + 1) =~= pre.push(e));
            if lo <= hi {
                assert(weekly_included(e, gnow, goff));
            } else {
                assert(!weekly_included(e, gnow, goff));
            }
            assert forall|p: Seq<char>, dd: int|
                0 <= dd < 7 implies #[trigger] week_total_of(rows@, p, dd) == sum_entries(
                entries@.take(k as int + 1),
                for_project(weekly_measure(gnow, goff, dd), p),
            ) by {
                lemma_sum_entries_push(pre, for_project(weekly_measure(gnow, goff, dd), p), e);
                if !(lo <= dd && dd <= hi) {
                    assert(weekly_span(e, gnow, goff, dd) == 0);
                }
            }
            assert forall|dd: int|
                0 <= dd < 7 implies (#[trigger] day_totals@[dd]) as int == sum_entries(
                entries@.take(k as int + 1),
                weekly_measure(gnow, goff, dd),
            ) by {
                lemma_sum_entries_push(pre, weekly_measure(gnow, goff, dd), e);
                if !(lo <= dd && dd <= hi) {
                    assert(weekly_span(e, gnow, goff, dd) == 0);
                }
            }
            assert forall|p: Seq<char>| #[trigger] has_week(rows@, p) <==> log_has_weekly(
                entries@.take(k as int + 1),
                gnow,
                goff,
                p,
            ) by {
                let post = entries@.take(k as int + 1);
                if has_week(rows@, p) {
                    if log_has_weekly(pre, gnow, goff, p) {
                        let w = choose|w: int|
                            0 <= w < pre.len() && pre[w].project@ == p && weekly_included(
                                pre[w],
                                gnow,
                                goff,
                            );
                        assert(post[w].project@ == p && weekly_included(post[w], gnow, goff));
                    } else {
                        assert(p == e.project@ && weekly_included(e, gnow, goff));
                        assert(post[k as int].project@ == p);
                    }
                }
                if log_has_weekly(post, gnow, goff, p) {
                    let w = choose|w: int|
                        0 <= w < post.len() && post[w].project@ == p && weekly_included(
                            post[w],
                            gnow,
                            goff,
                        );
                    if w < k {
                        assert(pre[w].project@ == p && weekly_included(pre[w], gnow, goff));
                    } else {
                        assert(post[w] == e);
                    }
                }
            }
        }
        k = k + 1;
    }
    proof {
        assert(entries@.take(entries@.len() as int) =~= entries@);
        assert forall|i: int, d: int|
            0 <= i < rows@.len() && 0 <= d < 7 implies (#[trigger] rows@[i].days@[d]) as int
            == weekly_total(entries@, gnow, goff, rows@[i].project@, d) by {
            lemma_week_total_of_present(rows@, i, d);
        }
    }
    (rows, day_totals)
}

} // verus!
