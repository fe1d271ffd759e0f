use temps::entry::Entry;
use temps::summary::{ongoing, summary_daily, summary_full, summary_weekly};

const DAY: i64 = 86_400;
const HOUR: i64 = 3_600;

fn entry(project: &str, start: i64, end: Option<i64>) -> Entry {
    Entry { project: project.to_string(), start, end }
}

#[test]
fn full_single_closed_interval() {
    let t = 1000 * DAY;
    let entries = vec![entry("A", t + 8 * HOUR, Some(t + 10 * HOUR))];
    let rows = summary_full(&entries, t + 23 * HOUR);
    assert_eq!(rows.len(), 1);
    assert_eq!(rows[0].project, "A");
    assert_eq!(rows[0].secs, 2 * HOUR);
}

#[test]
fn full_single_open_interval() {
    let t = 1000 * DAY;
    let now = t + 23 * HOUR;
    let entries = vec![entry("A", t + 8 * HOUR, None)];
    let rows = summary_full(&entries, now);
    assert_eq!(rows.len(), 1);
    assert_eq!(rows[0].secs, now - (t + 8 * HOUR));
}

#[test]
fn full_accumulates_and_sorts_projects() {
    let t = 1000 * DAY;
    let entries = vec![
        entry("b", t + 1 * HOUR, Some(t + 2 * HOUR)),
        entry("a", t + 3 * HOUR, Some(t + 4 * HOUR)),
        entry("b", t + 5 * HOUR, Some(t + 7 * HOUR)),
    ];
    let rows = summary_full(&entries, t + 8 * HOUR);
    assert_eq!(rows.len(), 2);
    assert_eq!(rows[0].project, "a");
    assert_eq!(rows[0].secs, HOUR);
    assert_eq!(rows[1].project, "b");
    assert_eq!(rows[1].secs, 3 * HOUR);
}

#[test]
fn full_empty_log() {
    let entries: Vec<Entry> = vec![];
    assert_eq!(summary_full(&entries, 1000 * DAY).len(), 0);
    assert!(ongoing(&entries, 1000 * DAY).is_none());
}

#[test]
fn daily_excludes_interval_ending_on_another_day() {
    let t = 1000 * DAY;
    let entries = vec![entry("A", t - DAY + 8 * HOUR, Some(t - DAY + 10 * HOUR))];
    let (rows, total) = summary_daily(&entries, t + 23 * HOUR, 0);
    assert_eq!(rows.len(), 0);
    assert_eq!(total, 0);
}

#[test]
fn daily_clips_at_day_start() {
    // Offset 0, "now" late on day T; an interval from T-1 08:00 to T 10:00
    // shows 10 hours today, clipped at T's midnight.
    let t = 1000 * DAY;
    let now = t + 23 * HOUR;
    let entries = vec![entry("A", t - DAY + 8 * HOUR, Some(t + 10 * HOUR))];
    let (rows, total) = summary_daily(&entries, now, 0);
    assert_eq!(rows.len(), 1);
    assert_eq!(rows[0].project, "A");
    assert_eq!(rows[0].secs, 10 * HOUR);
    assert_eq!(total, 10 * HOUR);
}

#[test]
fn daily_counts_ongoing_up_to_now() {
    let t = 1000 * DAY;
    let now = t + 23 * HOUR;
    let entries = vec![entry("A", t + 20 * HOUR, None)];
    let (rows, total) = summary_daily(&entries, now, 0);
    assert_eq!(rows.len(), 1);
    assert_eq!(rows[0].secs, 3 * HOUR);
    assert_eq!(total, 3 * HOUR);
}

#[test]
fn daily_honours_boundary_offset() {
    // With a three-hour offset, work ending at 01:00 still belongs to the
    // previous calendar day's report.
    let t = 1000 * DAY;
    let now = t + DAY + 2 * HOUR;
    let entries = vec![entry("A", t + 20 * HOUR, Some(t + DAY + 1 * HOUR))];
    let (rows, total) = summary_daily(&entries, now, 3 * HOUR);
    assert_eq!(rows.len(), 1);
    assert_eq!(rows[0].secs, 5 * HOUR);
    assert_eq!(total, 5 * HOUR);
}

#[test]
fn daily_total_is_sum_of_rows() {
    let t = 1000 * DAY;
    let now = t + 23 * HOUR;
    let entries = vec![
        entry("a", t + 1 * HOUR, Some(t + 2 * HOUR)),
        entry("b", t + 3 * HOUR, Some(t + 5 * HOUR)),
    ];
    let (rows, total) = summary_daily(&entries, now, 0);
    let sum: i64 = rows.iter().map(|r| r.secs).sum();
    assert_eq!(total, sum);
    assert_eq!(total, 3 * HOUR);
}

#[test]
fn weekly_splits_interval_across_days() {
    // The P5 shape: interval from T-1 08:00 to T 10:00, "now" T 23:00.
    // Day index 1 (yesterday) holds 16 h, day index 0 (today) 10 h, and
    // together they equal the interval's whole duration.
    let t = 1000 * DAY;
    let now = t + 23 * HOUR;
    let start = t - DAY + 8 * HOUR;
    let end = t + 10 * HOUR;
    let entries = vec![entry("A", start, Some(end))];
    let (rows, day_totals) = summary_weekly(&entries, now, 0);
    assert_eq!(rows.len(), 1);
    assert_eq!(rows[0].project, "A");
    assert_eq!(rows[0].days[0], 10 * HOUR);
    assert_eq!(rows[0].days[1], 16 * HOUR);
    for d in 2..7 {
        assert_eq!(rows[0].days[d], 0);
    }
    let sum: i64 = rows[0].days.iter().sum();
    assert_eq!(sum, end - start);
    assert_eq!(day_totals, rows[0].days);
}

#[test]
fn weekly_grand_totals_sum_the_columns() {
    let t = 1000 * DAY;
    let now = t + 23 * HOUR;
    let entries = vec![
        entry("a", t - DAY + 9 * HOUR, Some(t - DAY + 11 * HOUR)),
        entry("b", t - DAY + 12 * HOUR, Some(t - DAY + 13 * HOUR)),
        entry("a", t + 6 * HOUR, Some(t + 7 * HOUR)),
    ];
    let (rows, day_totals) = summary_weekly(&entries, now, 0);
    assert_eq!(rows.len(), 2);
    for d in 0..7 {
        let col: i64 = rows.iter().map(|r| r.days[d]).sum();
        assert_eq!(day_totals[d], col);
    }
    assert_eq!(day_totals[0], 1 * HOUR);
    assert_eq!(day_totals[1], 3 * HOUR);
}

#[test]
fn weekly_drops_entries_older_than_a_week() {
    let t = 1000 * DAY;
    let now = t + 23 * HOUR;
    let entries = vec![entry("old", t - 10 * DAY, Some(t - 10 * DAY + HOUR))];
    let (rows, day_totals) = summary_weekly(&entries, now, 0);
    assert_eq!(rows.len(), 0);
    assert_eq!(day_totals, [0; 7]);
}

#[test]
fn weekly_clips_start_of_window() {
    // An interval spanning the whole week window and more: only the seven
    // day windows ending today are counted.
    let t = 1000 * DAY;
    let now = t + 12 * HOUR;
    let entries = vec![entry("A", t - 9 * DAY, Some(t + 10 * HOUR))];
    let (rows, _) = summary_weekly(&entries, now, 0);
    assert_eq!(rows.len(), 1);
    assert_eq!(rows[0].days[0], 10 * HOUR);
    for d in 1..7 {
        assert_eq!(rows[0].days[d], DAY);
    }
}

#[test]
fn ongoing_reports_last_open_entry() {
    let t = 1000 * DAY;
    let now = t + 23 * HOUR;
    let entries = vec![
        entry("a", t + 1 * HOUR, Some(t + 2 * HOUR)),
        entry("b", t + 20 * HOUR, None),
    ];
    let r = ongoing(&entries, now);
    assert_eq!(r, Some(("b".to_string(), 3 * HOUR)));
}

#[test]
fn ongoing_none_when_last_is_closed() {
    let t = 1000 * DAY;
    let entries = vec![entry("a", t + 1 * HOUR, Some(t + 2 * HOUR))];
    assert!(ongoing(&entries, t + 3 * HOUR).is_none());
}

#[test]
fn weekly_honours_boundary_offset() {
    // With a three-hour offset, work ending at 01:00 lands in the bucket
    // of the previous logical day.
    let t = 1000 * DAY;
    let now = t + DAY + 2 * HOUR;
    let entries = vec![entry("A", t + 20 * HOUR, Some(t + DAY + 1 * HOUR))];
    let (rows, day_totals) = summary_weekly(&entries, now, 3 * HOUR);
    assert_eq!(rows.len(), 1);
    assert_eq!(rows[0].days[0], 5 * HOUR);
    for d in 1..7 {
        assert_eq!(rows[0].days[d], 0);
    }
    assert_eq!(day_totals[0], 5 * HOUR);
}

#[test]
fn daily_rows_are_sorted_by_project() {
    let t = 1000 * DAY;
    let now = t + 23 * HOUR;
    let entries = vec![
        entry("zeta", t + 1 * HOUR, Some(t + 2 * HOUR)),
        entry("alpha", t + 3 * HOUR, Some(t + 4 * HOUR)),
    ];
    let (rows, _) = summary_daily(&entries, now, 0);
    assert_eq!(rows.len(), 2);
    assert_eq!(rows[0].project, "alpha");
    assert_eq!(rows[1].project, "zeta");
}
