use temps::entry::Entry;
use temps::render::render_day;
use temps::viz::day_slots;

const DAY: i64 = 86_400;
const HOUR: i64 = 3_600;
const MIN: i64 = 60;

fn entry(project: &str, start: i64, end: Option<i64>) -> Entry {
    Entry { project: project.to_string(), start, end }
}

#[test]
fn sub_quarter_hour_interval_is_invisible() {
    // 09:00 to 09:07 rounds to the same quarter-hour index on both ends,
    // so the interval shows no slot at all.
    let d: i64 = 1000;
    let t = d * DAY;
    let entries = vec![entry("A", t + 9 * HOUR, Some(t + 9 * HOUR + 7 * MIN))];
    let slots = day_slots(&entries, t + 23 * HOUR, d);
    assert_eq!(slots.len(), 0);
    let rows = render_day(&entries, t + 23 * HOUR, d);
    assert_eq!(rows.len(), 0);
}

#[test]
fn endpoints_round_to_nearest_quarter_hour() {
    // 09:07 rounds to index 36, 09:12 to index 37: one slot survives.
    let d: i64 = 1000;
    let t = d * DAY;
    let entries = vec![entry("A", t + 9 * HOUR + 7 * MIN, Some(t + 9 * HOUR + 12 * MIN))];
    let slots = day_slots(&entries, t + 23 * HOUR, d);
    // Lead-in starts at (36 / 8) * 8 - 2 = 30.
    assert_eq!(slots.len(), 7);
    assert_eq!(slots[0].index, 30);
    for j in 0..6 {
        assert_eq!(slots[j].entry, None);
    }
    assert_eq!(slots[6].index, 36);
    assert_eq!(slots[6].entry, Some(0));
}

#[test]
fn back_to_back_projects_share_a_full_block_row() {
    // Two back-to-back quarter-hour entries in one half-hour unit give a
    // full block labelled with both names.
    let d: i64 = 1000;
    let t = d * DAY;
    let entries = vec![
        entry("A", t + 9 * HOUR, Some(t + 9 * HOUR + 15 * MIN)),
        entry("B", t + 9 * HOUR + 15 * MIN, Some(t + 9 * HOUR + 30 * MIN)),
    ];
    let rows = render_day(&entries, t + 23 * HOUR, d);
    assert_eq!(
        rows,
        vec![
            "▁▁▁▁▁▁".to_string(),
            "08:00 ".to_string(),
            "      ".to_string(),
            "      ████████ A / B".to_string(),
        ]
    );
}

#[test]
fn lower_half_block_and_closing_extension() {
    // 09:15 to 10:00: a lower half block row, a full block row with the
    // label suppressed, and a trailing blank slot that closes the grid at
    // the next two-hour mark.
    let d: i64 = 1000;
    let t = d * DAY;
    let entries = vec![entry("A", t + 9 * HOUR + 15 * MIN, Some(t + 10 * HOUR))];
    let rows = render_day(&entries, t + 23 * HOUR, d);
    assert_eq!(
        rows,
        vec![
            "▁▁▁▁▁▁".to_string(),
            "08:00 ".to_string(),
            "      ".to_string(),
            "      ▄▄▄▄▄▄▄▄ A".to_string(),
            "▁▁▁▁▁▁████████".to_string(),
            "10:00 ".to_string(),
        ]
    );
}

#[test]
fn upper_half_block_after_the_same_project() {
    // 09:45 to 10:15: the upper half block row repeats no label, since
    // the previous row already names the project.
    let d: i64 = 1000;
    let t = d * DAY;
    let entries = vec![entry("A", t + 9 * HOUR + 45 * MIN, Some(t + 10 * HOUR + 15 * MIN))];
    let rows = render_day(&entries, t + 23 * HOUR, d);
    assert_eq!(
        rows,
        vec![
            "▁▁▁▁▁▁".to_string(),
            "08:00 ".to_string(),
            "      ".to_string(),
            "      ".to_string(),
            "▁▁▁▁▁▁▄▄▄▄▄▄▄▄ A".to_string(),
            "10:00 ▀▀▀▀▀▀▀▀".to_string(),
        ]
    );
}

#[test]
fn rendering_is_repeatable_and_clock_free_once_closed() {
    let d: i64 = 1000;
    let t = d * DAY;
    let entries = vec![entry("A", t + 9 * HOUR, Some(t + 10 * HOUR))];
    let first = render_day(&entries, t + 12 * HOUR, d);
    let second = render_day(&entries, t + 12 * HOUR, d);
    assert_eq!(first, second);
    let other_clock = render_day(&entries, t + 20 * HOUR, d);
    assert_eq!(first, other_clock);
}

#[test]
fn interval_outside_the_day_adds_nothing() {
    let d: i64 = 1000;
    let t = d * DAY;
    let inside = entry("A", t + 9 * HOUR, Some(t + 10 * HOUR));
    let outside = entry("old", t - DAY + 9 * HOUR, Some(t - DAY + 10 * HOUR));
    let with_outside = vec![outside, entry("A", t + 9 * HOUR, Some(t + 10 * HOUR))];
    let only_inside = vec![inside];
    let now = t + 23 * HOUR;
    assert_eq!(render_day(&with_outside, now, d), render_day(&only_inside, now, d));
}

#[test]
fn entry_running_past_midnight_is_clipped_and_closes_the_grid() {
    // 23:00 to 01:00 the next day: clipped at the day's end, the timeline
    // runs to the final quarter hour and closes with the midnight label.
    let d: i64 = 1000;
    let t = d * DAY;
    let entries = vec![entry("A", t + 23 * HOUR, Some(t + DAY + 1 * HOUR))];
    let rows = render_day(&entries, t + DAY + 2 * HOUR, d);
    assert_eq!(
        rows,
        vec![
            "▁▁▁▁▁▁".to_string(),
            "22:00 ".to_string(),
            "      ".to_string(),
            "      ████████ A".to_string(),
            "▁▁▁▁▁▁████████".to_string(),
            "00:00 ".to_string(),
        ]
    );
}

#[test]
fn ongoing_entry_is_drawn_up_to_now() {
    let d: i64 = 1000;
    let t = d * DAY;
    let entries = vec![entry("A", t + 9 * HOUR, None)];
    let now = t + 10 * HOUR;
    let slots = day_slots(&entries, now, d);
    // 09:00 is index 36, "now" 10:00 index 40; lead-in from 30, and the
    // grid closes with one blank slot at the two-hour mark.
    assert_eq!(slots.len(), 11);
    assert_eq!(slots[0].index, 30);
    assert_eq!(slots[10].index, 40);
    assert_eq!(slots[10].entry, None);
    for j in 6..10 {
        assert_eq!(slots[j].entry, Some(0));
    }
}
