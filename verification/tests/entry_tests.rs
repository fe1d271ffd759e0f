use temps::entry::{Entry, InvalidEntry};
use temps::text::duration_to_string;

const HOUR: i64 = 3_600;

#[test]
fn start_from_accepts_a_past_instant() {
    let e = Entry::start_from("work".to_string(), 100, 200).unwrap();
    assert_eq!(e.project, "work");
    assert_eq!(e.start, 100);
    assert_eq!(e.end, None);
    assert!(e.is_ongoing());
}

#[test]
fn start_uses_the_clock() {
    let e = Entry::start("work".to_string(), 500).unwrap();
    assert_eq!(e.start, 500);
    assert!(e.is_ongoing());
}

#[test]
fn start_rejects_empty_project() {
    assert_eq!(
        Entry::start_from(String::new(), 100, 200),
        Err(InvalidEntry::EmptyProject)
    );
}

#[test]
fn start_rejects_future_instant() {
    assert_eq!(
        Entry::start_from("work".to_string(), 300, 200),
        Err(InvalidEntry::StartInFuture)
    );
}

#[test]
fn start_rejects_negative_instant() {
    assert_eq!(
        Entry::start_from("work".to_string(), -5, 200),
        Err(InvalidEntry::StartBeforeEpoch)
    );
}

#[test]
fn stop_at_closes_the_entry() {
    let mut e = Entry::start_from("work".to_string(), 100, 200).unwrap();
    assert_eq!(e.stop_at(150, 200), Ok(()));
    assert_eq!(e.end, Some(150));
    assert!(!e.is_ongoing());
}

#[test]
fn stop_at_rejects_future_end() {
    let mut e = Entry::start_from("work".to_string(), 100, 200).unwrap();
    assert_eq!(e.stop_at(250, 200), Err(InvalidEntry::EndInFuture));
    assert_eq!(e.end, None);
}

#[test]
fn stop_at_rejects_end_before_start() {
    let mut e = Entry::start_from("work".to_string(), 100, 200).unwrap();
    assert_eq!(e.stop_at(50, 200), Err(InvalidEntry::EndBeforeStart));
    assert_eq!(e.end, None);
}

#[test]
fn stop_closes_at_the_clock() {
    let mut e = Entry::start_from("work".to_string(), 100, 200).unwrap();
    assert_eq!(e.stop(220), Ok(()));
    assert_eq!(e.end, Some(220));
}

#[test]
fn durations_render_as_minutes_and_hours() {
    assert_eq!(duration_to_string(16 * 60), "16m");
    assert_eq!(duration_to_string(64 * 60), "1h 04m");
    assert_eq!(duration_to_string(4000 * 60), "66h 40m");
    assert_eq!(duration_to_string(0), "0m");
    assert_eq!(duration_to_string(59), "0m");
    assert_eq!(duration_to_string(HOUR), "1h 00m");
}
