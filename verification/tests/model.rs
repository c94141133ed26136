use anytype_caldav::model::{AnytypeDate, CalendarValue, Task};
use anytype_caldav::time::Zone;

fn date(raw: &str) -> AnytypeDate {
    AnytypeDate::parse(raw).expect("parseable date")
}

fn saratov() -> Zone {
    Zone::parse("Europe/Saratov").expect("a zone")
}

fn utc() -> Zone {
    Zone::parse("UTC").expect("a zone")
}

#[test]
fn keeps_the_raw_text_and_the_original_offset() {
    let value = date("2026-08-29T14:30:00+04:00");
    assert_eq!(value.raw, "2026-08-29T14:30:00+04:00");
    assert_eq!(value.offset, 4 * 3600);
}

#[test]
fn rejects_unparseable_text() {
    assert!(AnytypeDate::parse("not a date").is_none());
    assert!(AnytypeDate::parse("").is_none());
    assert!(AnytypeDate::parse("2026-08-29").is_none());
}

#[test]
fn midnight_in_the_reference_zone_is_all_day() {
    let value = date("2026-08-29T00:00:00+04:00");
    match value.classify(&saratov()) {
        CalendarValue::AllDay(day) => assert_eq!(day.dashed(), "2026-08-29"),
        other => panic!("expected all-day, got {other:?}"),
    }
}

#[test]
fn a_time_of_day_becomes_a_utc_instant() {
    let value = date("2026-08-29T14:30:00+04:00");
    match value.classify(&saratov()) {
        // 14:30 in UTC+4 is 10:30 UTC.
        CalendarValue::Instant(instant) => {
            let at = chrono::DateTime::from_timestamp(instant.seconds(), instant.nanos()).unwrap();
            assert_eq!(at.to_rfc3339(), "2026-08-29T10:30:00+00:00");
        }
        other => panic!("expected an instant, got {other:?}"),
    }
}

/// One value, two reference zones, two answers: this is why the zone of whole days is
/// configurable.
#[test]
fn the_reference_zone_decides_whether_midnight_utc_is_all_day() {
    let value = date("2026-08-29T00:00:00Z");
    assert!(
        matches!(value.classify(&utc()), CalendarValue::AllDay(_)),
        "midnight UTC is all-day when the reference zone is UTC"
    );
    assert!(
        matches!(value.classify(&saratov()), CalendarValue::Instant(_)),
        "the same value is 04:00 in Saratov, so it is a timed value there"
    );
}

#[test]
fn classification_crosses_the_day_boundary_with_the_reference_zone() {
    let value = date("2026-08-28T20:00:00Z");
    match value.classify(&saratov()) {
        CalendarValue::AllDay(day) => assert_eq!(day.dashed(), "2026-08-29"),
        other => panic!("expected all-day, got {other:?}"),
    }
}

/// A date without a time is stored as midnight in the user's own zone, written as UTC.
#[test]
fn a_real_anytype_date_only_value_is_all_day_in_saratov() {
    let value = date("2026-09-13T20:00:00Z");
    match value.classify(&saratov()) {
        CalendarValue::AllDay(day) => assert_eq!(day.dashed(), "2026-09-14"),
        other => panic!("expected all-day, got {other:?}"),
    }
    assert!(
        matches!(value.classify(&utc()), CalendarValue::Instant(_)),
        "reading the same value as UTC would wrongly make it a 20:00 timed task"
    );
}

#[test]
fn uid_is_stable_across_name_and_date_changes() {
    let mut task = Task {
        object_id: "obj-1".into(),
        name: "Before".into(),
        scheduled: Some(date("2026-08-29T00:00:00+04:00")),
        deadline: None,
        done: false,
        reminder_leads: Vec::new(),
        tags: Vec::new(),
        assignees: Vec::new(),
        ical_uid: None,
        object_url: None,
        last_modified: None,
    };
    let before = task.uid();

    task.name = "After".into();
    task.scheduled = Some(date("2027-01-01T09:00:00+04:00"));
    task.done = true;

    assert_eq!(task.uid(), before);
    assert_eq!(before, "obj-1@anytype-task-exporter");
}

#[test]
fn a_uid_that_a_client_gave_is_kept() {
    let task = Task {
        object_id: "obj-1".into(),
        name: String::new(),
        scheduled: None,
        deadline: None,
        done: false,
        reminder_leads: Vec::new(),
        tags: Vec::new(),
        assignees: Vec::new(),
        ical_uid: Some("theirs".into()),
        object_url: None,
        last_modified: None,
    };
    assert_eq!(task.uid(), "theirs");
}
