use anytype_caldav::config::{CalendarConfig, RemindersConfig};
use anytype_caldav::locale::Language;
use anytype_caldav::model::{AnytypeDate, Task};
use anytype_caldav::render;
use anytype_caldav::time::{Instant, Span, Zone};
use anytype_caldav::writeback::{
    for_create, for_update, parse, tags_patch, Incoming, Origin, Patch, WriteError,
};
use chrono::{TimeZone, Utc};

fn config() -> CalendarConfig {
    CalendarConfig {
        timezone: Zone::parse("Europe/Saratov").unwrap(),
        name: "t".into(),
        date_only_timezone: Zone::parse("Europe/Saratov").unwrap(),
        language: Language::En,
    }
}

fn reminders() -> RemindersConfig {
    RemindersConfig {
        enabled: false,
        lead_time: Span::new(30 * 60, 0).unwrap(),
        all_day_time: 9 * 3600,
    }
}

fn fallback() -> Instant {
    let at = Utc.with_ymd_and_hms(2026, 1, 1, 0, 0, 0).unwrap();
    Instant::new(at.timestamp(), 0).unwrap()
}

fn render_one(task: &Task) -> String {
    render::render_one(task, &config(), &reminders(), fallback())
}

fn task(scheduled: Option<&str>, deadline: Option<&str>) -> Task {
    Task {
        object_id: "obj".into(),
        name: "Pay rent".into(),
        scheduled: scheduled.and_then(AnytypeDate::parse),
        deadline: deadline.and_then(AnytypeDate::parse),
        done: false,
        reminder_leads: vec![],
        tags: vec![],
        assignees: vec![],
        ical_uid: None,
        object_url: None,
        last_modified: None,
    }
}

/// What a client sends back: the rendered resource, edited as text.
fn round_trip(task: &Task, edit: impl Fn(String) -> String) -> Incoming {
    parse(&edit(render_one(task))).unwrap()
}

fn update(task: &Task, edit: impl Fn(String) -> String) -> Patch {
    let incoming = round_trip(task, edit);
    for_update(task, &render::wire(task, &config()), &incoming, &config())
}

// 13 Sep date-only is stored as 12 Sep 20:00Z.
const SEP13: &str = "2026-09-12T20:00:00Z";

#[test]
fn an_unchanged_resource_changes_nothing() {
    for t in [
        task(Some(SEP13), None),
        task(None, Some(SEP13)),
        task(Some("2026-09-13T08:00:00Z"), Some("2026-09-14T20:00:00Z")),
        task(Some("2026-09-20T08:00:00Z"), Some(SEP13)), // planned after deadline
        task(Some(SEP13), Some(SEP13)),                  // collapsed all-day pair
        task(Some("2026-09-13T08:00:00Z"), Some(SEP13)), // same-day described
        task(None, None),
    ] {
        assert!(update(&t, |s| s).is_empty(), "{t:?}");
    }
}

/// A client writes all three completion properties.
#[test]
fn ticking_a_task_marks_it_done_and_nothing_else() {
    let t = task(Some(SEP13), None);
    let patch = update(&t, |s| {
        s.replace("STATUS:NEEDS-ACTION", "STATUS:COMPLETED")
            .replace("PERCENT-COMPLETE:0", "PERCENT-COMPLETE:100")
    });
    assert_eq!(patch, Patch { done: Some(true), ..Patch::default() });
}

#[test]
fn unticking_reopens() {
    let mut t = task(Some(SEP13), None);
    t.done = true;
    let patch = update(&t, |s| {
        s.replace("STATUS:COMPLETED", "STATUS:NEEDS-ACTION").replace("PERCENT-COMPLETE:100", "")
    });
    assert_eq!(patch.done, Some(false));
}

#[test]
fn dragging_a_planned_all_day_task_moves_the_plan() {
    let t = task(Some(SEP13), None);
    let patch = update(&t, |s| s.replace("DUE;VALUE=DATE:20260913", "DUE;VALUE=DATE:20260915"));
    assert_eq!(
        patch,
        Patch { scheduled: Some(Some("2026-09-14T20:00:00Z".into())), ..Patch::default() }
    );
}

#[test]
fn dragging_a_deadline_only_task_moves_the_deadline() {
    let t = task(None, Some(SEP13));
    let patch = update(&t, |s| s.replace("DUE;VALUE=DATE:20260913", "DUE;VALUE=DATE:20260915"));
    assert_eq!(patch.deadline, Some(Some("2026-09-14T20:00:00Z".into())));
    assert_eq!(patch.scheduled, None);
}

#[test]
fn a_collapsed_pair_moves_together() {
    let t = task(Some(SEP13), Some(SEP13));
    let patch = update(&t, |s| s.replace("DUE;VALUE=DATE:20260913", "DUE;VALUE=DATE:20260915"));
    assert_eq!(patch.scheduled, Some(Some("2026-09-14T20:00:00Z".into())));
    assert_eq!(patch.deadline, Some(Some("2026-09-14T20:00:00Z".into())));
}

/// The deadline lives in DESCRIPTION; moving the card moves the plan only.
#[test]
fn a_described_deadline_is_never_touched() {
    let t = task(Some("2026-09-20T08:00:00Z"), Some(SEP13));
    let patch = update(&t, |s| s.replace("DUE:20260920T080000Z", "DUE:20260921T080000Z"));
    assert_eq!(patch.scheduled, Some(Some("2026-09-21T08:00:00Z".into())));
    assert_eq!(patch.deadline, None);
}

#[test]
fn a_timed_plan_and_deadline_move_independently() {
    // 15:00Z is 19:00 in Saratov: a real time, not a date-only midnight.
    let t = task(Some("2026-09-13T08:00:00Z"), Some("2026-09-14T15:00:00Z"));
    let patch = update(&t, |s| s.replace("DUE:20260914T150000Z", "DUE:20260915T150000Z"));
    assert_eq!(patch.deadline, Some(Some("2026-09-15T15:00:00Z".into())));
    assert_eq!(patch.scheduled, None);
}

/// A whole-day deadline is written as 23:59:59 beside a timed plan; a client moving it
/// by a day must not turn it into an instant.
#[test]
fn a_whole_day_deadline_stays_whole_through_its_instant_form() {
    let t = task(Some("2026-09-13T08:00:00Z"), Some("2026-09-13T20:00:00Z")); // deadline 14 Sep
    let wire = render_one(&t);
    assert!(wire.contains("DUE:20260914T195959Z"), "{wire}");
    let patch = update(&t, |s| s.replace("DUE:20260914T195959Z", "DUE:20260915T195959Z"));
    assert_eq!(patch.deadline, Some(Some("2026-09-14T20:00:00Z".into())));
}

#[test]
fn removing_the_date_clears_where_it_came_from() {
    let t = task(None, Some(SEP13));
    let patch = update(&t, |s| s.replace("DUE;VALUE=DATE:20260913\r\n", ""));
    assert_eq!(patch.deadline, Some(None));
}

#[test]
fn renaming_changes_the_name() {
    let t = task(None, None);
    let patch = update(&t, |s| s.replace("SUMMARY:Pay rent", "SUMMARY:Pay rent and water"));
    assert_eq!(patch.name.as_deref(), Some("Pay rent and water"));
}

#[test]
fn a_new_dated_task_is_a_plan() {
    let body = "BEGIN:VCALENDAR\r\nVERSION:2.0\r\nBEGIN:VTODO\r\nUID:abc-123\r\nSUMMARY:Buy milk\r\nDUE;VALUE=DATE:20260920\r\nSTATUS:NEEDS-ACTION\r\nEND:VTODO\r\nEND:VCALENDAR\r\n";
    let incoming = parse(body).unwrap();
    assert_eq!(incoming.uid.as_deref(), Some("abc-123"));
    let patch = for_create(&incoming, &config());
    assert_eq!(patch.name.as_deref(), Some("Buy milk"));
    assert_eq!(patch.done, Some(false));
    assert_eq!(patch.scheduled, Some(Some("2026-09-19T20:00:00Z".into())));
    assert_eq!(patch.deadline, None);
}

#[test]
fn a_new_task_with_start_and_due_is_a_plan_with_a_deadline() {
    let body = "BEGIN:VCALENDAR\r\nBEGIN:VTODO\r\nUID:x\r\nSUMMARY:Essay\r\nDTSTART:20260920T080000Z\r\nDUE:20260925T200000Z\r\nEND:VTODO\r\nEND:VCALENDAR\r\n";
    let patch = for_create(&parse(body).unwrap(), &config());
    assert_eq!(patch.scheduled, Some(Some("2026-09-20T08:00:00Z".into())));
    assert_eq!(patch.deadline, Some(Some("2026-09-25T20:00:00Z".into())));
}

#[test]
fn a_zoned_date_time_is_read_in_its_zone() {
    let body = "BEGIN:VCALENDAR\r\nBEGIN:VTODO\r\nUID:x\r\nDUE;TZID=Europe/Moscow:20260920T120000\r\nEND:VTODO\r\nEND:VCALENDAR\r\n";
    let patch = for_create(&parse(body).unwrap(), &config());
    assert_eq!(patch.scheduled, Some(Some("2026-09-20T09:00:00Z".into())));
}

#[test]
fn events_and_overrides_are_refused() {
    let event = "BEGIN:VCALENDAR\r\nBEGIN:VEVENT\r\nUID:e\r\nEND:VEVENT\r\nEND:VCALENDAR\r\n";
    assert_eq!(parse(event), Err(WriteError::NoTodo));
    let two = "BEGIN:VCALENDAR\r\nBEGIN:VTODO\r\nUID:a\r\nEND:VTODO\r\nBEGIN:VTODO\r\nUID:a\r\nRECURRENCE-ID:20260920T080000Z\r\nEND:VTODO\r\nEND:VCALENDAR\r\n";
    assert_eq!(parse(two), Err(WriteError::Overrides(2)));
}

#[test]
fn a_body_that_is_no_calendar_is_refused() {
    match parse("not a calendar") {
        Err(err) => {
            assert!(matches!(err, WriteError::NotCalendar(_)), "{err:?}");
            assert!(err.message().starts_with("body is not an iCalendar document: "));
        }
        Ok(incoming) => panic!("{incoming:?}"),
    }
    assert_eq!(
        WriteError::NoTodo.message(),
        "body carries no VTODO; only tasks can be written"
    );
    assert_eq!(
        WriteError::Overrides(3).message(),
        "body carries 3 VTODOs; recurrence overrides are not supported yet"
    );
}

#[test]
fn tags_in_another_order_are_the_same_tags() {
    let list = |names: &[&str]| names.iter().map(|n| n.to_string()).collect::<Vec<_>>();
    assert_eq!(tags_patch(&list(&["a", "b"]), &list(&["b", "a"])), None);
    assert_eq!(tags_patch(&list(&["a"]), &list(&["a", "a"])), Some(list(&["a", "a"])));
    assert_eq!(tags_patch(&list(&["a"]), &list(&[])), Some(list(&[])));
}

/// Where each pair of dates goes on the wire.
#[test]
fn dates_are_sent_where_they_belong() {
    let sent = |scheduled, deadline| {
        let wire = render::wire(&task(scheduled, deadline), &config());
        (wire.start.map(|(_, origin)| origin), wire.due.map(|(_, origin)| origin))
    };
    assert_eq!(sent(None, None), (None, None));
    assert_eq!(sent(Some(SEP13), None), (None, Some(Origin::Scheduled)));
    assert_eq!(sent(None, Some(SEP13)), (None, Some(Origin::Deadline)));
    assert_eq!(sent(Some(SEP13), Some(SEP13)), (None, Some(Origin::Both)));
    assert_eq!(
        sent(Some(SEP13), Some("2026-09-13T20:00:00Z")),
        (Some(Origin::Scheduled), Some(Origin::Deadline))
    );
    // The deadline is not behind the plan.
    assert_eq!(sent(Some("2026-09-13T20:00:00Z"), Some(SEP13)), (None, Some(Origin::Scheduled)));
    // A whole day and a moment.
    assert_eq!(
        sent(Some(SEP13), Some("2026-09-13T08:00:00Z")),
        (Some(Origin::Scheduled), Some(Origin::Deadline))
    );
}

#[test]
fn a_task_is_written_with_its_alarms_tags_and_words() {
    let mut t = task(Some("2026-09-20T08:00:00Z"), Some(SEP13));
    t.tags = vec!["home".into(), "money".into()];
    t.object_url = Some("https://object.any.coop/obj".into());
    let mut on = reminders();
    on.enabled = true;
    let text = render::render_one(&t, &config(), &on, fallback());
    assert!(text.contains("BEGIN:VTODO"), "{text}");
    assert!(text.contains("UID:obj@anytype-task-exporter"), "{text}");
    assert!(text.contains("DUE:20260920T080000Z"), "{text}");
    assert!(text.contains("CATEGORIES:home"), "{text}");
    assert!(text.contains("CATEGORIES:money"), "{text}");
    assert!(text.contains("Deadline: 2026-09-13"), "{text}");
    assert!(text.contains("URL:https://object.any.coop/obj"), "{text}");
    // The deadline is a whole day, announced at nine in the morning of Saratov.
    assert!(text.contains("TRIGGER;VALUE=DATE-TIME:20260913T050000Z"), "{text}");
    let incoming = parse(&text).unwrap();
    assert_eq!(incoming.categories, vec!["home".to_string(), "money".to_string()]);
}

/// The same task is written the same way every time.
#[test]
fn a_task_is_written_the_same_way_again() {
    let t = task(Some(SEP13), None);
    assert_eq!(render_one(&t), render_one(&t));
}
