use anytype_caldav::config::{CalendarConfig, RemindersConfig};
use anytype_caldav::ical::WireDate;
use anytype_caldav::locale::Language;
use anytype_caldav::model::{AnytypeDate, Task};
use anytype_caldav::render::{render, render_one, wire, wire_with_words};
use anytype_caldav::time::{Instant, Span, Zone};
use anytype_caldav::writeback::{for_update, parse, Origin};

fn config() -> CalendarConfig {
    CalendarConfig {
        timezone: Zone::parse("Europe/Saratov").unwrap(),
        name: "My tasks".into(),
        date_only_timezone: Zone::parse("Europe/Saratov").unwrap(),
        language: Language::En,
    }
}

fn reminders() -> RemindersConfig {
    RemindersConfig { enabled: true, lead_time: Span::new(1800, 0).unwrap(), all_day_time: 32400 }
}

fn now() -> Instant {
    Instant::new(1_788_000_000, 0).unwrap()
}

fn task(scheduled: Option<&str>, deadline: Option<&str>) -> Task {
    Task {
        object_id: "obj".into(),
        name: "Report; draft, v2".into(),
        scheduled: scheduled.and_then(AnytypeDate::parse),
        deadline: deadline.and_then(AnytypeDate::parse),
        done: false,
        reminder_leads: Vec::new(),
        tags: vec!["home".into(), "work".into()],
        assignees: Vec::new(),
        ical_uid: None,
        object_url: Some("https://object.any.coop/obj".into()),
        last_modified: None,
    }
}

/// The text without the folds of long lines.
fn unfolded(text: &str) -> String {
    text.replace("\r\n ", "")
}

fn text(task: &Task) -> String {
    unfolded(&render_one(task, &config(), &reminders(), now()))
}

#[test]
fn one_date_is_due() {
    let planned = wire(&task(Some("2026-08-30T06:00:00Z"), None), &config());
    assert!(planned.start.is_none());
    assert!(matches!(planned.due, Some((WireDate::Utc(_), Origin::Scheduled))));
    let due = wire(&task(None, Some("2026-08-30T00:00:00+04:00")), &config());
    assert!(matches!(due.due, Some((WireDate::Date(_), Origin::Deadline))));
    let none = wire(&task(None, None), &config());
    assert!(none.start.is_none() && none.due.is_none());
}

#[test]
fn a_plan_before_a_deadline_is_a_start() {
    let both = task(Some("2026-08-30T06:00:00Z"), Some("2026-08-30T08:00:00Z"));
    let (sent, described) = wire_with_words(&both, &config());
    assert!(!described);
    assert!(matches!(sent.start, Some((WireDate::Utc(_), Origin::Scheduled))));
    assert!(matches!(sent.due, Some((WireDate::Utc(_), Origin::Deadline))));
    let body = text(&both);
    assert!(body.contains("DTSTART:20260830T060000Z"), "{body}");
    assert!(body.contains("DUE:20260830T080000Z"), "{body}");

    let same = task(Some("2026-08-30T06:00:00Z"), Some("2026-08-30T06:00:00Z"));
    let (sent, _) = wire_with_words(&same, &config());
    assert!(sent.start.is_none());
    assert!(matches!(sent.due, Some((_, Origin::Both))));
}

#[test]
fn a_whole_day_beside_a_moment_is_its_last_second() {
    // Planned at 10:00 on the 30th, due on the 31st in Saratov.
    let mixed = task(Some("2026-08-30T06:00:00Z"), Some("2026-08-31T00:00:00+04:00"));
    let body = text(&mixed);
    assert!(body.contains("DTSTART:20260830T060000Z"), "{body}");
    assert!(body.contains("DUE:20260831T195959Z"), "{body}");
}

#[test]
fn a_deadline_that_cannot_be_shown_is_described() {
    let late = task(Some("2026-08-31T06:00:00Z"), Some("2026-08-30T06:00:00Z"));
    let (_, described) = wire_with_words(&late, &config());
    assert!(described);
    let body = text(&late);
    assert!(
        body.contains("DESCRIPTION:Deadline: 2026-08-30 10:00\\nhttps://object.any.coop/obj"),
        "{body}"
    );
}

#[test]
fn a_task_is_one_component() {
    let body = text(&task(Some("2026-08-30T06:00:00Z"), None));
    assert!(body.starts_with("BEGIN:VCALENDAR"));
    assert_eq!(body.matches("BEGIN:VTODO").count(), 1);
    assert!(body.contains("SUMMARY:Report\\; draft\\, v2"), "{body}");
    assert!(body.contains("STATUS:NEEDS-ACTION"), "{body}");
    assert!(body.contains("PERCENT-COMPLETE:0"), "{body}");
    assert!(body.contains("CATEGORIES:home"), "{body}");
    assert!(body.contains("CATEGORIES:work"), "{body}");
    assert!(body.contains("URL:https://object.any.coop/obj"), "{body}");
    assert!(body.contains("X-WR-CALNAME:My tasks"), "{body}");
    // Half an hour ahead.
    assert!(body.contains("TRIGGER;VALUE=DATE-TIME:20260830T053000Z"), "{body}");

    let mut done = task(Some("2026-08-30T06:00:00Z"), None);
    done.done = true;
    let body = text(&done);
    assert!(body.contains("STATUS:COMPLETED") && body.contains("PERCENT-COMPLETE:100"));
    assert!(!body.contains("BEGIN:VALARM"));
}

#[test]
fn a_feed_holds_every_task() {
    let first = task(Some("2026-08-30T06:00:00Z"), None);
    let mut second = task(None, None);
    second.object_id = "other".into();
    let body = unfolded(&render(&vec![&first, &second], &config(), &reminders(), now()));
    assert_eq!(body.matches("BEGIN:VTODO").count(), 2);
    assert!(body.contains(&format!("UID:{}", first.uid())));
    assert!(body.contains(&format!("UID:{}", second.uid())));
}

#[test]
fn a_task_comes_back_unchanged() {
    let dates = [
        (None, None),
        (Some("2026-08-30T06:00:00Z"), None),
        (None, Some("2026-08-30T00:00:00+04:00")),
        (Some("2026-08-30T06:00:00Z"), Some("2026-08-31T00:00:00+04:00")),
        (Some("2026-08-30T00:00:00+04:00"), Some("2026-08-31T06:00:00Z")),
        (Some("2026-08-31T06:00:00Z"), Some("2026-08-30T06:00:00Z")),
    ];
    for (scheduled, deadline) in dates {
        let task = task(scheduled, deadline);
        let incoming = parse(&render_one(&task, &config(), &reminders(), now())).unwrap();
        let patch = for_update(&task, &wire(&task, &config()), &incoming, &config());
        assert!(patch.is_empty(), "{scheduled:?} {deadline:?} {patch:?}");
    }
}

#[test]
fn the_same_task_is_always_the_same_text() {
    let one = || {
        let mut one = task(Some("2026-08-30T06:00:00Z"), Some("2026-08-31T06:00:00Z"));
        one.reminder_leads = vec![
            Span::new(7200, 0).unwrap(),
            Span::new(3600, 0).unwrap(),
            Span::new(7200, 0).unwrap(),
        ];
        one
    };
    let body = text(&one());
    assert_eq!(body, text(&one()));
    assert_eq!(body.matches("BEGIN:VALARM").count(), 2);
}

/// Texts that an iCalendar document folds or escapes.
fn awkward() -> Vec<String> {
    let mut all: Vec<String> = [
        "a, b; c: d",
        "back\\slash\\n and \\, too",
        "line\nfeed\n  indented\n\ttab",
        "carriage\rreturn",
        "both\r\n of them",
        "BEGIN:VTODO",
        "END:VEVENT",
        "SUMMARY:x\nEND:VCALENDAR",
        "\"quoted\"",
        "=;VALUE=DATE:",
    ]
    .iter()
    .map(|name| name.to_string())
    .collect();
    for n in 50..90 {
        all.push(format!("{} {}", "ж".repeat(n), "tail ".repeat(20).trim()));
        all.push(format!("{}\n{}", "x".repeat(n), " y".repeat(80)));
    }
    all
}

#[test]
fn an_awkward_task_comes_back_unchanged() {
    for name in awkward() {
        let mut task = task(Some("2026-08-30T06:00:00Z"), Some("2026-08-31T00:00:00+04:00"));
        task.name = name.clone();
        task.object_url = Some("https://object.any.coop/".to_string() + &"x,;".repeat(40));
        task.tags = vec!["a b".into(), "\\;".into(), "ё".repeat(90)];
        task.reminder_leads = vec![Span::new(3600, 0).unwrap()];
        let incoming = parse(&render_one(&task, &config(), &reminders(), now())).unwrap();
        assert_eq!(incoming.summary.as_ref(), Some(&name));
        assert_eq!(incoming.categories, task.tags);
        let patch = for_update(&task, &wire(&task, &config()), &incoming, &config());
        assert!(patch.is_empty(), "{name:?} {patch:?}");
    }
}

/// A name is trimmed when it is read, so white space around it does not come back.
#[test]
fn a_name_comes_back_trimmed() {
    let mut task = task(None, None);
    task.name = " spaced ".into();
    let incoming = parse(&render_one(&task, &config(), &reminders(), now())).unwrap();
    let patch = for_update(&task, &wire(&task, &config()), &incoming, &config());
    assert_eq!(patch.name, Some("spaced".to_string()));
}
