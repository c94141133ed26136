use anytype_caldav::config::CalendarConfig;
use anytype_caldav::event_changes::{
    event_patch_for_create, event_patch_for_update, lead_name, parse_before, parse_event,
    parse_series, plan_series_create, plan_series_update, same_rule, EventPatch, EventWriteError,
    SeriesPlan,
};
use anytype_caldav::events::{
    deadline_entry, occurrences_between, render_event, render_series, replaces_an_occurrence,
    sequence_for, snapshot_of, start_instant, Event, EventCache,
};
use anytype_caldav::locale::Language;
use anytype_caldav::model::AnytypeDate;
use anytype_caldav::time::{parse_span, Instant, Span, Zone};
use chrono::{TimeZone, Utc};

fn zone(name: &str) -> Zone {
    Zone::parse(name).expect("a zone")
}

fn config() -> CalendarConfig {
    CalendarConfig {
        timezone: zone("Europe/Saratov"),
        name: "t".into(),
        date_only_timezone: zone("Europe/Saratov"),
        language: Language::En,
    }
}

fn at(year: i32, month: u32, day: u32, hour: u32) -> Instant {
    let at = Utc.with_ymd_and_hms(year, month, day, hour, 0, 0).unwrap();
    Instant::new(at.timestamp(), 0).unwrap()
}

fn event(start: Option<&str>, end: Option<&str>) -> Event {
    Event {
        object_id: "ev1".into(),
        name: "Лекция".into(),
        start: start.and_then(AnytypeDate::parse),
        end: end.and_then(AnytypeDate::parse),
        location: Some("ул. Вольская 10а".into()),
        tags: vec!["Аспирантура".into()],
        reminder_names: vec!["15m".into(), "1d".into()],
        ical_uid: None,
        object_url: None,
        last_modified: Some(at(2026, 9, 15, 12)),
        rrule: None,
        exdates: Vec::new(),
        series: None,
        occurrence: None,
        deadline: None,
    }
}

fn fallback() -> Instant {
    at(2026, 1, 1, 0)
}

fn round_trip(ev: &Event, edit: impl Fn(String) -> String) -> EventPatch {
    let ics = render_event(ev, &config(), fallback()).unwrap();
    event_patch_for_update(ev, &parse_event(&edit(ics)).unwrap(), &config())
}

fn some(text: &str) -> Option<String> {
    Some(text.to_string())
}

fn minutes(n: u64) -> Span {
    Span::new(n * 60, 0).unwrap()
}

#[test]
fn a_timed_event_renders_start_location_categories_and_relative_alarms() {
    let ics =
        render_event(&event(Some("2026-09-20T09:50:00Z"), None), &config(), fallback()).unwrap();
    assert!(ics.contains("BEGIN:VEVENT"), "{ics}");
    assert!(ics.contains("DTSTART:20260920T095000Z"), "{ics}");
    assert!(!ics.contains("DTEND"), "{ics}");
    assert!(ics.contains("LOCATION:ул. Вольская 10а"), "{ics}");
    assert!(ics.contains("CATEGORIES:Аспирантура"), "{ics}");
    assert!(ics.contains("TRIGGER:-PT15M"), "{ics}");
    assert!(ics.contains("TRIGGER:-PT1440M"), "{ics}");
    assert_eq!(
        ics,
        render_event(&event(Some("2026-09-20T09:50:00Z"), None), &config(), fallback()).unwrap()
    );
}

#[test]
fn an_all_day_event_gets_an_exclusive_end() {
    let ics = render_event(
        &event(Some("2026-09-19T20:00:00Z"), Some("2026-09-20T20:00:00Z")),
        &config(),
        fallback(),
    )
    .unwrap();
    assert!(ics.contains("DTSTART;VALUE=DATE:20260920"), "{ics}");
    assert!(ics.contains("DTEND;VALUE=DATE:20260922"), "{ics}");
}

#[test]
fn an_undated_event_is_not_rendered() {
    assert!(render_event(&event(None, None), &config(), fallback()).is_none());
}

#[test]
fn an_unchanged_event_changes_nothing() {
    for ev in [
        event(Some("2026-09-20T09:50:00Z"), None),
        event(Some("2026-09-20T09:50:00Z"), Some("2026-09-20T11:20:00Z")),
        event(Some("2026-09-19T20:00:00Z"), None),
        event(Some("2026-09-19T20:00:00Z"), Some("2026-09-20T20:00:00Z")),
    ] {
        assert!(round_trip(&ev, |s| s).is_empty(), "{ev:?}");
    }
}

#[test]
fn moving_and_extending_an_event_writes_start_and_end() {
    let ev = event(Some("2026-09-20T09:50:00Z"), None);
    let patch = round_trip(&ev, |s| {
        s.replace(
            "DTSTART:20260920T095000Z",
            "DTSTART:20260921T100000Z\r\nDTEND:20260921T113000Z",
        )
    });
    assert_eq!(patch.start, Some(some("2026-09-21T10:00:00Z")));
    assert_eq!(patch.end, Some(some("2026-09-21T11:30:00Z")));
}

#[test]
fn a_one_day_all_day_event_keeps_no_end() {
    let ev = event(Some("2026-09-19T20:00:00Z"), None);
    let patch = round_trip(&ev, |s| {
        s.replace("DTSTART;VALUE=DATE:20260920", "DTSTART;VALUE=DATE:20260925")
            .replace("DTEND;VALUE=DATE:20260921", "DTEND;VALUE=DATE:20260926")
    });
    assert_eq!(patch.start, Some(some("2026-09-24T20:00:00Z")));
    assert_eq!(patch.end, None);
}

#[test]
fn a_body_without_a_final_line_break_is_read() {
    let body = "BEGIN:VCALENDAR\r\nBEGIN:VEVENT\r\nUID:u\r\nDTSTART:20261001T100000Z\r\nEND:VEVENT\r\nEND:VCALENDAR";
    assert_eq!(parse_event(body).unwrap().uid.as_deref(), Some("u"));
}

#[test]
fn a_weekly_rule_keeps_the_wall_clock_across_a_daylight_saving_change() {
    let mut ev = event(Some("2026-10-19T08:00:00Z"), None); // 10:00 CEST
    ev.rrule = some("FREQ=WEEKLY");
    ev.exdates = vec![AnytypeDate::parse("2026-11-02T09:00:00Z").unwrap()];
    let starts = occurrences_between(
        &ev,
        &zone("Europe/Berlin"),
        &vec![],
        at(2026, 10, 18, 0),
        at(2026, 11, 10, 0),
    )
    .unwrap();
    let raw: Vec<&str> = starts.iter().map(|s| s.raw.as_str()).collect();
    // 26 October is after the switch to CET: still 10:00 local, 09:00 UTC.
    assert_eq!(raw, ["2026-10-19T08:00:00Z", "2026-10-26T09:00:00Z", "2026-11-09T09:00:00Z"]);
}

#[test]
fn exdates_are_read_in_every_form_calino_writes() {
    let body = "BEGIN:VCALENDAR\r\nBEGIN:VEVENT\r\nUID:u\r\nDTSTART:20261001T100000Z\r\nRRULE:FREQ=DAILY\r\nEXDATE;TZID=Europe/Saratov:20261002T140000\r\nEXDATE:20261003T100000Z,20261004T100000Z\r\nEXDATE:20261005T140000\r\nEND:VEVENT\r\nEND:VCALENDAR\r\n";
    let series = parse_series(body).unwrap();
    let ev = Event { rrule: some("FREQ=DAILY"), ..event(Some("2026-10-01T10:00:00Z"), None) };
    let plan = plan_series_update(&ev, &vec![], &series, &config());
    assert_eq!(
        plan.master.exdates,
        Some(vec![
            "2026-10-02T10:00:00Z".to_string(),
            "2026-10-03T10:00:00Z".to_string(),
            "2026-10-04T10:00:00Z".to_string(),
            // Floating, read as local time in the calendar's zone.
            "2026-10-05T10:00:00Z".to_string(),
        ])
    );
    assert!(plan.master.rrule.is_none(), "{plan:?}");
}

#[test]
fn a_reordered_rule_is_the_same_rule() {
    assert!(same_rule(
        &some("FREQ=WEEKLY;BYDAY=MO;UNTIL=20261228T195959Z"),
        &some("UNTIL=20261228T195959Z;FREQ=WEEKLY;BYDAY=MO")
    ));
    assert!(!same_rule(&some("FREQ=WEEKLY"), &None));
}

#[test]
fn triggers_become_option_names() {
    assert_eq!(parse_before("-PT15M"), Some(minutes(15)));
    assert_eq!(parse_before("-P1D"), Some(minutes(1440)));
    assert_eq!(parse_before("-PT1H30M"), Some(minutes(90)));
    assert_eq!(parse_before("-P1W"), Some(minutes(10_080)));
    assert_eq!(parse_before("PT15M"), None);
    assert_eq!(lead_name(&minutes(90)), "90m");
    assert_eq!(lead_name(&minutes(120)), "2h");
    assert_eq!(lead_name(&minutes(2880)), "2d");
    assert_eq!(lead_name(&minutes(10_080)), "1w");
}

#[test]
fn changing_alarms_in_the_client_changes_reminders() {
    let ev = event(Some("2026-09-20T09:50:00Z"), None);
    let ics = render_event(&ev, &config(), fallback()).unwrap();
    // Drop the 1-day alarm, keep 15 minutes.
    let start = ics.rfind("BEGIN:VALARM").unwrap();
    let first = ics.find("BEGIN:VALARM").unwrap();
    let drop = if ics[first..].contains("-P1D") && ics[first..start].contains("-P1D") {
        first
    } else {
        start
    };
    let end = ics[drop..].find("END:VALARM\r\n").unwrap() + drop + "END:VALARM\r\n".len();
    let edited = format!("{}{}", &ics[..drop], &ics[end..]);
    let patch = event_patch_for_update(&ev, &parse_event(&edited).unwrap(), &config());
    assert!(
        matches!(patch.reminders.as_deref(), Some([one]) if one == "15m" || one == "1d"),
        "{patch:?}"
    );
}

#[test]
fn a_new_event_from_the_client() {
    let body = "BEGIN:VCALENDAR\r\nBEGIN:VEVENT\r\nUID:u-1\r\nSUMMARY:Встреча\r\nDTSTART:20261001T100000Z\r\nDTEND:20261001T110000Z\r\nLOCATION:Кафедра\r\nBEGIN:VALARM\r\nACTION:DISPLAY\r\nTRIGGER:-PT30M\r\nEND:VALARM\r\nEND:VEVENT\r\nEND:VCALENDAR\r\n";
    let incoming = parse_event(body).unwrap();
    let patch = event_patch_for_create(&incoming, &config());
    assert_eq!(patch.name.as_deref(), Some("Встреча"));
    assert_eq!(patch.start, Some(some("2026-10-01T10:00:00Z")));
    assert_eq!(patch.end, Some(some("2026-10-01T11:00:00Z")));
    assert_eq!(patch.location, Some(some("Кафедра")));
    assert_eq!(patch.reminders, Some(vec!["30m".to_string()]));
}

#[test]
fn bodies_that_are_no_single_series_are_refused() {
    let wrap = |inner: &str| format!("BEGIN:VCALENDAR\r\n{inner}END:VCALENDAR\r\n");
    let one = "BEGIN:VEVENT\r\nUID:a\r\nDTSTART:20261001T100000Z\r\nEND:VEVENT\r\n";
    let override_of = |uid: &str| {
        format!("BEGIN:VEVENT\r\nUID:{uid}\r\nRECURRENCE-ID:20261002T100000Z\r\nDTSTART:20261002T110000Z\r\nEND:VEVENT\r\n")
    };
    assert!(matches!(parse_series("nonsense"), Err(EventWriteError::NotCalendar(_))));
    for body in [
        wrap("BEGIN:VTODO\r\nUID:t\r\nEND:VTODO\r\n"),
        wrap(&format!("{one}{one}")),
        wrap(&override_of("a")),
    ] {
        let err = parse_series(&body).err().expect("a refusal");
        assert!(!err.message().is_empty());
    }
}

#[test]
fn a_series_keeps_its_exclusions_and_replacements_in_one_resource() {
    let mut master = event(Some("2026-10-05T10:00:00Z"), None);
    master.rrule = some("FREQ=WEEKLY");
    master.exdates = vec![AnytypeDate::parse("2026-10-12T10:00:00Z").unwrap()];
    let mut moved = event(Some("2026-10-20T10:00:00Z"), None);
    moved.object_id = "ev2".into();
    moved.series = some("ev1");
    moved.occurrence = AnytypeDate::parse("2026-10-19T10:00:00Z");
    let text = render_series(&master, &vec![&moved], &config(), fallback()).unwrap();
    assert!(text.contains("RRULE:FREQ=WEEKLY"), "{text}");
    assert!(text.contains("EXDATE;TZID=Europe/Saratov:20261012T140000"), "{text}");
    assert!(text.contains("RECURRENCE-ID;TZID=Europe/Saratov:20261019T140000"), "{text}");
    assert_eq!(text.matches("UID:ev1@anytype-task-exporter\r\n").count(), 2, "{text}");
    let series = parse_series(&text).unwrap();
    let plan = plan_series_update(&master, &vec![moved], &series, &config());
    assert!(plan.is_empty(), "{plan:?}");
}

#[test]
fn a_new_series_brings_its_replacements() {
    let body = "BEGIN:VCALENDAR\r\nBEGIN:VEVENT\r\nUID:u\r\nSUMMARY:S\r\nDTSTART:20261001T100000Z\r\nRRULE:FREQ=DAILY\r\nEND:VEVENT\r\nBEGIN:VEVENT\r\nUID:u\r\nSUMMARY:S\r\nRECURRENCE-ID:20261003T100000Z\r\nDTSTART:20261003T120000Z\r\nEND:VEVENT\r\nEND:VCALENDAR\r\n";
    let (master, replacements) = plan_series_create(&parse_series(body).unwrap(), &config());
    assert_eq!(master.rrule, Some(some("FREQ=DAILY")));
    assert_eq!(replacements.len(), 1);
    assert_eq!(replacements[0].start, Some(some("2026-10-03T12:00:00Z")));
}

#[test]
fn a_deadline_is_an_entry_of_its_own() {
    let mut ev = event(Some("2026-09-20T09:50:00Z"), None);
    assert!(deadline_entry(&ev, Language::En).is_none());
    ev.deadline = AnytypeDate::parse("2026-09-18T20:00:00Z");
    let entry = deadline_entry(&ev, Language::En).unwrap();
    assert_eq!(entry.start, ev.deadline);
    assert_eq!(entry.name, "Лекция (deadline)");
    assert_ne!(entry.uid(), ev.uid());
    let snapshot = snapshot_of(&vec![ev], &config(), fallback());
    assert_eq!(snapshot.objects.len(), 2);
}

#[test]
fn what_replaces_an_occurrence_is_not_served_alone() {
    let mut master = event(Some("2026-10-05T10:00:00Z"), None);
    master.rrule = some("FREQ=WEEKLY");
    let mut moved = event(Some("2026-10-20T10:00:00Z"), None);
    moved.object_id = "ev2".into();
    moved.series = some("ev1");
    moved.occurrence = AnytypeDate::parse("2026-10-19T10:00:00Z");
    let events = vec![master, moved];
    assert!(replaces_an_occurrence(&events[1], &events));
    assert!(!replaces_an_occurrence(&events[0], &events));
    assert_eq!(snapshot_of(&events, &config(), fallback()).objects.len(), 1);
}

#[test]
fn an_event_starts_at_its_moment_or_at_the_hour_of_whole_days() {
    let timed = event(Some("2026-09-20T09:50:00Z"), None);
    let starts = start_instant(&timed, &config(), 9 * 3600).unwrap();
    assert_eq!(starts.seconds(), at(2026, 9, 20, 9).seconds() + 50 * 60);
    let whole = event(Some("2026-09-19T20:00:00Z"), None);
    assert_eq!(
        start_instant(&whole, &config(), 9 * 3600).unwrap().seconds(),
        at(2026, 9, 20, 5).seconds()
    );
}

#[test]
fn a_revision_is_the_second_of_the_change() {
    assert_eq!(sequence_for(at(2026, 9, 15, 12)), 1_789_473_600);
    assert_eq!(sequence_for(Instant::new(-5, 0).unwrap()), 0);
}

#[test]
fn what_was_read_is_served_for_a_while() {
    let ttl = Span::new(30, 0).unwrap();
    let mut cache = EventCache::new();
    assert!(cache.snapshot(0, &ttl).is_none());
    cache.store(1_000_000_000, snapshot_of(&vec![], &config(), fallback()));
    assert!(cache.snapshot(30_999_999_999, &ttl).is_some());
    assert!(cache.snapshot(31_000_000_000, &ttl).is_none());
    cache.invalidate();
    assert!(cache.snapshot(1_000_000_001, &ttl).is_none());
}

/// Texts that an iCalendar document folds or escapes.
fn awkward() -> Vec<String> {
    let mut all: Vec<String> = [
        "a, b; c: d",
        "back\\slash\\n and \\, too",
        "line\nfeed\n  indented\n\ttab",
        "carriage\rreturn",
        "both\r\n of them",
        "BEGIN:VTODO",
        "END:VEVENT",
        "SUMMARY:x\nEND:VCALENDAR",
        "\"quoted\"",
        "=;VALUE=DATE:",
    ]
    .iter()
    .map(|name| name.to_string())
    .collect();
    for n in 50..90 {
        all.push(format!("{} {}", "ж".repeat(n), "tail ".repeat(20).trim()));
        all.push(format!("{}\n{}", "x".repeat(n), " y".repeat(80)));
    }
    all
}

#[test]
fn an_event_comes_back_unchanged() {
    let dates = [
        (Some("2026-09-20T09:50:00Z"), None),
        (Some("2026-09-20T09:50:00Z"), Some("2026-09-20T11:20:00Z")),
        (Some("2026-09-20T00:00:00+04:00"), None),
        (Some("2026-09-20T00:00:00+04:00"), Some("2026-09-22T00:00:00+04:00")),
        (Some("0001-01-02T09:50:00Z"), Some("9999-12-30T11:20:00Z")),
    ];
    for (start, end) in dates {
        for name in awkward() {
            let mut ev = event(start, end);
            ev.name = name.clone();
            ev.location = Some(name.clone());
            ev.object_url = Some("https://object.any.coop/".to_string() + &"x,;".repeat(40));
            ev.tags = vec!["a b".into(), "\\;".into(), "ё".repeat(90)];
            ev.reminder_names = ["2h", "15m", "1w", "oops", "0m"].map(String::from).to_vec();
            let ics = render_event(&ev, &config(), fallback()).unwrap();
            let series = parse_series(&ics).unwrap();
            assert_eq!(series.master.location.as_ref(), Some(&name));
            assert!(series.replacements.is_empty());
            let patch = event_patch_for_update(&ev, &series.master, &config());
            assert!(patch.is_empty(), "{name:?} {patch:?}");
        }
    }
}

#[test]
fn a_series_comes_back_unchanged() {
    let mut berlin = config();
    berlin.timezone = zone("Europe/Berlin");
    berlin.date_only_timezone = zone("Europe/Berlin");
    let dates: [(&str, [&str; 4]); 2] = [
        (
            "2026-03-23T09:50:00Z",
            [
                "2026-04-13T08:50:00Z",
                "2026-03-30T08:50:00Z",
                "2026-04-06T08:50:00Z",
                "2026-05-04T08:50:00Z",
            ],
        ),
        (
            "2026-03-22T23:00:00Z",
            [
                "2026-04-12T22:00:00Z",
                "2026-03-29T22:00:00Z",
                "2026-04-05T22:00:00Z",
                "2026-05-03T22:00:00Z",
            ],
        ),
    ];
    for (start, occurrences) in dates {
        let mut master = event(Some(start), None);
        master.rrule = some("FREQ=WEEKLY;COUNT=20");
        master.exdates =
            occurrences[2..].iter().map(|at| AnytypeDate::parse(at).unwrap()).collect();
        let moved = |id: &str, at: &str, name: &str| {
            let mut moved = event(Some(at), None);
            moved.object_id = id.to_string();
            moved.name = name.to_string();
            moved.series = some("ev1");
            moved.occurrence = AnytypeDate::parse(at);
            moved.reminder_names = vec!["1h".into()];
            moved
        };
        for name in awkward() {
            let replacements =
                vec![moved("ev3", occurrences[0], &name), moved("ev2", occurrences[1], "other")];
            let served: Vec<&Event> = replacements.iter().collect();
            let ics = render_series(&master, &served, &berlin, fallback()).unwrap();
            let series = parse_series(&ics).unwrap();
            assert_eq!(series.master.exdates.len(), 2);
            assert_eq!(series.replacements.len(), 2);
            let plan = plan_series_update(&master, &replacements, &series, &berlin);
            assert!(plan.is_empty(), "{name:?} {plan:?}");
        }
    }
}

/// An hour that clocks show twice is read as the first of the two.
#[test]
fn the_second_of_two_hours_comes_back_as_the_first() {
    let mut berlin = config();
    berlin.timezone = zone("Europe/Berlin");
    let mut master = event(Some("2026-10-25T01:30:00Z"), None);
    master.rrule = some("FREQ=WEEKLY");
    let ics = render_series(&master, &Vec::new(), &berlin, fallback()).unwrap();
    let plan = plan_series_update(&master, &Vec::new(), &parse_series(&ics).unwrap(), &berlin);
    assert_eq!(plan.master.start, Some(some("2026-10-25T00:30:00Z")));
}

#[test]
fn a_lead_beyond_whole_minutes_comes_back_unchanged() {
    let mut ev = event(Some("2026-09-20T09:50:00Z"), None);
    ev.reminder_names = vec!["90s".into(), "1h".into()];
    let ics = render_event(&ev, &config(), fallback()).unwrap();
    assert!(ics.contains("TRIGGER:-PT1M"), "{ics}");
    assert!(round_trip(&ev, |ics| ics).is_empty());
}

#[test]
fn a_lead_that_is_too_long_to_add_up_is_skipped() {
    let mut ev = event(Some("2026-09-20T09:50:00Z"), None);
    ev.reminder_names = vec!["18446744073709551615s 1000ms".into(), "15m".into()];
    assert_eq!(ev.leads().len(), 1);
    assert_eq!(ev.leads()[0].seconds(), 900);
    let read = |text: &str| parse_span(text).map(|span| (span.seconds(), span.in_nanos() % 1_000_000_000));
    assert_eq!(read("18446744073709551615ns"), Some((18_446_744_073, 709_551_615)));
    assert_eq!(read("600000000000s"), Some((600_000_000_000, 0)));
    assert_eq!(read("600000000000ms"), Some((600_000_000, 0)));
    assert_eq!(read("1 0m"), Some((600, 0)));
    assert_eq!(read("1.5h 2months"), Some((5_400 + 2 * 2_630_016, 0)));
    assert_eq!(read("18446744073709551614s 1s"), None);
    assert_eq!(read("99999999999999999999ns"), None);
    assert_eq!(read("1000000000000y"), None);
}

#[test]
fn an_event_with_a_rule_that_cuts_a_character_has_no_occurrences() {
    let mut held = event(Some("2026-08-30T06:00:00Z"), None);
    held.rrule = Some("FREQ=WEEKLY;BYDAY=€".into());
    let (from, to) = (at(2026, 8, 1, 0), at(2026, 9, 1, 0));
    assert!(occurrences_between(&held, &config().timezone, &vec![], from, to).is_err());
    held.rrule = Some("FREQ=WEEKLY;BYDAY=SU;COUNT=1".into());
    assert_eq!(occurrences_between(&held, &config().timezone, &vec![], from, to).unwrap().len(), 1);
}

#[test]
fn a_plan_starts_empty_and_can_be_copied() {
    let mut plan = SeriesPlan::default();
    assert!(plan.is_empty());
    plan.archive.push("a".into());
    assert!(!plan.is_empty());
    assert_eq!(plan.clone(), plan);
}
