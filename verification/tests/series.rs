use anytype_caldav::model::AnytypeDate;
use anytype_caldav::object::{Icon, Object, Property, PropertyValue, Setting};
use anytype_caldav::series::{
    carried, event_end, event_name, event_properties, instances_of, is_news, last_day, next_after, plan, plan_until, upcoming,
    reusable_icon, task_properties, template_for, to_series, Carried, Instance, Kind, Outcome, Pass,
    Planned, Series, Step, Template,
};
use anytype_caldav::time::{parse_day, Day, Instant, Span, Zone};
use chrono::{TimeZone, Utc};

fn saratov() -> Zone {
    Zone::parse("Europe/Saratov").unwrap()
}

fn day(y: i32, m: u32, d: u32) -> Day {
    parse_day(&format!("{y:04}-{m:02}-{d:02}")).unwrap()
}

fn at(raw: &str) -> AnytypeDate {
    AnytypeDate::parse(raw).unwrap()
}

fn instant(y: i32, m: u32, d: u32, h: u32) -> Instant {
    let at = Utc.with_ymd_and_hms(y, m, d, h, 0, 0).unwrap();
    Instant::new(at.timestamp(), 0).unwrap()
}

fn rfc3339(at: Instant) -> String {
    chrono::DateTime::from_timestamp(at.seconds(), at.nanos()).unwrap().to_rfc3339()
}

fn series(id: &str, rule: &str, anchor: &str) -> Series {
    Series {
        id: id.into(),
        name: id.into(),
        rrule: Some(rule.into()),
        anchor: Some(at(anchor)),
        priority: None,
        tags: vec![],
        reminder_leads: vec![],
        end: None,
        address: None,
        icon: None,
        extra: Vec::new(),
    }
}

fn instance(series_id: &str, occurrence: &str) -> Instance {
    Instance {
        object_id: format!("task-of-{series_id}"),
        series_id: series_id.into(),
        occurrence: Some(at(occurrence)),
    }
}

fn property(key: &str, value: PropertyValue) -> Property {
    Property { id: format!("id-{key}"), key: key.into(), name: key.into(), value }
}

fn days(planned: &[Planned]) -> Vec<Day> {
    planned.iter().map(|p| p.day).collect()
}

#[test]
fn a_meeting_is_named_by_its_day_and_lasts_as_long_as_the_first() {
    // Thursdays at 18:00 Saratov (14:00Z), two hours long.
    let mut weekly =
        series("Собрание Core Team ", "FREQ=WEEKLY;BYDAY=TH", "2026-09-17T14:00:00Z");
    assert_eq!(event_name(&weekly, day(2026, 9, 24)), "Собрание Core Team 24.09.2026");

    let next = instant(2026, 9, 24, 14);
    assert_eq!(event_end(&weekly, next), None, "no end on the series, no end on the meeting");
    weekly.end = Some(at("2026-09-17T16:00:00Z"));
    assert_eq!(event_end(&weekly, next).as_deref(), Some("2026-09-24T16:00:00Z"));
    // An end before the start says nothing about the length.
    weekly.end = Some(at("2026-09-17T13:00:00Z"));
    assert_eq!(event_end(&weekly, next), None);
}

/// Everything the event type also has is carried, dates moved with the meeting; what
/// the generator sets itself, what Anytype keeps, what the type lacks and what is empty
/// are not.
#[test]
fn an_event_carries_the_series_properties_with_dates_moved() {
    let mut weekly = series("s", "FREQ=WEEKLY;BYDAY=TH", "2026-09-17T14:00:00Z");
    let text = |text: &str| PropertyValue::Text { text: text.into() };
    let date = |date: &str| PropertyValue::Date { date: date.into() };
    weekly.extra = vec![
        // Tuesday 23:59 Saratov before the Thursday meeting.
        property("deadline", date("2026-09-15T19:59:00Z")),
        property("agenda", text("Бюджет")),
        property("notes", text(" ")),
        property("rrule", text("FREQ=WEEKLY")),
        property("created_date", date("2026-09-01T00:00:00Z")),
        property("room", text("не в типе")),
    ];
    let keys: Vec<String> = ["deadline", "agenda", "notes", "rrule", "created_date"]
        .into_iter()
        .map(String::from)
        .collect();
    let carried = carried(&weekly, &keys, instant(2026, 9, 24, 14));
    assert_eq!(carried.len(), 2);
    match &carried[0] {
        Carried::Moved { key, date } => {
            assert_eq!(key.as_str(), "deadline");
            assert_eq!(date, "2026-09-22T19:59:00Z");
        }
        Carried::Same(property) => panic!("a date is moved: {property:?}"),
    }
    match &carried[1] {
        Carried::Same(property) => {
            assert_eq!(property.key, "agenda");
            assert_eq!(property.value, PropertyValue::Text { text: "Бюджет".into() });
        }
        Carried::Moved { key, .. } => panic!("a text stays: {key}"),
    }
}

#[test]
fn a_horizon_plans_every_occurrence_up_to_it_and_skips_those_made() {
    let weekly = vec![series("s", "FREQ=WEEKLY;BYDAY=TH", "2026-09-17T14:00:00Z")];
    let today = day(2026, 9, 18);

    let (planned, _) = plan_until(&weekly, &vec![], &saratov(), today, day(2026, 10, 18));
    assert_eq!(
        days(&planned),
        [day(2026, 9, 24), day(2026, 10, 1), day(2026, 10, 8), day(2026, 10, 15)]
    );

    let made = vec![instance("s", "2026-09-24T14:00:00Z"), instance("s", "2026-10-08T14:00:00Z")];
    let (planned, _) = plan_until(&weekly, &made, &saratov(), today, day(2026, 10, 18));
    assert_eq!(days(&planned), [day(2026, 10, 1), day(2026, 10, 15)]);

    // A horizon shorter than the gap still makes the next occurrence.
    let monthly = vec![series("m", "FREQ=MONTHLY", "2026-09-17T14:00:00Z")];
    let (planned, _) = plan_until(&monthly, &vec![], &saratov(), today, day(2026, 9, 25));
    assert_eq!(days(&planned), [day(2026, 10, 17)]);
}

#[test]
fn an_image_icon_is_given_on_by_its_file_id() {
    let read = Icon::File {
        file: "http://127.0.0.1:31012/v1/spaces/space/files/bafyreifile".into(),
    };
    assert_eq!(reusable_icon(read), Icon::File { file: "bafyreifile".into() });
    let emoji = || Icon::Emoji { emoji: "🔥".into() };
    assert_eq!(reusable_icon(emoji()), emoji());
}

#[test]
fn events_are_planned_like_tasks() {
    let weekly = vec![series("s", "FREQ=WEEKLY;BYDAY=TH", "2026-09-17T14:00:00Z")];
    // On Friday 18.09 the next Thursday is missing and planned.
    let (planned, _) = plan(&weekly, &vec![], &saratov(), day(2026, 9, 18));
    assert_eq!(planned.len(), 1);
    assert_eq!(planned[0].day, day(2026, 9, 24));
    assert_eq!(planned[0].occurrence, "2026-09-24T14:00:00Z");
    // A meeting already made for that Thursday, even at another hour, counts.
    let made = vec![instance("s", "2026-09-24T15:30:00Z")];
    let (planned, _) = plan(&weekly, &made, &saratov(), day(2026, 9, 18));
    assert!(planned.is_empty());
}

// Saturday 2026-09-19 at 12:00 Saratov is 08:00Z.
const GUITAR: &str = "2026-09-19T08:00:00Z";

#[test]
fn on_the_day_of_an_occurrence_the_next_one_is_due() {
    let (utc, next) = next_after("FREQ=WEEKLY", &at(GUITAR), &saratov(), day(2026, 9, 19))
        .unwrap()
        .unwrap();
    assert_eq!(next, day(2026, 9, 26));
    assert_eq!(rfc3339(utc), "2026-09-26T08:00:00+00:00");
}

/// A series made on the day of its first occurrence shows that day at once. On the day
/// of an occurrence already made, the next one is still planned, with or without a
/// horizon.
#[test]
fn todays_occurrence_is_planned_when_it_has_no_instance() {
    let guitar = vec![series("guitar", "FREQ=WEEKLY", GUITAR)];
    let saturday = day(2026, 9, 19);

    let (planned, _) = plan(&guitar, &vec![], &saratov(), saturday);
    assert_eq!(days(&planned), [saturday, day(2026, 9, 26)]);

    let made = vec![instance("guitar", GUITAR)];
    let (planned, _) = plan(&guitar, &made, &saratov(), saturday);
    assert_eq!(days(&planned), [day(2026, 9, 26)]);

    let (planned, _) = plan_until(&guitar, &made, &saratov(), saturday, day(2026, 10, 4));
    assert_eq!(days(&planned), [day(2026, 9, 26), day(2026, 10, 3)]);
}

#[test]
fn the_day_before_an_occurrence_that_occurrence_is_the_next_one() {
    let (_, next) = next_after("FREQ=WEEKLY", &at(GUITAR), &saratov(), day(2026, 9, 18))
        .unwrap()
        .unwrap();
    assert_eq!(next, day(2026, 9, 19));
}

/// Anytype stores 13 Sep date-only as 12 Sep 20:00Z; the next monthly occurrence must
/// come back in that same shape.
#[test]
fn an_all_day_anchor_stays_local_midnight() {
    let anchor = at("2026-09-12T20:00:00Z");
    let (utc, next) =
        next_after("FREQ=MONTHLY", &anchor, &saratov(), day(2026, 9, 13)).unwrap().unwrap();
    assert_eq!(next, day(2026, 10, 13));
    assert_eq!(rfc3339(utc), "2026-10-12T20:00:00+00:00");
}

#[test]
fn last_day_of_month_follows_the_month_length() {
    let anchor = at("2026-08-30T20:00:00Z");
    let (_, next) =
        next_after("FREQ=MONTHLY;BYMONTHDAY=-1", &anchor, &saratov(), day(2026, 9, 30))
            .unwrap()
            .unwrap();
    assert_eq!(next, day(2026, 10, 31));
}

/// After downtime only the next occurrence is due, never the missed ones.
#[test]
fn missed_occurrences_are_skipped() {
    let (_, next) = next_after("FREQ=WEEKLY", &at(GUITAR), &saratov(), day(2026, 11, 4))
        .unwrap()
        .unwrap();
    assert_eq!(next, day(2026, 11, 7));
}

#[test]
fn an_ended_rule_plans_nothing() {
    let ended =
        next_after("FREQ=WEEKLY;COUNT=2", &at(GUITAR), &saratov(), day(2026, 12, 1)).unwrap();
    assert_eq!(ended, None);
}

#[test]
fn a_missing_instance_is_planned_and_an_existing_one_is_not() {
    let all = vec![
        series("guitar", "FREQ=WEEKLY", GUITAR),
        series("rent", "FREQ=MONTHLY", "2026-09-12T20:00:00Z"),
    ];
    let instances = vec![instance("guitar", GUITAR), instance("rent", "2026-10-12T20:00:00Z")];
    let (planned, warnings) = plan(&all, &instances, &saratov(), day(2026, 9, 19));
    assert!(warnings.is_empty());
    assert_eq!(planned.len(), 1);
    assert_eq!(planned[0].series.id, "guitar");
    assert_eq!(planned[0].day, day(2026, 9, 26));
}

/// An instance made by hand at another hour of the same day still counts.
#[test]
fn instances_match_by_day_not_by_instant() {
    let all = vec![series("guitar", "FREQ=WEEKLY", GUITAR)];
    let instances = vec![instance("guitar", GUITAR), instance("guitar", "2026-09-26T15:30:00Z")];
    let (planned, _) = plan(&all, &instances, &saratov(), day(2026, 9, 19));
    assert!(planned.is_empty());
}

#[test]
fn an_instance_of_another_series_does_not_count() {
    let all = vec![series("guitar", "FREQ=WEEKLY", GUITAR)];
    let instances = vec![instance("guitar", GUITAR), instance("rent", "2026-09-26T08:00:00Z")];
    let (planned, _) = plan(&all, &instances, &saratov(), day(2026, 9, 19));
    assert_eq!(planned.len(), 1);
}

#[test]
fn broken_series_are_reported_and_do_not_stop_the_rest() {
    let mut no_anchor = series("haircut", "FREQ=DAILY;INTERVAL=45", GUITAR);
    no_anchor.anchor = None;
    let all = vec![
        no_anchor,
        series("bad", "FREQ=SOMETIMES", GUITAR),
        series("guitar", "FREQ=WEEKLY", GUITAR),
    ];
    let made = vec![instance("guitar", GUITAR)];
    let (planned, warnings) = plan(&all, &made, &saratov(), day(2026, 9, 19));
    assert_eq!(planned.len(), 1);
    assert_eq!(warnings.len(), 2, "{warnings:?}");
}

/// Whatever the zone, the days are those of that zone's clocks.
#[test]
fn the_days_of_a_plan_are_those_of_the_zone() {
    let all = vec![series("s", "FREQ=DAILY", "2026-09-17T21:30:00Z")];
    let utc = Zone::parse("UTC").unwrap();
    let (here, _) = plan(&all, &vec![], &utc, day(2026, 9, 20));
    assert_eq!(days(&here), [day(2026, 9, 20), day(2026, 9, 21)]);
    let (there, _) = plan(&all, &vec![], &saratov(), day(2026, 9, 20));
    assert_eq!(there[0].occurrence, "2026-09-19T21:30:00Z");
}

#[test]
fn kinds_have_their_types() {
    assert_eq!(Kind::Task.series_type(), "recurring_task");
    assert_eq!(Kind::Task.instance_type(), "task");
    assert_eq!(Kind::Event.series_type(), "recurring_event");
    assert_eq!(Kind::Event.instance_type(), "event");
}

#[test]
fn an_object_is_read_as_a_series_and_as_its_instances() {
    let object = || Object {
        id: "o".into(),
        name: Some("Guitar".into()),
        snippet: None,
        archived: false,
        link: String::new(),
        icon: None,
        properties: vec![
            property("rrule", PropertyValue::Text { text: "FREQ=WEEKLY".into() }),
            property("start_date", PropertyValue::Date { date: GUITAR.into() }),
            property("series", PropertyValue::Objects { objects: vec!["a".into(), "b".into()] }),
            property("occurrence", PropertyValue::Date { date: GUITAR.into() }),
        ],
    };
    let series = to_series(object());
    assert_eq!(series.rrule.as_deref(), Some("FREQ=WEEKLY"));
    assert_eq!(series.anchor, Some(at(GUITAR)));
    let made = instances_of(&object());
    assert_eq!(made.len(), 2);
    assert_eq!(made[1].series_id, "b");
    assert_eq!(made[1].object_id, "o");
    assert_eq!(made[1].occurrence, Some(at(GUITAR)));
}

#[test]
fn a_planned_task_knows_its_series() {
    let mut weekly = series("s", "FREQ=WEEKLY", GUITAR);
    weekly.priority = Some("high".into());
    let planned =
        Planned { series: &weekly, occurrence: GUITAR.to_string(), day: day(2026, 9, 19) };
    let settings = task_properties(&planned);
    let objects = Setting::Objects { key: "series".into(), objects: vec!["s".into()] };
    assert!(settings.contains(&objects), "{settings:?}");
    let date = |key: &str| Setting::Date { key: key.into(), date: Some(GUITAR.into()) };
    assert!(settings.contains(&date("scheduled")), "{settings:?}");
    assert!(settings.contains(&date("occurrence")), "{settings:?}");
    let select = Setting::Select { key: "priority".into(), id: "high".into() };
    assert!(settings.contains(&select), "{settings:?}");
}

#[test]
fn a_template_is_chosen_by_name_or_is_the_only_one() {
    let template = |id: &str, name: &str| Template { id: id.into(), name: Some(name.into()) };
    let two = vec![template("1", "Other"), template("2", " Guitar ")];
    assert_eq!(template_for(&two, "Guitar").as_deref(), Some("2"));
    assert_eq!(template_for(&two, "Piano"), None);
    assert_eq!(template_for(&vec![template("1", "Other")], "Piano").as_deref(), Some("1"));
}

#[test]
fn a_horizon_ends_on_a_day() {
    let week = Span::new(7 * 86_400 + 3600, 0).unwrap();
    assert_eq!(last_day(day(2026, 9, 19), &week), Some(day(2026, 9, 26)));
}

/// Every occurrence is claimed before it is made, and released where that failed.
#[test]
fn a_pass_claims_before_it_creates() {
    let mut pass = Pass::new(3);
    assert_eq!(pass.step, Step::Claim(0));
    pass.take(Outcome::Claimed);
    assert_eq!(pass.step, Step::Create(0));
    pass.take(Outcome::Created);
    assert_eq!(pass.step, Step::Claim(1));
    pass.take(Outcome::AlreadyClaimed);
    assert_eq!(pass.step, Step::Claim(2));
    pass.take(Outcome::Claimed);
    pass.take(Outcome::CreateFailed);
    assert_eq!(pass.step, Step::Release(2));
    pass.take(Outcome::Released);
    assert_eq!(pass.step, Step::Done);
    assert_eq!((pass.created, pass.already, pass.failed), (1, 1, 1));
}

#[test]
fn an_event_of_a_series_carries_its_place_and_length() {
    let mut one = series("s", "FREQ=WEEKLY", "2026-08-03T06:00:00Z");
    one.end = Some(at("2026-08-03T07:30:00Z"));
    one.address = Some("Room 5".into());
    one.tags = vec!["t1".into()];
    let planned = Planned {
        series: &one,
        occurrence: "2026-08-10T06:00:00Z".into(),
        day: day(2026, 8, 10),
    };
    let date = |key: &str, date: &str| Setting::Date { key: key.into(), date: Some(date.into()) };
    assert_eq!(
        event_properties(&planned, instant(2026, 8, 10, 6)),
        [
            Setting::Objects { key: "series".into(), objects: vec!["s".into()] },
            date("occurrence", "2026-08-10T06:00:00Z"),
            date("start_date", "2026-08-10T06:00:00Z"),
            date("end_date", "2026-08-10T07:30:00Z"),
            Setting::Text { key: "address".into(), text: "Room 5".into() },
            Setting::MultiSelect { key: "tag".into(), ids: vec!["t1".into()] },
        ]
    );
}

#[test]
fn a_warning_is_news_once() {
    let mut reported = Vec::new();
    assert!(is_news(&mut reported, "a"));
    assert!(!is_news(&mut reported, "a"));
    assert!(is_news(&mut reported, "b"));
    assert_eq!(reported, ["a", "b"]);
}

#[test]
fn a_day_that_is_cut_within_a_character_is_refused() {
    let today = day(2026, 8, 31);
    let starts = |rule: &str| upcoming(rule, &at("2026-08-31T06:00:00Z"), &saratov(), today, today);
    for rule in ["FREQ=WEEKLY;BYDAY=€", "FREQ=WEEKLY;BYDAY=MO,éU", "FREQ=WEEKLY;BYDAY=🎉;COUNT=1"] {
        let why = starts(rule).unwrap_err();
        assert!(why.contains(rule) && why.contains("in the middle of a character"), "{why}");
    }
    // Read, and refused by the rule's own grammar.
    assert!(!starts("FREQ=WEEKLY;BYDAY=é").unwrap_err().contains("middle"));
    assert!(!starts("FREQ=WEEKLY;BYDAY=XX").unwrap_err().contains("middle"));
    assert_eq!(starts("FREQ=WEEKLY;BYDAY=MO").unwrap().len(), 2);
}

#[test]
fn a_rule_without_occurrences_comes_to_an_end() {
    let today = day(2026, 8, 31);
    let anchor = at("2026-08-31T06:00:00Z");
    let rule = "FREQ=SECONDLY;BYSECOND=0;BYSETPOS=2";
    assert_eq!(upcoming(rule, &anchor, &saratov(), today, today), Ok(vec![]));
    // One that is years away is found.
    let leap = upcoming("FREQ=DAILY;BYMONTH=2;BYMONTHDAY=29", &anchor, &saratov(), today, today);
    assert_eq!(leap.unwrap()[0].1, day(2028, 2, 29));
}
