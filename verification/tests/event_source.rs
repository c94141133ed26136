use anytype_caldav::event_changes::EventPatch;
use anytype_caldav::event_source::{
    creation_name, creation_properties, properties_for, to_event,
};
use anytype_caldav::events::{series_among, series_read, Event, SeriesRead};
use anytype_caldav::object::{Object, Property, PropertyValue, Setting, Tag};

fn property(key: &str, value: PropertyValue) -> Property {
    Property { id: format!("id-{key}"), key: key.into(), name: key.into(), value }
}

fn text(key: &str, text: &str) -> Property {
    property(key, PropertyValue::Text { text: text.into() })
}

fn date(key: &str, date: &str) -> Property {
    property(key, PropertyValue::Date { date: date.into() })
}

fn options(key: &str, names: &[&str]) -> Property {
    let tag = |name: &&str| Tag { id: format!("id-{name}"), name: name.to_string() };
    property(key, PropertyValue::MultiSelect { multi_select: names.iter().map(tag).collect() })
}

fn links(key: &str, ids: &[&str]) -> Property {
    let objects = ids.iter().map(|id| id.to_string()).collect();
    property(key, PropertyValue::Objects { objects })
}

fn object(id: &str, properties: Vec<Property>) -> Object {
    Object {
        id: id.into(),
        name: Some("Seminar".into()),
        snippet: None,
        archived: false,
        link: "https://object.any.coop/e".into(),
        icon: None,
        properties,
    }
}

#[test]
fn an_object_is_read_as_an_event() {
    let event = to_event(&object(
        "e",
        vec![
            date("start_date", "2026-08-30T06:00:00Z"),
            date("end_date", "2026-08-30T07:00:00Z"),
            text("address", "Room 5"),
            options("tag", &["work"]),
            options("reminder_lead", &["15m"]),
            text("ical_uid", "u1"),
            text("rrule", " RRULE:FREQ=WEEKLY "),
            text("exdate", "2026-09-06T06:00:00Z\nnonsense\n2026-09-13T06:00:00Z"),
            links("series", &["s1", "s2"]),
            date("occurrence", "2026-08-30T06:00:00Z"),
            date("deadline", "2026-08-29T14:00:00Z"),
            date("last_modified_date", "2026-08-01T00:00:00Z"),
        ],
    ));
    assert_eq!(event.object_id, "e");
    assert_eq!(event.name, "Seminar");
    assert_eq!(event.start.unwrap().raw, "2026-08-30T06:00:00Z");
    assert_eq!(event.end.unwrap().raw, "2026-08-30T07:00:00Z");
    assert_eq!(event.location.as_deref(), Some("Room 5"));
    assert_eq!(event.tags, ["work"]);
    assert_eq!(event.reminder_names, ["15m"]);
    assert_eq!(event.ical_uid.as_deref(), Some("u1"));
    assert_eq!(event.rrule.as_deref(), Some("FREQ=WEEKLY"));
    let excluded: Vec<String> = event.exdates.into_iter().map(|date| date.raw).collect();
    assert_eq!(excluded, ["2026-09-06T06:00:00Z", "2026-09-13T06:00:00Z"]);
    assert_eq!(event.series.as_deref(), Some("s1"));
    assert_eq!(event.occurrence.unwrap().raw, "2026-08-30T06:00:00Z");
    assert_eq!(event.deadline.unwrap().raw, "2026-08-29T14:00:00Z");
    assert_eq!(event.object_url.as_deref(), Some("https://object.any.coop/e"));
    assert_eq!(event.last_modified.unwrap().seconds(), 1_785_542_400);

    let bare = to_event(&object("e", vec![]));
    assert!(bare.start.is_none() && bare.rrule.is_none() && bare.series.is_none());
    assert!(bare.exdates.is_empty() && bare.last_modified.is_none());
}

#[test]
fn a_patch_of_an_event_writes_what_it_holds() {
    let mut patch = EventPatch::default();
    assert!(properties_for(&patch).is_empty());
    patch.start = Some(Some("2026-08-30T06:00:00Z".into()));
    patch.end = Some(None);
    patch.deadline = Some(None);
    patch.location = Some(None);
    patch.reminders = Some(vec!["15m".into()]);
    patch.tags = Some(vec![]);
    patch.rrule = Some(Some("FREQ=DAILY".into()));
    patch.exdates = Some(vec!["a".into(), "b".into()]);
    patch.series = Some("s".into());
    patch.occurrence = Some("2026-08-30T06:00:00Z".into());
    let day = Some("2026-08-30T06:00:00Z".to_string());
    assert_eq!(
        properties_for(&patch),
        [
            Setting::Date { key: "start_date".into(), date: day.clone() },
            Setting::Date { key: "end_date".into(), date: None },
            Setting::Date { key: "deadline".into(), date: None },
            Setting::Text { key: "address".into(), text: "".into() },
            Setting::Options { key: "reminder_lead".into(), names: vec!["15m".into()] },
            Setting::Options { key: "tag".into(), names: vec![] },
            Setting::Text { key: "rrule".into(), text: "FREQ=DAILY".into() },
            Setting::Text { key: "exdate".into(), text: "a\nb".into() },
            Setting::Objects { key: "series".into(), objects: vec!["s".into()] },
            Setting::Date { key: "occurrence".into(), date: day },
        ]
    );
}

#[test]
fn only_the_objects_of_a_series_are_kept() {
    let of = |id: &str, series: &[&str]| to_event(&object(id, vec![links("series", series)]));
    let events: Vec<Event> = vec![of("a", &["s"]), of("b", &["t"]), of("c", &[]), of("d", &["s"])];
    let (master, replacements) = series_among(of("s", &[]), "s", events);
    assert_eq!(master.object_id, "s");
    let left: Vec<&str> = replacements.iter().map(|event| event.object_id.as_str()).collect();
    assert_eq!(left, ["a", "d"]);
}

#[test]
fn only_a_series_asks_for_the_objects_that_replace_its_occurrences() {
    assert!(matches!(series_read(None), SeriesRead::Known(None)));
    let mut event = to_event(&object("a", vec![]));
    match series_read(Some(event.clone())) {
        SeriesRead::Known(Some((master, replacements))) => {
            assert_eq!(master, event);
            assert!(replacements.is_empty());
        }
        _ => panic!("an event without a rule"),
    }
    event.rrule = Some("FREQ=DAILY".into());
    match series_read(Some(event.clone())) {
        SeriesRead::List(master) => assert_eq!(master, event),
        _ => panic!("a series"),
    }
}

#[test]
fn an_event_is_created_with_a_name_and_its_uid() {
    let mut patch = EventPatch::default();
    assert_eq!(creation_name(&patch), "(unnamed)");
    patch.name = Some("Лекция".into());
    assert_eq!(creation_name(&patch), "Лекция");
    patch.location = Some(Some("Room".into()));
    let uid = Setting::Text { key: "ical_uid".into(), text: "u@1".into() };
    let place = Setting::Text { key: "address".into(), text: "Room".into() };
    assert_eq!(creation_properties(Some("u@1"), &patch), [uid, place.clone()]);
    assert_eq!(creation_properties(None, &patch), [place]);
}
