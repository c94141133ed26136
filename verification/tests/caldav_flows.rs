use anytype_caldav::caldav::auth::Reader;
use anytype_caldav::caldav::events as on_events;
use anytype_caldav::caldav::home::home_set;
use anytype_caldav::caldav::settings;
use anytype_caldav::caldav::tasks;
use anytype_caldav::caldav::xml::{escape, Answer};
use anytype_caldav::caldav::{
    admission, handle, if_match, if_none_match_any, is_write, snapshot_in, CalendarNames, Facade,
    Request, Route,
};
use anytype_caldav::config::{CalendarConfig, RemindersConfig};
use anytype_caldav::event_changes::{parse_event, parse_series};
use anytype_caldav::events::{replacements_of, snapshot_of, Event, EventSnapshot};
use anytype_caldav::feed::{collection_key, etag_for, publish, Outcome, Snapshot};
use anytype_caldav::locale::Language;
use anytype_caldav::model::{AnytypeDate, Task, TaskBatch};
use anytype_caldav::render::{render_one, wire};
use anytype_caldav::source::SourceError;
use anytype_caldav::table::Table;
use anytype_caldav::time::{Instant, Span, Zone};
use anytype_caldav::writeback::{parse, WriteError};

fn config() -> CalendarConfig {
    CalendarConfig {
        timezone: Zone::parse("Europe/Saratov").unwrap(),
        name: "Tasks".into(),
        date_only_timezone: Zone::parse("Europe/Saratov").unwrap(),
        language: Language::En,
    }
}

fn reminders() -> RemindersConfig {
    RemindersConfig { enabled: false, lead_time: Span::new(1800, 0).unwrap(), all_day_time: 32400 }
}

fn now() -> Instant {
    Instant::new(1_788_000_000, 0).unwrap()
}

fn facade() -> Facade {
    Facade {
        writable: true,
        documents: true,
        events: true,
        events_in_tasks: false,
        calendar_names: CalendarNames::for_language(Language::En),
    }
}

fn task(id: &str, uid: Option<&str>, assignees: &[&str]) -> Task {
    Task {
        object_id: id.into(),
        name: format!("Task {id}"),
        scheduled: AnytypeDate::parse("2026-08-30T06:00:00Z"),
        deadline: None,
        done: false,
        reminder_leads: Vec::new(),
        tags: Vec::new(),
        assignees: assignees.iter().map(|a| a.to_string()).collect(),
        ical_uid: uid.map(|u| u.to_string()),
        object_url: None,
        last_modified: None,
    }
}

fn ics(task: &Task) -> String {
    render_one(task, &config(), &reminders(), now())
}

fn snapshot() -> Snapshot {
    let tasks = vec![task("t1", None, &[]), task("t2", Some("u@2"), &["anna", "boris"])];
    let ics: Vec<String> = tasks.iter().map(ics).collect();
    let mut members = Table::new();
    members.insert("anna".to_string(), "Anna".to_string());
    members.insert("boris".to_string(), "Boris".to_string());
    let batch = TaskBatch {
        tasks,
        warnings: Vec::new(),
        members,
        account_holders: vec!["anna".into(), "boris".into()],
    };
    publish(&batch, "body".into(), &ics, Language::En, now())
}

fn request(method: &str, path: &str) -> Request {
    Request {
        method: method.into(),
        path: path.into(),
        depth: "1".into(),
        if_match: None,
        if_none_match: None,
        body: String::new(),
    }
}

fn header<'a>(answer: &'a Answer, name: &str) -> Option<&'a str> {
    answer.headers.iter().find(|(n, _)| n == name).map(|(_, v)| v.as_str())
}

fn at_tasks(request: &Request, key: &str, reader: &Reader) -> tasks::Step {
    let shown = snapshot();
    tasks::tasks_route(
        request,
        key,
        reader,
        &facade(),
        &Table::new(),
        &Outcome::Fresh(&shown),
        None,
    )
}

fn answered(step: tasks::Step) -> Answer {
    match step {
        tasks::Step::Answered(answer) => answer,
        _ => panic!("an answer was expected"),
    }
}

#[test]
fn who_is_let_in() {
    assert_eq!(admission("OPTIONS", false, false).unwrap().status, 200);
    assert_eq!(admission("PROPFIND", false, true).unwrap().status, 404);
    assert!(admission("PROPFIND", true, true).is_none());
    let bare = admission("GET", true, false).unwrap();
    assert_eq!((bare.status, bare.headers.len()), (401, 0));
    let challenged = admission("PROPFIND", true, false).unwrap();
    assert_eq!(
        header(&challenged, "www-authenticate"),
        Some("Basic realm=\"anytype\", charset=\"UTF-8\"")
    );
}

#[test]
fn a_request_is_routed_by_its_path() {
    let all = facade();
    assert!(matches!(handle("PROPFIND", "/dav/calendars/", &all), Route::Home));
    assert!(matches!(handle("GET", "/dav/calendars/tasks/x.ics", &all), Route::Tasks));
    assert!(matches!(handle("GET", "/dav/calendars/events/x.ics", &all), Route::Events));
    assert!(matches!(handle("PUT", "/dav/calendars/calino-settings/x.ics", &all), Route::Settings));
    assert!(matches!(handle("PROPPATCH", "/dav/calendars/tasks/", &all), Route::Rename));
    let status = |route: Route| match route {
        Route::Answered(answer) => answer.status,
        _ => 0,
    };
    assert_eq!(status(handle("PROPFIND", "/dav/", &all)), 207);
    assert_eq!(status(handle("PROPFIND", "/dav/principal/", &all)), 207);
    assert_eq!(status(handle("REPORT", "/dav/", &all)), 403);
    assert_eq!(status(handle("MKCALENDAR", "/dav/calendars/new/", &all)), 403);
    assert_eq!(status(handle("GET", "/dav/other/", &all)), 404);
    assert!(is_write("PUT") && !is_write("GET"));
}

#[test]
fn conditions_are_read_from_the_headers() {
    assert_eq!(if_match(&Some(" \"a\" ".into())).as_deref(), Some("\"a\""));
    assert_eq!(if_match(&None), None);
    assert!(if_none_match_any(&Some("*".into())));
    assert!(!if_none_match_any(&Some("\"a\"".into())));
}

#[test]
fn a_feed_that_is_not_there_is_answered_with_its_category() {
    let none = snapshot_in(&Outcome::Unavailable { category: "anytype unavailable" });
    let answer = none.err().unwrap();
    assert_eq!(answer.status, 503);
    assert!(answer.body.contains("anytype unavailable"));
}

#[test]
fn a_collection_is_listed_and_a_member_read() {
    let listing = answered(at_tasks(
        &request("PROPFIND", "/dav/calendars/tasks/"),
        "",
        &Reader::Shared,
    ));
    assert_eq!(listing.status, 207);
    assert!(listing.body.contains("/dav/calendars/tasks/t1.ics"));
    assert!(listing.body.contains("/dav/calendars/tasks/u~402.ics"));
    assert!(listing.body.contains(&escape(&snapshot().objects.get("t1").unwrap().etag)));

    let read = answered(at_tasks(
        &request("GET", "/dav/calendars/tasks/t1.ics"),
        "",
        &Reader::Shared,
    ));
    assert_eq!(read.status, 200);
    assert!(read.body.contains("SUMMARY:Task t1"), "{}", read.body);
    let etag = etag_for(&read.body);
    assert_eq!(header(&read, "etag"), Some(etag.as_str()));
    let head = answered(at_tasks(
        &request("HEAD", "/dav/calendars/tasks/t1.ics"),
        "",
        &Reader::Shared,
    ));
    assert_eq!((head.status, head.body.as_str()), (200, ""));
    let missing = answered(at_tasks(
        &request("GET", "/dav/calendars/tasks/none.ics"),
        "",
        &Reader::Shared,
    ));
    assert_eq!(missing.status, 404);

    let mut query = request("REPORT", "/dav/calendars/tasks/");
    query.body = "<c:calendar-query><c:comp-filter name=\"VTODO\"/></c:calendar-query>".into();
    let found = answered(at_tasks(&query, "", &Reader::Shared));
    assert!(found.body.contains("SUMMARY:Task t1"));
}

#[test]
fn a_shared_task_is_in_ones_own_calendar() {
    let key = collection_key("boris");
    let path = format!("/dav/calendars/tasks-{key}/");
    let listing = request("PROPFIND", &path);
    let as_boris = answered(at_tasks(&listing, &key, &Reader::Person("boris".into())));
    assert!(as_boris.body.contains("u~402.ics"), "{}", as_boris.body);
    // For everyone else the task is in the calendar of its first assignee alone.
    let as_shared = answered(at_tasks(&listing, &key, &Reader::Shared));
    assert!(!as_shared.body.contains("u~402.ics"));
}

#[test]
fn a_put_is_decided_on_the_task_as_it_is() {
    let put = at_tasks(&request("PUT", "/dav/calendars/tasks/t1.ics"), "", &Reader::Shared);
    assert!(matches!(put, tasks::Step::Put(name) if name == "t1"));

    let shown = snapshot();
    let located = tasks::locate(&shown, &Reader::Shared, "", "t1", None).unwrap();
    assert_eq!(located.object_id.as_deref(), Some("t1"));
    assert!(located.here);
    let current = task("t1", None, &[]);
    let etag = etag_for(&ics(&current));
    let body = ics(&current).replace("SUMMARY:Task t1", "SUMMARY:Renamed");
    let incoming = parse(&body).unwrap();
    let wire = wire(&current, &config());
    let decide = |expected: Option<&str>, none: bool| {
        let expected = expected.map(|e| e.to_string());
        tasks::put(&current, &wire, &etag, &located, &incoming, &expected, none, &config())
    };
    let patch = decide(Some(&etag), false).ok().unwrap();
    assert_eq!(patch.name.as_deref(), Some("Renamed"));
    assert!(patch.scheduled.is_none() && patch.done.is_none() && patch.assignees.is_none());
    assert_eq!(decide(Some("\"stale\""), false).err().unwrap().status, 412);
    assert_eq!(decide(None, true).err().unwrap().status, 412);
    assert_eq!(tasks::put_status(&located), 204);
    assert_eq!(header(&tasks::written(204, &Some(etag.clone())), "etag"), Some(etag.as_str()));
    assert!(tasks::written(204, &None).headers.is_empty());

    // What came unchanged changes nothing.
    let unchanged = parse(&ics(&current)).unwrap();
    let patch = tasks::put(&current, &wire, &etag, &located, &unchanged, &None, false, &config());
    assert!(patch.ok().unwrap().is_empty());

    assert_eq!(tasks::vanished(&Some(etag)).unwrap().status, 412);
    assert!(tasks::vanished(&None).is_none());
}

#[test]
fn a_moved_task_changes_hands() {
    let shown = snapshot();
    let key = collection_key("boris");
    let located = tasks::locate(&shown, &Reader::Shared, &key, "u~402", None).unwrap();
    assert!(!located.here);
    assert_eq!(located.served_by.as_deref(), Some("anna"));
    assert_eq!(located.member_id.as_deref(), Some("boris"));
    let current = task("t2", Some("u@2"), &["anna", "carol"]);
    let incoming = parse(&ics(&current)).unwrap();
    let wire = wire(&current, &config());
    let patch = tasks::put(&current, &wire, "x", &located, &incoming, &None, true, &config());
    assert_eq!(patch.ok().unwrap().assignees.unwrap(), ["boris", "carol"]);
    assert_eq!(tasks::put_status(&located), 201);
    // The DELETE of the old resource then finds it elsewhere.
    assert_eq!(tasks::begin_delete(&located).err().unwrap().status, 204);
    assert!(tasks::locate(&shown, &Reader::Shared, "nobody", "u~402", None).is_none());
    // A new name is found by the UID.
    let found = tasks::locate(&shown, &Reader::Shared, "", "other", Some("u@2")).unwrap();
    assert_eq!(found.object_id.as_deref(), Some("t2"));
}

#[test]
fn a_new_task_is_named_after_its_uid() {
    let incoming = parse(&ics(&task("n", Some("new@1"), &[]))).unwrap();
    let make = |name: &str, expected: Option<&str>, member: Option<&str>| {
        let expected = expected.map(|e| e.to_string());
        let member = member.map(|m| m.to_string());
        tasks::create(name, &expected, &incoming, &member, &config())
    };
    let (uid, patch) = make("new~401", None, Some("anna")).ok().unwrap();
    assert_eq!(uid, "new@1");
    assert_eq!(patch.name.as_deref(), Some("Task n"));
    assert_eq!(patch.assignees.unwrap(), ["anna"]);
    assert!(make("new~401", None, None).ok().unwrap().1.assignees.is_none());
    assert_eq!(make("elsewhere", None, None).err().unwrap().status, 403);
    assert_eq!(make("new~401", Some("\"a\""), None).err().unwrap().status, 412);

    let nameless = ics(&task("n", Some("new@1"), &[])).replace("UID:new@1\r\n", "");
    let nameless = parse(&nameless).unwrap();
    let refused = tasks::create("x", &None, &nameless, &None, &config());
    assert_eq!(refused.err().unwrap().status, 400);
}

#[test]
fn a_body_that_cannot_be_used_is_refused() {
    let status = |err: WriteError| tasks::accept_body(Err(err)).err().unwrap().status;
    assert_eq!(status(WriteError::NotCalendar("x".into())), 400);
    assert_eq!(status(WriteError::NoTodo), 403);
    assert_eq!(status(WriteError::Overrides(2)), 403);
    assert!(tasks::accept_body(parse(&ics(&task("a", None, &[])))).is_ok());
}

#[test]
fn deleting_ones_own_leaves_the_others() {
    let shown = snapshot();
    let current = task("t2", Some("u@2"), &["anna", "boris"]);
    let flat = tasks::locate(&shown, &Reader::Shared, "", "u~402", None).unwrap();
    assert_eq!(tasks::begin_delete(&flat).ok().unwrap(), "t2");
    assert!(matches!(
        tasks::delete(&current, "x", &flat, &None),
        Ok(tasks::Removal::Archive)
    ));
    assert_eq!(
        tasks::delete(&current, "x", &flat, &Some("y".into())).err().unwrap().status,
        412
    );
    let key = collection_key("anna");
    let annas = tasks::locate(&shown, &Reader::Shared, &key, "u~402", None).unwrap();
    match tasks::delete(&current, "x", &annas, &None) {
        Ok(tasks::Removal::Update(patch)) => assert_eq!(patch.assignees.unwrap(), ["boris"]),
        _ => panic!("the person leaves the task"),
    }
    let missing = tasks::locate(&shown, &Reader::Shared, "", "none", None).unwrap();
    assert_eq!(tasks::begin_delete(&missing).err().unwrap().status, 404);
}

#[test]
fn a_document_is_kept_as_it_arrives() {
    let path = "/dav/calendars/calino-settings/a.ics";
    let mut put = request("PUT", path);
    put.body = "BODY".into();
    let route = |request: &Request, current: Option<&str>| {
        let documents = Some(vec![("a".to_string(), "BODY".to_string())]);
        settings::settings_route(request, &documents, &current.map(|c| c.to_string()))
    };
    let status = |step: settings::Step| match step {
        settings::Step::Answered(answer) => answer.status,
        _ => 0,
    };
    match route(&put, None) {
        settings::Step::Put { name, answer } => {
            assert_eq!((name.as_str(), answer.status), ("a", 201));
            assert_eq!(header(&answer, "etag"), Some(etag_for("BODY").as_str()));
        }
        _ => panic!("the body is stored"),
    }
    put.if_match = Some("\"stale\"".into());
    assert_eq!(status(route(&put, Some("BODY"))), 412);
    put.if_match = Some(etag_for("BODY"));
    assert!(matches!(
        route(&put, Some("BODY")),
        settings::Step::Put { answer, .. } if answer.status == 204
    ));
    put.if_match = None;
    put.if_none_match = Some("*".into());
    assert_eq!(status(route(&put, Some("BODY"))), 412);
    put.if_none_match = None;
    put.body = "x".repeat(600_000);
    assert_eq!(status(route(&put, None)), 413);

    // What was stored is read back, under the tag that its write was answered with.
    match route(&request("GET", path), Some("BODY")) {
        settings::Step::Answered(answer) => {
            assert_eq!((answer.status, answer.body.as_str()), (200, "BODY"));
            assert_eq!(header(&answer, "etag"), Some(etag_for("BODY").as_str()));
        }
        _ => panic!("a document was expected"),
    }
    assert_eq!(status(route(&request("GET", path), None)), 404);
    assert!(matches!(
        route(&request("DELETE", path), None),
        settings::Step::Delete { name } if name == "a"
    ));
    assert_eq!(settings::deleted(Some(true)).status, 204);
    assert_eq!(settings::deleted(Some(false)).status, 404);
    assert_eq!(settings::deleted(None).status, 500);
    let listing = request("PROPFIND", "/dav/calendars/calino-settings/");
    match route(&listing, None) {
        settings::Step::Answered(answer) => {
            assert!(answer.body.contains("X-CALINO-SETTINGS-CALENDAR"));
            assert!(answer.body.contains(&escape(&etag_for("a:BODY"))));
        }
        _ => panic!("a listing was expected"),
    }
}

fn event(id: &str) -> Event {
    Event {
        object_id: id.into(),
        name: "Seminar".into(),
        start: AnytypeDate::parse("2026-08-30T06:00:00Z"),
        end: AnytypeDate::parse("2026-08-30T07:00:00Z"),
        location: None,
        tags: Vec::new(),
        reminder_names: Vec::new(),
        ical_uid: None,
        object_url: None,
        last_modified: None,
        rrule: None,
        exdates: Vec::new(),
        series: None,
        occurrence: None,
        deadline: AnytypeDate::parse("2026-08-29T14:00:00Z"),
    }
}

fn event_snapshot() -> EventSnapshot {
    snapshot_of(&vec![event("e1")], &config(), now())
}

fn at_events(request: &Request) -> on_events::Step {
    on_events::events_route(request, &facade(), &Table::new(), Ok(&event_snapshot()))
}

#[test]
fn events_are_served_and_written() {
    let shown = event_snapshot();
    assert_eq!(shown.objects.len(), 2);
    let entry = (0..2).map(|i| shown.objects.key(i).clone()).find(|k| k != "e1").unwrap();
    let listing = match at_events(&request("PROPFIND", "/dav/calendars/events/")) {
        on_events::Step::Answered(answer) => answer,
        _ => panic!("a listing was expected"),
    };
    assert!(listing.body.contains(&on_events::event_href("e1")));
    assert!(matches!(
        at_events(&request("PUT", "/dav/calendars/events/e1.ics")),
        on_events::Step::Put(name) if name == "e1"
    ));
    assert!(matches!(
        at_events(&request("DELETE", &on_events::event_href(&entry))),
        on_events::Step::DeleteDeadline(_)
    ));
    let failed = SourceError::Transport("x".into());
    let broken = on_events::events_route(
        &request("PROPFIND", "/dav/calendars/events/"),
        &facade(),
        &Table::new(),
        Err(&failed),
    );
    assert!(matches!(broken, on_events::Step::Answered(answer) if answer.status == 503));

    let body = &shown.objects.get("e1").unwrap().ics;
    let incoming = on_events::accept_body(parse_series(body)).ok().unwrap();
    let current = event("e1");
    let none = Vec::new();
    let etag = on_events::tag_of_event(&current, &none, &config(), now());
    assert_eq!(etag.as_deref(), Some(shown.objects.get("e1").unwrap().etag.as_str()));
    let put = |expected: &Option<String>, exists: bool| {
        on_events::put_event(&current, &none, &incoming, expected, exists, &config(), now())
    };
    let plan = put(&etag, false).ok().unwrap();
    assert!(plan.is_empty());
    assert!(on_events::apply_plan("e1", &plan).is_empty());
    assert_eq!(put(&Some("\"stale\"".into()), false).err().unwrap().status, 412);
    assert_eq!(put(&None, true).err().unwrap().status, 412);

    let renamed = parse_series(&body.replace("SUMMARY:Seminar", "SUMMARY:Moved")).ok().unwrap();
    let plan = on_events::put_event(&current, &none, &renamed, &etag, false, &config(), now());
    let plan = plan.ok().unwrap();
    match &on_events::apply_plan("e1", &plan)[..] {
        [on_events::Write::Update(id, patch)] => {
            assert_eq!(*id, "e1");
            assert_eq!(patch.name.as_deref(), Some("Moved"));
        }
        _ => panic!("one write was expected"),
    }
    assert_eq!(
        on_events::delete_event(&current, &none, &etag, &config(), now()).ok().unwrap(),
        ["e1"]
    );
    let answer = on_events::event_written(204, Some((&current, &none)), &config(), now());
    assert_eq!(header(&answer, "etag"), etag.as_deref());
    assert!(on_events::event_written(204, None, &config(), now()).headers.is_empty());
    assert_eq!(on_events::locate_event(&shown, "e1").as_deref(), Some("e1"));
    assert!(replacements_of("e1", &vec![event("e1")]).is_empty());
}

#[test]
fn a_deadline_entry_writes_the_deadline_alone() {
    let shown = event_snapshot();
    let entry = (0..2).find(|i| shown.objects.key(*i) != "e1").unwrap();
    let body = &shown.objects.value(entry).ics;
    assert!(body.contains("Seminar (deadline)"), "{body}");
    let patch = on_events::put_deadline(parse_event(body), &config()).ok().unwrap();
    assert_eq!(patch.deadline.unwrap().as_deref(), Some("2026-08-29T14:00:00Z"));
    assert!(patch.name.is_none() && patch.start.is_none());
    assert_eq!(on_events::delete_deadline().deadline, Some(None));
    let refused = on_events::put_deadline(parse_event("nonsense"), &config());
    assert_eq!(refused.err().unwrap().status, 400);
    let tag = on_events::tag_of_deadline(&event("e1"), &config(), now());
    assert_eq!(tag.as_deref(), Some(shown.objects.value(entry).etag.as_str()));
    assert!(on_events::deadline_owner(&event("e1"), &tag, &config(), now()).is_none());
    let stale = Some("\"stale\"".to_string());
    let refused = on_events::deadline_owner(&event("e1"), &stale, &config(), now());
    assert_eq!(refused.unwrap().status, 412);
}

#[test]
fn a_new_event_is_named_after_its_uid() {
    let mut new = event("x");
    new.ical_uid = Some("ev@1".into());
    let shown = snapshot_of(&vec![new], &config(), now());
    let body = &shown.objects.get("ev~401").unwrap().ics;
    let incoming = parse_series(body).ok().unwrap();
    let make = |name: &str, expected: &Option<String>| {
        on_events::create_event(name, expected, &incoming, &config())
    };
    let made = make("ev~401", &None).ok().unwrap();
    assert_eq!(made.uid, "ev@1");
    assert_eq!(made.master.name.as_deref(), Some("Seminar"));
    assert!(made.replacements.is_empty());
    assert_eq!(make("other", &None).err().unwrap().status, 403);
    assert_eq!(make("ev~401", &Some("\"a\"".into())).err().unwrap().status, 412);
    let mut patch = made.master;
    on_events::link_replacement(&mut patch, "e9");
    assert_eq!(patch.series.as_deref(), Some("e9"));
}

#[test]
fn the_home_lists_what_a_reader_sees() {
    let shown = snapshot();
    let documents = Some(Vec::new());
    let events = event_snapshot();
    let mut given = Table::new();
    given.insert("/dav/calendars/events/".to_string(), "My <events>".to_string());
    let home = home_set(&shown, &Reader::Shared, &facade(), &given, Some(&events), &documents);
    assert_eq!(home.status, 207);
    assert!(home.body.contains("My &lt;events&gt;"), "{}", home.body);
    assert!(home.body.contains(&format!("tasks-{}/", collection_key("anna"))));
    assert!(home.body.contains("calino-settings/"));
    assert!(home.body.contains("Unassigned"));
}
