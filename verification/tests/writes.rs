use anytype_caldav::caldav::auth::Reader;
use anytype_caldav::caldav::event_write::{
    self, begin_deadline, deadline_read, deadline_read_back, deadline_written, DeadlineStep,
    EventWrite,
};
use anytype_caldav::caldav::events as on_events;
use anytype_caldav::caldav::task_write::{Outcome, Step, TaskWrite};
use anytype_caldav::caldav::tasks::{locate, Located};
use anytype_caldav::caldav::xml::Answer;
use anytype_caldav::config::{CalendarConfig, RemindersConfig};
use anytype_caldav::event_changes::{parse_event, parse_series};
use anytype_caldav::events::{render_event, render_series, Event};
use anytype_caldav::feed::{can_publish, resource_for, snapshot_of_tasks};
use anytype_caldav::locale::Language;
use anytype_caldav::model::{AnytypeDate, Task, TaskBatch};
use anytype_caldav::render::render_one;
use anytype_caldav::source::SourceError;
use anytype_caldav::table::Table;
use anytype_caldav::time::{Instant, Span, Zone};
use anytype_caldav::writeback::{parse, Incoming};

fn config() -> CalendarConfig {
    CalendarConfig {
        timezone: Zone::parse("Europe/Saratov").unwrap(),
        name: "Tasks".into(),
        date_only_timezone: Zone::parse("Europe/Saratov").unwrap(),
        language: Language::En,
    }
}

fn reminders() -> RemindersConfig {
    RemindersConfig { enabled: false, lead_time: Span::new(1800, 0).unwrap(), all_day_time: 32400 }
}

fn now() -> Instant {
    Instant::new(1_788_000_000, 0).unwrap()
}

fn task(id: &str, uid: Option<&str>) -> Task {
    Task {
        object_id: id.into(),
        name: format!("Task {id}"),
        scheduled: AnytypeDate::parse("2026-08-30T06:00:00Z"),
        deadline: None,
        done: false,
        reminder_leads: Vec::new(),
        tags: Vec::new(),
        assignees: vec!["anna".into(), "boris".into()],
        ical_uid: uid.map(|u| u.to_string()),
        object_url: None,
        last_modified: None,
    }
}

fn header<'a>(answer: &'a Answer, name: &str) -> Option<&'a str> {
    answer.headers.iter().find(|(n, _)| n == name).map(|(_, v)| v.as_str())
}

fn tag(task: &Task) -> String {
    resource_for(task, &config(), &reminders(), now()).etag
}

fn incoming(task: &Task) -> Incoming {
    parse(&render_one(task, &config(), &reminders(), now())).unwrap()
}

fn located(object_id: Option<&str>, here: bool, member_id: Option<&str>) -> Located {
    Located {
        object_id: object_id.map(|id| id.to_string()),
        here,
        member_id: member_id.map(|id| id.to_string()),
        served_by: Some("anna".into()),
    }
}

fn take(write: &mut TaskWrite, outcome: Outcome) -> bool {
    write.take(&outcome, &config(), &reminders(), now())
}

fn failure() -> SourceError {
    SourceError::Transport("down".into())
}

fn answer(step: &Step) -> &Answer {
    match step {
        Step::Answer(answer) => answer,
        _ => panic!("an answer was expected"),
    }
}

#[test]
fn a_snapshot_is_made_of_what_keeps_its_uid() {
    let batch = TaskBatch {
        tasks: vec![task("a", None), task("b", Some("u@1")), task("c", Some("u@1"))],
        warnings: Vec::new(),
        members: Table::new(),
        account_holders: Vec::new(),
    };
    let shown = snapshot_of_tasks(batch, &config(), &reminders(), now(), now());
    assert_eq!(shown.objects.len(), 2);
    assert_eq!(shown.objects.get("u~401").unwrap().object_id, "b");
    assert_eq!(shown.body.matches("BEGIN:VTODO").count(), 2);
    assert!(!shown.body.contains("Task c"));
    let again = TaskBatch {
        tasks: vec![task("a", None), task("b", Some("u@1")), task("c", Some("u@1"))],
        warnings: Vec::new(),
        members: Table::new(),
        account_holders: Vec::new(),
    };
    let again = snapshot_of_tasks(again, &config(), &reminders(), now(), now());
    assert_eq!((again.body, again.etag), (shown.body.clone(), shown.etag.clone()));
    // The tag that is listed is that of a fresh read.
    assert_eq!(shown.objects.get("a").unwrap().etag, tag(&task("a", None)));
    let fresh = resource_for(&task("b", Some("u@1")), &config(), &reminders(), now());
    assert_eq!(shown.objects.get("u~401").unwrap().ics, fresh.ics);
    assert_eq!(fresh.object_id, "b");
    let found = locate(&shown, &Reader::Shared, "", "a", None).unwrap();
    assert_eq!(found.object_id.as_deref(), Some("a"));
}

#[test]
fn a_copy_that_is_left_out_need_not_be_written() {
    let mut copy = task("b", Some("u@1"));
    copy.name = "\u{a0}".repeat(150);
    assert!(can_publish(&vec![task("a", Some("u@1")), copy], Language::Ru));
    let mut kept = task("b", Some("u@1"));
    kept.name = "\u{a0}".repeat(150);
    assert!(!can_publish(&vec![kept, task("a", Some("u@1"))], Language::Ru));
    assert!(can_publish(&vec![task("a", None), task("b", None)], Language::Ru));
}

#[test]
fn a_put_of_what_is_there_writes_nothing() {
    let held = task("a", None);
    let here = located(Some("a"), true, None);
    let expected = Some(tag(&held));
    let mut write =
        TaskWrite::put("a".into(), here, incoming(&held), expected, false, &config());
    assert!(matches!(&write.step, Step::Read(id) if id == "a"));
    // An outcome that a read cannot have changes nothing.
    assert!(!take(&mut write, Outcome::Stored));
    assert!(matches!(&write.step, Step::Read(_)));
    assert!(!take(&mut write, Outcome::Read(Some(task("a", None)))));
    assert!(matches!(&write.step, Step::ReadBack(id, 204) if id == "a"));
    assert!(!take(&mut write, Outcome::Read(Some(task("a", None)))));
    assert_eq!(answer(&write.step).status, 204);
    assert_eq!(header(answer(&write.step), "etag"), Some(tag(&held).as_str()));
    assert!(!take(&mut write, Outcome::Failed(failure())));
    assert_eq!(answer(&write.step).status, 204);
}

#[test]
fn a_changed_task_is_updated_and_read_back() {
    let mut renamed = task("a", None);
    renamed.name = "Renamed".into();
    let begin = || {
        let here = located(Some("a"), true, None);
        TaskWrite::put("a".into(), here, incoming(&renamed), None, false, &config())
    };
    let mut write = begin();
    take(&mut write, Outcome::Read(Some(task("a", None))));
    match &write.step {
        Step::Update(id, patch, 204) => {
            assert_eq!(id, "a");
            assert_eq!(patch.name.as_deref(), Some("Renamed"));
        }
        _ => panic!("an update was expected"),
    }
    assert!(take(&mut write, Outcome::Stored));
    assert!(matches!(&write.step, Step::ReadBack(id, 204) if id == "a"));
    // The write happened even where it cannot be read back.
    assert!(!take(&mut write, Outcome::Failed(failure())));
    assert_eq!(answer(&write.step).status, 204);
    assert_eq!(header(answer(&write.step), "etag"), None);

    let mut write = begin();
    take(&mut write, Outcome::Read(Some(task("a", None))));
    assert!(!take(&mut write, Outcome::Failed(failure())));
    assert_eq!(answer(&write.step).status, 503);
    let mut write = begin();
    assert!(!take(&mut write, Outcome::Failed(SourceError::Schema("x".into()))));
    assert_eq!(answer(&write.step).status, 500);
}

#[test]
fn a_stale_put_is_refused() {
    let here = || located(Some("a"), true, None);
    let stale = Some("\"stale\"".to_string());
    let sent = || incoming(&task("a", None));
    let mut write = TaskWrite::put("a".into(), here(), sent(), stale.clone(), false, &config());
    assert!(!take(&mut write, Outcome::Read(Some(task("a", None)))));
    assert_eq!(answer(&write.step).status, 412);
    let mut write = TaskWrite::put("a".into(), here(), sent(), None, true, &config());
    take(&mut write, Outcome::Read(Some(task("a", None))));
    assert_eq!(answer(&write.step).body, "resource exists");
    // One that is gone is not made again under a condition.
    let mut write = TaskWrite::put("a".into(), here(), sent(), stale, false, &config());
    assert!(take(&mut write, Outcome::Read(None)));
    assert_eq!(answer(&write.step).body, "resource no longer exists");
}

#[test]
fn a_task_that_is_gone_or_new_is_made() {
    let sent = || incoming(&task("x", Some("u@1")));
    let mut write = TaskWrite::put(
        "u~401".into(),
        located(Some("x"), true, Some("anna")),
        sent(),
        None,
        false,
        &config(),
    );
    assert!(take(&mut write, Outcome::Read(None)));
    match &write.step {
        Step::Create(uid, patch) => {
            assert_eq!(uid, "u@1");
            assert_eq!(patch.assignees, Some(vec!["anna".to_string()]));
        }
        _ => panic!("a new task was expected"),
    }
    assert!(take(&mut write, Outcome::Created("y".into())));
    assert!(matches!(&write.step, Step::ReadBack(id, 201) if id == "y"));
    assert!(!take(&mut write, Outcome::Read(None)));
    assert_eq!(answer(&write.step).status, 201);

    let new = TaskWrite::put(
        "u~401".into(),
        located(None, false, None),
        sent(),
        Some("\"a\"".into()),
        false,
        &config(),
    );
    assert_eq!(answer(&new.step).body, "resource does not exist");
    let elsewhere =
        TaskWrite::put("b".into(), located(None, false, None), sent(), None, false, &config());
    assert_eq!(answer(&elsewhere.step).status, 403);
}

#[test]
fn a_put_in_another_calendar_moves_the_task() {
    let held = task("a", None);
    let there = located(Some("a"), false, Some("clara"));
    let mut write = TaskWrite::put("a".into(), there, incoming(&held), None, true, &config());
    take(&mut write, Outcome::Read(Some(task("a", None))));
    match &write.step {
        Step::Update(_, patch, 201) => assert_eq!(
            patch.assignees,
            Some(vec!["clara".to_string(), "boris".to_string()])
        ),
        _ => panic!("a move was expected"),
    }
}

#[test]
fn a_delete_archives_or_leaves() {
    let mut write = TaskWrite::delete("a".into(), located(Some("a"), true, None), None);
    take(&mut write, Outcome::Read(Some(task("a", None))));
    assert!(matches!(&write.step, Step::Archive(id) if id == "a"));
    assert!(take(&mut write, Outcome::Stored));
    assert_eq!(answer(&write.step).status, 204);

    let mut write = TaskWrite::delete("a".into(), located(Some("a"), true, Some("anna")), None);
    take(&mut write, Outcome::Read(Some(task("a", None))));
    match &write.step {
        Step::Leave(id, patch) => {
            assert_eq!(id, "a");
            assert_eq!(patch.assignees, Some(vec!["boris".to_string()]));
        }
        _ => panic!("an update was expected"),
    }
    assert!(!take(&mut write, Outcome::Failed(failure())));
    assert_eq!(answer(&write.step).status, 503);

    let mut gone = TaskWrite::delete("a".into(), located(Some("a"), true, None), None);
    assert!(take(&mut gone, Outcome::Read(None)));
    assert_eq!(answer(&gone.step).status, 404);
    let moved = TaskWrite::delete("a".into(), located(Some("a"), false, None), None);
    assert_eq!(answer(&moved.step).status, 204);
    let unknown = TaskWrite::delete("a".into(), located(None, false, None), None);
    assert_eq!(answer(&unknown.step).status, 404);
    let stale = Some("\"stale\"".to_string());
    let mut write = TaskWrite::delete("a".into(), located(Some("a"), true, None), stale);
    take(&mut write, Outcome::Read(Some(task("a", None))));
    assert_eq!(answer(&write.step).status, 412);
}

// ------------------------------------------------------------------ events

fn event(id: &str, name: &str) -> Event {
    Event {
        object_id: id.into(),
        name: name.into(),
        start: AnytypeDate::parse("2026-08-30T06:00:00Z"),
        end: AnytypeDate::parse("2026-08-30T07:00:00Z"),
        location: None,
        tags: Vec::new(),
        reminder_names: Vec::new(),
        ical_uid: Some("ev@1".into()),
        object_url: None,
        last_modified: None,
        rrule: None,
        exdates: Vec::new(),
        series: None,
        occurrence: None,
        deadline: None,
    }
}

fn weekly() -> Event {
    let mut master = event("m", "Seminar");
    master.rrule = Some("FREQ=WEEKLY".into());
    master
}

fn replaced(id: &str, name: &str, day: &str) -> Event {
    let mut one = event(id, name);
    one.ical_uid = None;
    one.start = AnytypeDate::parse(&format!("{day}T08:00:00Z"));
    one.end = AnytypeDate::parse(&format!("{day}T09:00:00Z"));
    one.series = Some("m".into());
    one.occurrence = AnytypeDate::parse(&format!("{day}T06:00:00Z"));
    one
}

fn on_event(write: &mut EventWrite, outcome: event_write::Outcome) -> bool {
    write.take(outcome, &config(), now())
}

fn answer_of(step: &event_write::Step) -> &Answer {
    match step {
        event_write::Step::Answer(answer) => answer,
        _ => panic!("an answer was expected"),
    }
}

#[test]
fn an_event_is_updated_only_where_it_changed() {
    let held = event("m", "Seminar");
    let body = render_event(&held, &config(), now()).unwrap();
    let put = |body: &str, expected: Option<String>| {
        let sent = parse_series(body).unwrap();
        EventWrite::put("ev~401".into(), Some("m".into()), sent, expected, false, &config())
    };
    let read = || event_write::Outcome::Read(Some((event("m", "Seminar"), Vec::new())));
    let etag = on_events::tag_of_event(&held, &Vec::new(), &config(), now());

    let mut same = put(&body, etag.clone());
    assert!(matches!(&same.step, event_write::Step::Read(id) if id == "m"));
    assert!(!on_event(&mut same, read()));
    assert!(matches!(&same.step, event_write::Step::ReadBack(id) if id == "m"));
    assert!(!on_event(&mut same, read()));
    assert_eq!(answer_of(&same.step).status, 204);
    assert_eq!(header(answer_of(&same.step), "etag"), etag.as_deref());

    let mut renamed = put(&body.replace("Seminar", "Lecture"), None);
    assert!(!on_event(&mut renamed, read()));
    assert!(matches!(renamed.step, event_write::Step::Write(0)));
    match renamed.write_at(0) {
        on_events::Write::Update(id, patch) => {
            assert_eq!(id, "m");
            assert_eq!(patch.name.as_deref(), Some("Lecture"));
        }
        _ => panic!("an update was expected"),
    }
    assert!(on_event(&mut renamed, event_write::Outcome::Stored));
    assert!(!on_event(&mut renamed, event_write::Outcome::Read(None)));
    assert_eq!(answer_of(&renamed.step).status, 204);
    assert_eq!(header(answer_of(&renamed.step), "etag"), None);

    let mut stale = put(&body, Some("\"stale\"".into()));
    on_event(&mut stale, read());
    assert_eq!(answer_of(&stale.step).status, 412);
    let mut gone = put(&body, Some("\"stale\"".into()));
    assert!(on_event(&mut gone, event_write::Outcome::Read(None)));
    assert_eq!(answer_of(&gone.step).body, "resource no longer exists");
    let mut broken = put(&body, None);
    assert!(!on_event(&mut broken, event_write::Outcome::Failed(failure())));
    assert_eq!(answer_of(&broken.step).status, 503);
}

#[test]
fn a_new_series_is_made_with_what_replaces_its_occurrences() {
    let one = replaced("r1", "Moved", "2026-09-06");
    let other = replaced("r2", "Also moved", "2026-09-13");
    let body = render_series(&weekly(), &vec![&one, &other], &config(), now()).unwrap();
    let begin = |name: &str, expected: Option<String>| {
        let sent = parse_series(&body).unwrap();
        EventWrite::put(name.into(), None, sent, expected, false, &config())
    };
    let mut write = begin("ev~401", None);
    match &write.step {
        event_write::Step::Create(uid, patch) => {
            assert_eq!(uid, "ev@1");
            assert_eq!(patch.name.as_deref(), Some("Seminar"));
        }
        _ => panic!("a new event was expected"),
    }
    assert!(!on_event(&mut write, event_write::Outcome::Created("new".into())));
    for at in 0..2 {
        assert!(matches!(write.step, event_write::Step::Write(n) if n == at));
        match write.write_at(at) {
            on_events::Write::CreateReplacement(patch) => {
                assert_eq!(patch.series.as_deref(), Some("new"));
                assert!(patch.occurrence.is_some());
            }
            _ => panic!("a replacement was expected"),
        }
        assert_eq!(on_event(&mut write, event_write::Outcome::Stored), at == 1);
    }
    assert!(matches!(&write.step, event_write::Step::ReadBack(id) if id == "new"));
    on_event(&mut write, event_write::Outcome::Failed(failure()));
    assert_eq!(answer_of(&write.step).status, 201);

    let mut broken = begin("ev~401", None);
    on_event(&mut broken, event_write::Outcome::Created("new".into()));
    assert!(on_event(&mut broken, event_write::Outcome::Failed(failure())));
    assert_eq!(answer_of(&broken.step).status, 503);
    let mut refused = begin("ev~401", None);
    assert!(!on_event(&mut refused, event_write::Outcome::Failed(failure())));
    assert_eq!(answer_of(&refused.step).status, 503);
    assert_eq!(answer_of(&begin("other", None).step).status, 403);
    assert_eq!(answer_of(&begin("ev~401", Some("\"a\"".into())).step).status, 412);
}

#[test]
fn a_single_new_event_is_read_back_at_once() {
    let body = render_event(&event("m", "Seminar"), &config(), now()).unwrap();
    let sent = parse_series(&body).unwrap();
    let mut write =
        EventWrite::put("ev~401".into(), Some("m".into()), sent, None, false, &config());
    // It vanished since it was listed.
    assert!(on_event(&mut write, event_write::Outcome::Read(None)));
    assert!(matches!(&write.step, event_write::Step::Create(uid, _) if uid == "ev@1"));
    assert!(on_event(&mut write, event_write::Outcome::Created("new".into())));
    assert!(matches!(&write.step, event_write::Step::ReadBack(id) if id == "new"));
}

#[test]
fn a_series_is_archived_with_what_replaces_its_occurrences() {
    let read = || {
        let replacements = vec![replaced("r1", "Moved", "2026-09-06")];
        event_write::Outcome::Read(Some((weekly(), replacements)))
    };
    let mut write = EventWrite::delete("ev~401".into(), Some("m".into()), None);
    assert!(!on_event(&mut write, read()));
    for (at, id) in ["r1", "m"].iter().enumerate() {
        assert!(matches!(write.step, event_write::Step::Write(n) if n == at));
        assert!(matches!(write.write_at(at), on_events::Write::Archive(gone) if gone == *id));
        assert_eq!(on_event(&mut write, event_write::Outcome::Stored), at == 1);
    }
    assert_eq!(answer_of(&write.step).status, 204);

    let mut broken = EventWrite::delete("ev~401".into(), Some("m".into()), None);
    on_event(&mut broken, read());
    assert!(on_event(&mut broken, event_write::Outcome::Failed(failure())));
    assert_eq!(answer_of(&broken.step).status, 503);
    let unknown = EventWrite::delete("ev~401".into(), None, None);
    assert_eq!(answer_of(&unknown.step).status, 404);
    let mut gone = EventWrite::delete("ev~401".into(), Some("m".into()), None);
    assert!(on_event(&mut gone, event_write::Outcome::Read(None)));
    assert_eq!(answer_of(&gone.step).status, 404);
}

// ------------------------------------------------------------------ deadlines

fn owner() -> Event {
    let mut one = event("m", "Seminar");
    one.deadline = AnytypeDate::parse("2026-08-29T14:00:00Z");
    one
}

fn deadline_answer(step: DeadlineStep) -> Answer {
    match step {
        DeadlineStep::Answer(answer) => answer,
        _ => panic!("an answer was expected"),
    }
}

#[test]
fn a_deadline_is_moved_or_cleared() {
    assert_eq!(deadline_answer(begin_deadline(None)).status, 404);
    assert!(matches!(begin_deadline(Some("m".into())), DeadlineStep::Read(id) if id == "m"));
    let body = render_event(&event("m", "Seminar"), &config(), now()).unwrap();
    let tag = on_events::tag_of_deadline(&owner(), &config(), now());
    let read = |moved: bool, expected: &Option<String>| {
        let parsed = if moved { Some(parse_event(&body)) } else { None };
        deadline_read(&Ok(Some(owner())), parsed, expected, &config(), now())
    };
    match read(true, &tag) {
        (DeadlineStep::Update(id, patch), false) => {
            assert_eq!(id, "m");
            assert_eq!(patch.deadline.unwrap().as_deref(), Some("2026-08-30T06:00:00Z"));
        }
        _ => panic!("an update was expected"),
    }
    match read(false, &None) {
        (DeadlineStep::Update(_, patch), false) => assert_eq!(patch.deadline, Some(None)),
        _ => panic!("an update was expected"),
    }
    assert_eq!(deadline_answer(read(true, &Some("\"stale\"".into())).0).status, 412);
    let nonsense = Some(parse_event("nonsense"));
    let (refused, _) = deadline_read(&Ok(Some(owner())), nonsense, &None, &config(), now());
    assert_eq!(deadline_answer(refused).status, 400);
    let (gone, forget) = deadline_read(&Ok(None), None, &None, &config(), now());
    assert!(forget && deadline_answer(gone).status == 404);
    let (broken, forget) = deadline_read(&Err(failure()), None, &None, &config(), now());
    assert!(!forget && deadline_answer(broken).status == 503);

    let (next, forget) = deadline_written(&Ok(()), "m", true);
    assert!(forget && matches!(next, DeadlineStep::ReadBack(id) if id == "m"));
    let (next, forget) = deadline_written(&Ok(()), "m", false);
    assert!(forget && deadline_answer(next).status == 204);
    let (next, forget) = deadline_written(&Err(failure()), "m", true);
    assert!(!forget && deadline_answer(next).status == 503);
    let back = deadline_read_back(&Ok(Some(owner())), &config(), now());
    assert_eq!(header(&back, "etag"), tag.as_deref());
    assert!(deadline_read_back(&Ok(None), &config(), now()).headers.is_empty());
}
