use anytype_caldav::anytype_source::{
    assignees_to_write, creation_name, creation_properties, get_task, list_tasks, live_objects,
    normalize_assignees, observed, patch_properties, pick_only_space, property_id, property_key,
    read_directory, resolve_property, tags_to_write, to_task, unresolved, verify_schema,
    within_limit, Field, Member,
};
use anytype_caldav::config::{AnytypeConfig, PropertiesConfig, PropertySelector};
use anytype_caldav::event_source::{option_ids, Choice};
use anytype_caldav::install::Existing;
use anytype_caldav::object::{Format, Object, Property, PropertyValue, Setting, Tag};
use anytype_caldav::source::SourceError;
use anytype_caldav::table::Table;
use anytype_caldav::time::Span;
use anytype_caldav::writeback::Patch;

fn key(name: &str) -> PropertySelector {
    PropertySelector::Key(name.into())
}

fn properties() -> PropertiesConfig {
    PropertiesConfig {
        scheduled: key("scheduled"),
        deadline: key("due_date"),
        done: key("done"),
        reminder: Some(key("reminder_lead")),
        tags: Some(key("tag")),
        assignee: Some(key("assignee")),
    }
}

fn property(key: &str, value: PropertyValue) -> Property {
    Property { id: format!("id_{key}"), key: key.into(), name: key.into(), value }
}

fn date(key: &str, date: &str) -> Property {
    property(key, PropertyValue::Date { date: date.into() })
}

fn tags(key: &str, names: &[&str]) -> Property {
    let multi_select = names.iter().map(|n| Tag { id: n.to_string(), name: n.to_string() }).collect();
    property(key, PropertyValue::MultiSelect { multi_select })
}

fn objects(key: &str, ids: &[&str]) -> Property {
    let objects = ids.iter().map(|i| i.to_string()).collect();
    property(key, PropertyValue::Objects { objects })
}

fn object(id: &str, properties: Vec<Property>) -> Object {
    Object {
        id: id.into(),
        name: Some("Name".into()),
        snippet: None,
        archived: false,
        link: String::new(),
        icon: None,
        properties,
    }
}

fn existing(id: &str, key: &str) -> Existing {
    Existing { id: id.into(), key: key.into(), name: key.into(), format: Format::Date }
}

fn schema_error<T>(read: Result<T, SourceError>) -> String {
    match read {
        Err(SourceError::Schema(why)) => why,
        _ => panic!("a schema error was expected"),
    }
}

#[test]
fn only_one_space_goes_without_saying() {
    let space = |id: &str, name: &str| (id.to_string(), name.to_string());
    assert_eq!(pick_only_space(vec![space("1", "Home")]), Ok(space("1", "Home")));
    let none = pick_only_space(vec![]).unwrap_err();
    assert!(none.starts_with("anytype.space_id is not set"), "{none}");
    assert_eq!(
        pick_only_space(vec![space("1", "Home"), space("2", "Work")]).unwrap_err(),
        "anytype.space_id is not set and the account is a member of 2 spaces; set it to one of: \
         Home (1), Work (2)"
    );
}

#[test]
fn a_property_is_chosen_by_its_key_or_id() {
    let all = vec![date("a", "x"), date("b", "y")];
    assert_eq!(resolve_property(&all, &key("b"), "done").unwrap().unwrap().key, "b");
    let id = PropertySelector::Id("id_a".into());
    assert_eq!(resolve_property(&all, &id, "done").unwrap().unwrap().key, "a");
    assert!(resolve_property(&all, &key("c"), "done").unwrap().is_none());

    let mut twice = vec![date("a", "x"), date("a", "y")];
    twice[1].id = "other".into();
    twice[1].name = "A \"b\"".into();
    assert_eq!(
        schema_error(resolve_property(&twice, &key("a"), "done")),
        "properties.done = \"key:a\" is ambiguous: it matches id:id_a (name \"a\") and id:other \
         (name \"A \\\"b\\\"\"); select one by id instead"
    );
}

#[test]
fn an_object_is_read_as_a_task() {
    let mut whole = object(
        "obj",
        vec![
            date("scheduled", "2026-08-30T06:00:00Z"),
            date("due_date", "2026-08-31T00:00:00+04:00"),
            property("done", PropertyValue::Checkbox { checkbox: true }),
            tags("reminder_lead", &["1h", " 30m "]),
            tags("tag", &["home", "urgent"]),
            objects("assignee", &["anna", "boris"]),
            property("ical_uid", PropertyValue::Text { text: "u1".into() }),
            date("last_modified_date", "2026-08-29T01:02:03Z"),
        ],
    );
    whole.link = "https://object.any.coop/obj".into();
    let mut warnings = Vec::new();
    let task = to_task(&whole, &properties(), &mut warnings).unwrap();
    assert_eq!(warnings, Vec::<String>::new());
    assert_eq!(task.object_id, "obj");
    assert_eq!(task.name, "Name");
    assert_eq!(task.scheduled.unwrap().raw, "2026-08-30T06:00:00Z");
    assert_eq!(task.deadline.unwrap().offset, 4 * 3600);
    assert!(task.done);
    let lead = |seconds: u64| Span::new(seconds, 0).unwrap();
    assert_eq!(task.reminder_leads, vec![lead(3600), lead(1800)]);
    assert_eq!(task.tags, ["home", "urgent"]);
    assert_eq!(task.assignees, ["anna", "boris"]);
    assert_eq!(task.ical_uid.as_deref(), Some("u1"));
    assert!(task.last_modified.is_some());
}

#[test]
fn what_cannot_be_read_is_warned_of() {
    let odd = object(
        "obj",
        vec![
            date("scheduled", "soon"),
            property("due_date", PropertyValue::Text { text: "x".into() }),
            property("done", PropertyValue::Checkbox { checkbox: false }),
            tags("reminder_lead", &["whenever"]),
            date("tag", "x"),
            date("assignee", "x"),
        ],
    );
    let mut warnings = Vec::new();
    let task = to_task(&odd, &properties(), &mut warnings).unwrap();
    assert!(task.scheduled.is_none() && task.deadline.is_none());
    assert!(task.reminder_leads.is_empty() && task.tags.is_empty() && task.assignees.is_empty());
    assert_eq!(
        warnings,
        [
            "object obj has an unparseable scheduled date \"soon\"; treated as absent",
            "object obj has deadline of format Text, expected a date; treated as absent",
            "object obj has reminder option \"whenever\", which is not a duration like \"30m\" or \
             \"1d\"; ignored",
            "object obj has tags of format Date, expected a select; tags omitted",
            "object obj has assignee of format Date, expected objects; assignees omitted",
        ]
    );

    let wrong = object("obj", vec![date("done", "x")]);
    assert_eq!(
        schema_error(to_task(&wrong, &properties(), &mut Vec::new())),
        "properties.done = \"key:done\" resolves to a Date property, expected a checkbox"
    );
    let mut nameless = object("obj", vec![]);
    nameless.name = None;
    assert_eq!(to_task(&nameless, &properties(), &mut Vec::new()).unwrap().name, "(unnamed)");
}

#[test]
fn a_selector_that_names_nothing_is_an_error() {
    let with_done = object("a", vec![property("done", PropertyValue::Checkbox { checkbox: false })]);
    let all = vec![&with_done];
    let missing = unresolved(&all, &properties()).unwrap();
    assert_eq!(missing, [Field::Scheduled, Field::Deadline]);
    // What the space has is merely filled in nowhere.
    let space = vec![existing("1", "scheduled"), existing("2", "due_date")];
    assert!(verify_schema(&missing, &properties(), &space, &all, "task").is_ok());
    let space = vec![existing("1", "scheduled")];
    assert_eq!(
        schema_error(verify_schema(&missing, &properties(), &space, &all, "task")),
        "properties.deadline = \"key:due_date\" did not match any property on type task; 1 \
         properties were observed and logged"
    );
    assert_eq!(observed(&all).len(), 1);
}

fn people() -> (Vec<Object>, Vec<Member>) {
    let mut anna = object("anna", vec![objects("links", &["_participant_a", "page"])]);
    anna.name = Some("Anna".into());
    let mut gone = object("gone", vec![objects("links", &["_participant_g"])]);
    gone.archived = true;
    let member = |id: &str, active: bool| Member {
        id: id.into(),
        name: format!("member {id}"),
        active,
    };
    let members = vec![
        member("_participant_a", true),
        member("_participant_b", true),
        member("_participant_c", false),
    ];
    (vec![anna, gone], members)
}

#[test]
fn a_person_has_one_id_however_they_are_addressed() {
    let (objects_of_people, members) = people();
    let directory = read_directory(&objects_of_people, &members);
    assert_eq!(directory.names.get("anna").unwrap(), "Anna");
    assert_eq!(directory.names.get("_participant_b").unwrap(), "member _participant_b");
    assert_eq!(directory.names.len(), 2);
    assert_eq!(directory.profiles_by_participant.get("_participant_a").unwrap(), "anna");
    // A membership that is no longer active lets nobody in.
    assert_eq!(directory.account_holders, ["anna"]);

    let assigned = object("t", vec![objects("assignee", &["_participant_a", "anna", "x"])]);
    let batch = list_tasks(&vec![&assigned], &properties(), Some(directory)).unwrap();
    assert_eq!(batch.tasks[0].assignees, ["anna", "anna", "x"]);
    assert_eq!(batch.account_holders, ["anna"]);

    let mut task = to_task(&assigned, &properties(), &mut Vec::new()).unwrap();
    normalize_assignees(&mut task, &Table::new());
    assert_eq!(task.assignees, ["_participant_a", "anna", "x"]);
}

#[test]
fn an_archived_object_is_no_task() {
    let mut archived = object("a", vec![]);
    archived.archived = true;
    let all = vec![archived, object("b", vec![])];
    let live = live_objects(&all);
    assert_eq!(live.len(), 1);
    assert_eq!(live[0].id, "b");
    let read = |object: &Object| get_task(object, &properties(), &Table::new(), &mut Vec::new());
    assert!(read(&all[0]).unwrap().is_none());
    assert_eq!(read(&all[1]).unwrap().unwrap().object_id, "b");
}

#[test]
fn too_large_a_space_is_an_error() {
    let config = AnytypeConfig {
        url: "http://localhost".into(),
        space_id: "s".into(),
        type_key: "task".into(),
        max_objects: 2,
    };
    assert!(within_limit(1, &config).is_ok());
    match within_limit(2, &config) {
        Err(SourceError::TooManyObjects(why)) => {
            assert_eq!(why, "space s holds more than max_objects = 2 objects of type task")
        }
        _ => panic!("the limit was reached"),
    }
}

#[test]
fn a_patch_writes_what_it_holds() {
    let patch = Patch {
        name: Some("New".into()),
        done: Some(true),
        scheduled: Some(None),
        deadline: Some(Some("2026-08-30T06:00:00Z".into())),
        tags: Some(vec!["home".into()]),
        assignees: Some(vec!["anna".into()]),
    };
    let done = Setting::Checkbox { key: "done".into(), checkbox: true };
    let scheduled = Setting::Date { key: "scheduled".into(), date: None };
    let deadline =
        Setting::Date { key: "due_date".into(), date: Some("2026-08-30T06:00:00Z".into()) };
    let expected = vec![done, scheduled, deadline];
    assert_eq!(patch_properties(&patch), expected);
    let made = creation_properties("u1", &patch);
    assert_eq!(made[0], Setting::Text { key: "ical_uid".into(), text: "u1".into() });
    assert_eq!(made[1..], expected[..]);

    let config = properties();
    let (names, selector) = tags_to_write(&patch, &config).unwrap();
    assert_eq!((names.len(), selector.text()), (1, "key:tag".to_string()));
    let (ids, selector) = assignees_to_write(&patch, &config).unwrap();
    assert_eq!((ids.len(), selector.text()), (1, "key:assignee".to_string()));
    let bare = PropertiesConfig { tags: None, assignee: None, ..properties() };
    assert!(tags_to_write(&patch, &bare).is_none());
    assert!(assignees_to_write(&patch, &bare).is_none());
}

#[test]
fn a_property_is_written_by_its_key() {
    let space = vec![existing("1", "tag"), existing("2", "other")];
    assert_eq!(property_key(&key("any"), "tags", &vec![]).unwrap(), "any");
    let id = |id: &str| PropertySelector::Id(id.into());
    assert_eq!(property_key(&id("2"), "tags", &space).unwrap(), "other");
    assert_eq!(
        schema_error(property_key(&id("3"), "tags", &space)),
        "tags property 3 not found"
    );
    assert_eq!(property_id("tag", &space).unwrap(), "1");
    assert_eq!(schema_error(property_id("x", &space)), "space has no x property");
}

#[test]
fn an_option_is_chosen_by_its_name_or_made() {
    let option = |id: &str, name: &str| Tag { id: id.into(), name: name.into() };
    let options = vec![option("1", " home "), option("2", "home"), option("3", "work")];
    let names = vec!["home".to_string(), "new".to_string()];
    assert_eq!(
        option_ids(&options, &names),
        [Choice::Taken("1".into()), Choice::Made("new".into())]
    );
}

#[test]
fn a_new_task_has_a_name() {
    let mut patch = Patch::default();
    assert_eq!(creation_name(&patch), "(unnamed)");
    patch.name = Some("x".into());
    assert_eq!(creation_name(&patch), "x");
}
