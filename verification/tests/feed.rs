use anytype_caldav::feed::{
    calino_filename, collection_ctag, collection_key, etag_for, keep_distinct_uids, partition,
    publish, resource_name, resource_of, FeedState, Outcome, Refreshed, Snapshot,
};
use anytype_caldav::locale::Language;
use anytype_caldav::model::{Task, TaskBatch};
use anytype_caldav::source::SourceError;
use anytype_caldav::table::Table;
use anytype_caldav::time::{Instant, Span};

fn at(second: i64) -> Instant {
    Instant::new(second, 0).unwrap()
}

fn task(id: &str, uid: Option<&str>, assignees: &[&str]) -> Task {
    Task {
        object_id: id.into(),
        name: id.into(),
        scheduled: None,
        deadline: None,
        done: false,
        reminder_leads: Vec::new(),
        tags: Vec::new(),
        assignees: assignees.iter().map(|a| a.to_string()).collect(),
        ical_uid: uid.map(|u| u.to_string()),
        object_url: None,
        last_modified: None,
    }
}

fn batch(tasks: Vec<Task>, members: &[(&str, &str)], holders: &[&str]) -> TaskBatch {
    let mut table = Table::new();
    for (id, name) in members {
        table.insert(id.to_string(), name.to_string());
    }
    TaskBatch {
        tasks,
        warnings: Vec::new(),
        members: table,
        account_holders: holders.iter().map(|h| h.to_string()).collect(),
    }
}

fn published(batch: &TaskBatch) -> Snapshot {
    let ics: Vec<String> = batch.tasks.iter().map(|t| format!("ics of {}", t.object_id)).collect();
    publish(batch, "body".into(), &ics, Language::En, at(1000))
}

fn names<V>(table: &Table<V>) -> Vec<String> {
    (0..table.len()).map(|i| table.key(i).clone()).collect()
}

#[test]
fn a_tag_is_the_first_half_of_a_digest_in_quotes() {
    assert_eq!(etag_for(""), "\"e3b0c44298fc1c149afbf4c8996fb924\"");
    assert_eq!(etag_for("one"), "\"7692c3ad3540bb803c020b3aee66cd88\"");
    assert_eq!(collection_key("anna"), "55579b557896");
}

#[test]
fn a_calendars_tag_is_made_of_its_members_tags() {
    let mut objects = Table::new();
    assert_eq!(collection_ctag(&objects), etag_for(""));
    objects.insert("b".into(), resource_of("b", "two".into()));
    objects.insert("a".into(), resource_of("a", "one".into()));
    assert_eq!(collection_ctag(&objects), "\"551fb2378797ab4069f81bd5d0590904\"");
}

#[test]
fn a_resource_name_is_plain() {
    assert_eq!(calino_filename("A-b_9.c"), "A-b_9.c");
    assert_eq!(calino_filename("a@b/c"), "a~40b~2Fc");
    assert_eq!(calino_filename("é~!"), "~C3~A9~7E~21");
    assert_eq!(resource_name(&task("obj", None, &[])), "obj");
    assert_eq!(resource_name(&task("obj", Some("u@1"), &[])), "u~401");
}

#[test]
fn of_the_tasks_with_one_uid_one_is_served() {
    let original = task("obj", None, &[]);
    let own = original.uid();
    let mut tasks = vec![
        task("copy", Some(&own), &[]),
        original,
        task("x", Some("same"), &[]),
        task("y", Some("same"), &[]),
    ];
    keep_distinct_uids(&mut tasks);
    let left: Vec<&str> = tasks.iter().map(|t| t.object_id.as_str()).collect();
    // The original stays before its copy; of two copies the first listed does.
    assert_eq!(left, ["obj", "x"]);
}

#[test]
fn without_a_directory_there_is_one_calendar() {
    let batch = batch(vec![task("a", None, &["anna"])], &[], &[]);
    let shown = published(&batch);
    assert!(shown.collections.is_empty());
    assert_eq!(names(&shown.objects), ["a"]);
}

#[test]
fn each_task_is_in_the_calendar_of_its_first_assignee() {
    let batch = batch(
        vec![
            task("alone", None, &[]),
            task("annas", None, &["anna", "boris"]),
            task("strangers", Some("s@1"), &["carol"]),
        ],
        &[("anna", "Anna"), ("boris", "Boris"), ("dora", "Dora")],
        &["anna", "boris"],
    );
    let shown = published(&batch);

    let anna = shown.collections.get(&collection_key("anna")).unwrap();
    assert_eq!(anna.display_name, "Anna");
    assert_eq!(anna.member_id.as_deref(), Some("anna"));
    assert!(anna.account);
    assert_eq!(names(&anna.objects), ["annas"]);
    assert_eq!(anna.ctag, collection_ctag(&anna.objects));

    // A person who may sign in has a calendar with nothing in it; one whom the space
    // merely describes has none.
    let boris = shown.collections.get(&collection_key("boris")).unwrap();
    assert!(boris.objects.is_empty());
    assert!(!shown.collections.contains_key(&collection_key("dora")));

    // Anyone else whom a task names first has one all the same.
    let carol = shown.collections.get(&collection_key("carol")).unwrap();
    assert!(!carol.account);
    assert_eq!(names(&carol.objects), ["s~401"]);

    let nobody = shown.collections.get("unassigned").unwrap();
    assert_eq!(nobody.display_name, "Unassigned");
    assert_eq!(names(&nobody.objects), ["alone"]);
    assert_eq!(shown.collections.len(), 4);

    // Only a task with several people is shared.
    assert_eq!(names(&shown.shared), ["annas"]);
    assert_eq!(shown.shared.get("annas").unwrap(), &["anna", "boris"]);
    assert_eq!(shown.names_by_uid.get("s@1").unwrap(), "s~401");
    assert_eq!(shown.objects.get("s~401").unwrap().ics, "ics of strangers");
    assert_eq!(shown.objects.get("s~401").unwrap().object_id, "strangers");

    let russian = partition(&batch, &shown.objects, Language::Ru);
    assert_eq!(russian.get("unassigned").unwrap().display_name, "Без исполнителя");
}

#[test]
fn a_feed_was_modified_when_its_latest_task_was() {
    let mut first = task("a", None, &[]);
    first.last_modified = Some(at(20));
    let mut second = task("b", None, &[]);
    second.last_modified = Some(at(10));
    let shown = published(&batch(vec![first, second], &[], &[]));
    assert_eq!(shown.last_modified, at(20));
    assert_eq!(shown.etag, etag_for("body"));
    // With nothing to go by, the time of the refresh stands.
    let shown = published(&batch(vec![task("a", None, &[])], &[], &[]));
    assert_eq!(shown.last_modified, at(1000));
}

#[test]
fn a_failed_refresh_leaves_the_last_feed_in_place() {
    let interval = Span::new(1, 0).unwrap();
    let second: u64 = 1_000_000_000;
    let mut feed = FeedState::new();
    assert!(feed.cached_within_interval(0, &interval).is_none());
    assert!(matches!(
        feed.current_outcome(),
        Outcome::Unavailable { category: "anytype unavailable" }
    ));

    feed.refresh(Refreshed::Failed(SourceError::Schema("no".into())), second);
    assert!(feed.cached_within_interval(second, &interval).is_none());
    assert!(matches!(
        feed.current_outcome(),
        Outcome::Unavailable { category: "exporter misconfigured" }
    ));
    feed.refresh(Refreshed::Failed(SourceError::TooManyObjects("no".into())), second);
    assert_eq!(feed.last_failure_category, Some("source too large"));
    feed.refresh(Refreshed::Unrendered, second);
    assert_eq!(feed.last_failure_category, Some("exporter misconfigured"));

    let shown = published(&batch(vec![task("a", None, &[])], &[], &[]));
    feed.refresh(Refreshed::Read(shown), second);
    assert!(matches!(
        feed.cached_within_interval(second * 2 - 1, &interval),
        Some(Outcome::Fresh(_))
    ));
    assert!(feed.cached_within_interval(second * 2, &interval).is_none());

    feed.refresh(Refreshed::TimedOut, second * 2);
    assert!(matches!(feed.current_outcome(), Outcome::Stale(_)));
    assert!(matches!(
        feed.cached_within_interval(second * 2, &interval),
        Some(Outcome::Stale(_))
    ));
    feed.invalidate();
    assert!(feed.cached_within_interval(second * 2, &interval).is_none());
}

#[test]
fn an_error_is_shown_by_its_category_alone() {
    let err = SourceError::Transport("the key is hunter2".into());
    assert_eq!(err.public_category(), "anytype unavailable");
    assert!(err.message().ends_with("the key is hunter2"));
}

#[test]
fn a_table_stays_in_order() {
    let mut table = Table::new();
    for key in ["m", "a", "z", "k", "a", "b"] {
        table.insert(key.to_string(), key.len());
    }
    assert_eq!(names(&table), ["a", "b", "k", "m", "z"]);
    table.remove("k");
    assert_eq!(names(&table), ["a", "b", "m", "z"]);
}

#[test]
fn no_failure_serves_an_empty_calendar() {
    let failures = || {
        [
            Refreshed::Failed(SourceError::Transport("no".into())),
            Refreshed::TimedOut,
            Refreshed::Unrendered,
        ]
    };
    let mut feed = FeedState::new();
    for failure in failures() {
        feed.refresh(failure, 0);
        assert!(matches!(feed.current_outcome(), Outcome::Unavailable { .. }));
    }
    let shown = published(&batch(vec![task("a", None, &[])], &[], &[]));
    let body = shown.body.clone();
    feed.refresh(Refreshed::Read(shown), 1);
    for (failure, now) in failures().into_iter().zip(2..) {
        feed.refresh(failure, now);
        match feed.current_outcome() {
            Outcome::Stale(held) => assert_eq!(held.body, body),
            _ => panic!("what was published before"),
        }
    }
    // What is read is served, an empty space too.
    feed.refresh(Refreshed::Read(published(&TaskBatch::default())), 9);
    match feed.current_outcome() {
        Outcome::Fresh(read) => assert_eq!(read.objects.len(), 0),
        _ => panic!("what was read"),
    }
}
