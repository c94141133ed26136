use anytype_caldav::caldav::auth::Reader;
use anytype_caldav::caldav::xml::Answer;
use anytype_caldav::capture::{anytype_date, midnight};
use anytype_caldav::config::CalendarConfig;
use anytype_caldav::feed::{calino_filename, etag_for, resource_of, Outcome, Snapshot};
use anytype_caldav::http::{
    authorized_subscribe, authorized_test, begin_capture, can_answer, capture_failed,
    continue_capture, feed_response, healthz, log_level, not_modified, push_disabled, push_subscribe,
    redact, routes,
    subscription_stored, test_notification, todos, todos_preflight, uuid_like, Capture, CaptureStep,
    Endpoint, Level,
};
use anytype_caldav::locale::Language;
use anytype_caldav::push::{BrowserSubscription, SubscriptionKeys};
use anytype_caldav::source::SourceError;
use anytype_caldav::table::Table;
use anytype_caldav::time::{Day, Instant, Zone};
use sha2::Digest;

fn config() -> CalendarConfig {
    CalendarConfig {
        timezone: Zone::parse("Europe/Saratov").unwrap(),
        name: "t".into(),
        date_only_timezone: Zone::parse("Europe/Saratov").unwrap(),
        language: Language::En,
    }
}

#[test]
fn the_secret_prefix_never_reaches_the_log() {
    let feed = "/f/0123456789abcdef/todos.ics";
    assert_eq!(redact(feed, feed), "/[secret]/todos.ics");
    assert_eq!(redact("/f/0123456789abcdef/push/subscribe", feed), "/[secret]/push/subscribe");
    assert_eq!(redact("/healthz", feed), "/healthz");
    for line in [redact(feed, feed), redact("/f/0123456789abcdef/push/key", feed)] {
        assert!(!line.contains("0123456789abcdef"), "{line}");
    }
}

#[test]
fn a_root_feed_path_has_nothing_to_hide() {
    assert_eq!(redact("/todos.ics", "/todos.ics"), "/todos.ics");
}

#[test]
fn an_instant_keeps_its_moment_and_a_day_becomes_the_whole_day() {
    assert_eq!(
        anytype_date("2026-09-17T18:00:00+04:00", &config()).as_deref(),
        Some("2026-09-17T14:00:00Z")
    );
    // Local midnight, which is how Anytype stores a whole day.
    assert_eq!(anytype_date("2026-09-17", &config()).as_deref(), Some("2026-09-16T20:00:00Z"));
    assert_eq!(anytype_date("завтра", &config()), None);
    // The years that a date can have.
    let far = anytype_date("+260000-01-01", &config());
    assert_eq!(far.as_deref(), Some("+259999-12-31T20:00:00Z"));
    let last = anytype_date("+262142-12-31", &config());
    assert_eq!(last.as_deref(), Some("+262142-12-30T20:00:00Z"));
    assert_eq!(anytype_date("+262143-01-01", &config()), None);
}

#[test]
fn a_day_begins_at_midnight_of_the_calendar() {
    let day = anytype_caldav::time::parse_day("2026-09-17").unwrap();
    let at = midnight(day, &config()).unwrap();
    assert_eq!(at.seconds(), 1_789_588_800);
    assert_eq!(Day::new(day.number()), Some(day));
}

fn snapshot() -> Snapshot {
    let mut objects = Table::new();
    objects.insert(
        calino_filename("known@capture.anytype-task-exporter"),
        resource_of("obj", "BEGIN:VCALENDAR".to_string()),
    );
    Snapshot {
        body: "BEGIN:VCALENDAR\r\n".to_string(),
        etag: etag_for("BEGIN:VCALENDAR\r\n"),
        last_modified: Instant::new(784_111_777, 500_000_000).unwrap(),
        objects,
        collections: Table::new(),
        names_by_uid: Table::new(),
        shared: Table::new(),
    }
}

fn header<'a>(answer: &'a Answer, name: &str) -> Option<&'a str> {
    answer.headers.iter().find(|(n, _)| n == name).map(|(_, value)| value.as_str())
}

fn some(text: &str) -> Option<String> {
    Some(text.to_string())
}

#[test]
fn the_feed_is_sent_with_its_validators() {
    let snapshot = snapshot();
    let answer = feed_response(&snapshot, false);
    assert_eq!(answer.status, 200);
    assert_eq!(answer.body, snapshot.body);
    assert_eq!(header(&answer, "content-type"), Some("text/calendar; charset=utf-8"));
    assert_eq!(header(&answer, "content-disposition"), Some("inline; filename=\"todos.ics\""));
    assert_eq!(header(&answer, "cache-control"), Some("no-cache"));
    assert_eq!(header(&answer, "etag"), Some(snapshot.etag.as_str()));
    assert_eq!(header(&answer, "last-modified"), Some("Sun, 06 Nov 1994 08:49:37 GMT"));
    assert_eq!(header(&answer, "x-exporter-stale"), None);
    assert_eq!(header(&feed_response(&snapshot, true), "x-exporter-stale"), Some("true"));
}

#[test]
fn either_validator_is_honoured() {
    let s = snapshot();
    assert!(not_modified(&some(&s.etag), &None, &s));
    assert!(not_modified(&some(&format!("\"other\", {}", s.etag)), &None, &s));
    assert!(not_modified(&some("*"), &None, &s));
    assert!(!not_modified(&some("\"other\""), &None, &s));
    let date = some("Sun, 06 Nov 1994 08:49:37 GMT");
    assert!(not_modified(&None, &date, &s));
    assert!(not_modified(&None, &some("Sunday, 06-Nov-94 08:49:38 GMT"), &s));
    assert!(!not_modified(&None, &some("Sun, 06 Nov 1994 08:49:36 GMT"), &s));
    assert!(!not_modified(&None, &some("yesterday"), &s));
    // The tag goes before the date.
    assert!(!not_modified(&some("\"other\""), &date, &s));
    assert!(!not_modified(&None, &None, &s));
}

#[test]
fn a_matching_validator_gets_no_body_unless_the_feed_is_stale() {
    let s = snapshot();
    let tag = some(&s.etag);
    let fresh = todos(&Outcome::Fresh(&s), &tag, &None, &None, &vec![]);
    assert_eq!(fresh.status, 304);
    assert_eq!(fresh.body, "");
    let stale = todos(&Outcome::Stale(&s), &tag, &None, &None, &vec![]);
    assert_eq!(stale.status, 200);
    assert_eq!(stale.body, s.body);
    assert_eq!(header(&stale, "x-exporter-stale"), Some("true"));
    let gone = todos(
        &Outcome::Unavailable { category: "anytype unavailable" },
        &tag,
        &None,
        &None,
        &vec![],
    );
    assert_eq!(gone.status, 503);
    assert_eq!(gone.body, "feed unavailable: anytype unavailable\n");
}

#[test]
fn only_a_configured_origin_may_read() {
    let s = snapshot();
    let allowed = vec!["https://calino.io".to_string()];
    let ask = |origin: Option<String>| todos(&Outcome::Fresh(&s), &None, &None, &origin, &allowed);
    let answer = ask(some("https://calino.io"));
    assert_eq!(header(&answer, "access-control-allow-origin"), Some("https://calino.io"));
    assert_eq!(header(&answer, "access-control-expose-headers"), Some("ETag, X-Exporter-Stale"));
    assert_eq!(header(&answer, "vary"), Some("Origin"));
    for origin in [some("https://evil.example"), some("*"), None] {
        assert_eq!(header(&ask(origin), "access-control-allow-origin"), None);
    }
    let preflight = todos_preflight(&some("https://calino.io"), &allowed, true);
    assert_eq!(preflight.status, 204);
    assert_eq!(header(&preflight, "access-control-allow-origin"), Some("https://calino.io"));
    assert_eq!(header(&preflight, "access-control-allow-methods"), Some("GET, OPTIONS"));
    assert_eq!(header(&preflight, "access-control-max-age"), Some("600"));
    assert_eq!(header(&preflight, "access-control-allow-private-network"), Some("true"));
    let quiet = todos_preflight(&None, &allowed, false);
    assert_eq!(header(&quiet, "access-control-allow-private-network"), None);
}

#[test]
fn what_is_served_depends_on_what_is_configured() {
    let paths = |push, dav, writer| {
        routes("/f/token/todos.ics", push, dav, writer)
            .into_iter()
            .map(|(path, _)| path)
            .collect::<Vec<_>>()
    };
    assert_eq!(paths(false, false, true), vec!["/f/token/todos.ics", "/healthz"]);
    assert_eq!(
        paths(true, false, false),
        vec![
            "/f/token/todos.ics",
            "/healthz",
            "/f/token/push/key",
            "/f/token/push/subscribe",
            "/f/token/push/test"
        ]
    );
    let all = routes("/todos.ics", true, true, true);
    assert!(all.contains(&("/push/subscribe".to_string(), Endpoint::SignedSubscribe)));
    assert!(all.contains(&("/capture".to_string(), Endpoint::Capture)));
    assert!(all.contains(&("/dav/{*rest}".to_string(), Endpoint::Dav)));
}

#[test]
fn requests_are_logged_by_their_weight() {
    assert_eq!(log_level(503, "/healthz"), Level::Warn);
    assert_eq!(log_level(200, "/healthz"), Level::Debug);
    assert_eq!(log_level(404, "/x"), Level::Info);
    assert_eq!(healthz().body, "ok");
}

fn subscription() -> BrowserSubscription {
    BrowserSubscription {
        endpoint: "https://push.example/1".to_string(),
        keys: SubscriptionKeys { p256dh: "p".to_string(), auth: "a".to_string() },
    }
}

#[test]
fn a_subscription_belongs_to_who_signed_in() {
    let person = Some(Reader::Person("ann".to_string()));
    let stored = authorized_subscribe(&person, Some(subscription()), true).ok().unwrap();
    assert_eq!(stored.person.as_deref(), Some("ann"));
    assert_eq!(stored.subscription, subscription());
    let shared = authorized_subscribe(&Some(Reader::Shared), Some(subscription()), true);
    assert_eq!(shared.ok().unwrap().person, None);
    // Who is not signed in learns nothing of the body.
    assert_eq!(authorized_subscribe(&None, None, true).err().unwrap().status, 401);
    assert_eq!(authorized_subscribe(&person, None, true).err().unwrap().status, 422);
    let off = authorized_subscribe(&person, Some(subscription()), false).err().unwrap();
    assert_eq!((off.status, off.body.as_str()), (404, "push is disabled"));
    assert_eq!(push_subscribe(subscription(), true).ok().unwrap().person, None);
    assert_eq!(push_subscribe(subscription(), false).err().unwrap().status, 404);
    assert_eq!(subscription_stored(true).status, 204);
    assert_eq!(subscription_stored(false).body, "cannot store subscription");
}

#[test]
fn a_test_goes_where_the_reminders_go() {
    assert_eq!(authorized_test(&None, true).err().unwrap().status, 401);
    assert_eq!(authorized_test(&Some(Reader::Shared), true).ok().unwrap(), None);
    let person = Some(Reader::Person("ann".to_string()));
    assert_eq!(authorized_test(&person, true).ok().unwrap().as_deref(), Some("ann"));
    assert_eq!(authorized_test(&person, false).err().unwrap().status, 404);
    let said = test_notification(Language::Ru);
    assert_eq!(said.title, "Anytype");
    assert_eq!(said.tag.as_deref(), Some("test"));
}

fn capture(text: &str, due: Option<&str>, id: Option<&str>) -> Capture {
    Capture {
        text: text.to_string(),
        due: due.map(str::to_string),
        id: id.map(str::to_string),
        tags: vec!["inbox".to_string()],
    }
}

#[test]
fn a_captured_thought_becomes_a_task() {
    let thought = capture(" Buy milk ", Some(" 2026-09-17 "), Some(" 42 "));
    let taken = Some(thought);
    let pending = begin_capture(true, true, &taken, 7).ok().unwrap();
    assert_eq!(pending.uid, "42@capture.anytype-task-exporter");
    assert_eq!(pending.name, "Buy milk");
    let s = snapshot();
    match continue_capture(&pending, taken.as_ref().unwrap(), &Outcome::Fresh(&s), &config()) {
        CaptureStep::Create(uid, patch) => {
            assert_eq!(uid, pending.uid);
            assert_eq!(patch.name.as_deref(), Some("Buy milk"));
            assert_eq!(patch.done, Some(false));
            assert_eq!(patch.scheduled, Some(Some("2026-09-16T20:00:00Z".to_string())));
            assert_eq!(patch.deadline, None);
            assert_eq!(patch.tags, Some(vec!["inbox".to_string()]));
        }
        _ => panic!("a task is to be made"),
    }
}

#[test]
fn a_thought_that_is_known_is_not_written_again() {
    let taken = Some(capture("Buy milk", Some("never"), Some("known")));
    let pending = begin_capture(true, true, &taken, 7).ok().unwrap();
    let s = snapshot();
    match continue_capture(&pending, taken.as_ref().unwrap(), &Outcome::Stale(&s), &config()) {
        CaptureStep::Written(object_id) => assert_eq!(object_id, "obj"),
        _ => panic!("it was written before"),
    }
}

#[test]
fn a_capture_is_refused_in_order() {
    let status = |authorized, writable, taken: Option<Capture>| {
        begin_capture(authorized, writable, &taken, 0).err().map(|a| (a.status, a.body))
    };
    assert_eq!(status(false, false, None), Some((401, String::new())));
    assert_eq!(status(true, false, None), Some((404, "capture is disabled".to_string())));
    assert_eq!(status(true, true, None), Some((422, "expected {\"text\": …}".to_string())));
    assert_eq!(
        status(true, true, Some(capture("  ", None, None))),
        Some((422, "text is empty".to_string()))
    );
    let taken = Some(capture("x", Some("завтра"), None));
    let pending = begin_capture(true, true, &taken, 0).ok().unwrap();
    match continue_capture(
        &pending,
        taken.as_ref().unwrap(),
        &Outcome::Unavailable { category: "x" },
        &config(),
    ) {
        CaptureStep::Refused(answer) => {
            assert_eq!((answer.status, answer.body.as_str()), (422, "due is not a date"));
        }
        _ => panic!("the date cannot be read"),
    }
    let failed = capture_failed(&SourceError::Transport("secret".to_string()));
    assert_eq!((failed.status, failed.body.as_str()), (503, "anytype unavailable"));
}

#[test]
fn words_without_an_id_are_the_same_within_a_minute() {
    let digest = sha2::Sha256::digest("29:Buy milk".as_bytes());
    let expected: String = digest[..16].iter().map(|b| format!("{b:02x}")).collect();
    assert_eq!(uuid_like("Buy milk", 29), expected);
    assert_ne!(uuid_like("Buy milk", 29), uuid_like("Buy milk", 30));
    let taken = Some(capture("Buy milk", None, Some("  ")));
    let pending = begin_capture(true, true, &taken, 29).ok().unwrap();
    assert_eq!(pending.uid, format!("{expected}@capture.anytype-task-exporter"));
}

#[test]
fn answers_in_words_say_that_they_are_text() {
    let plain = Some("text/plain; charset=utf-8");
    assert_eq!(header(&healthz(), "content-type"), plain);
    assert_eq!(header(&push_disabled(), "content-type"), plain);
    assert_eq!(header(&subscription_stored(true), "content-type"), plain);
    assert_eq!(header(&subscription_stored(false), "content-type"), plain);
    let failed = capture_failed(&SourceError::Schema("x".into()));
    assert_eq!(header(&failed, "content-type"), plain);
    let none = &None;
    let away = Outcome::Unavailable { category: "anytype unavailable" };
    let answer = todos(&away, none, none, none, &Vec::new());
    assert_eq!(header(&answer, "content-type"), plain);
    let unread = begin_capture(true, true, &None, 0).err().unwrap();
    assert_eq!(header(&unread, "content-type"), plain);
    let off = begin_capture(true, false, &None, 0).err().unwrap();
    assert_eq!(header(&off, "content-type"), plain);
    let refused = authorized_subscribe(&Some(Reader::Shared), None, true).err().unwrap();
    assert_eq!(header(&refused, "content-type"), plain);
    // A status alone says nothing.
    let anonymous = begin_capture(false, true, &None, 0).err().unwrap();
    assert_eq!(header(&anonymous, "content-type"), None);
    let shown = snapshot();
    let current = todos(&Outcome::Fresh(&shown), &Some(shown.etag.clone()), none, none, &Vec::new());
    assert_eq!(current.status, 304);
    assert_eq!(header(&current, "content-type"), None);
}

#[test]
fn what_is_not_sent_needs_no_date() {
    let mut shown = snapshot();
    shown.last_modified = Instant::new(-1, 0).unwrap();
    let known = Some(shown.etag.clone());
    assert!(can_answer(&Outcome::Fresh(&shown), &known, &None));
    assert!(!can_answer(&Outcome::Fresh(&shown), &None, &None));
    assert!(!can_answer(&Outcome::Stale(&shown), &known, &None));
    let answer = todos(&Outcome::Fresh(&shown), &known, &None, &None, &Vec::new());
    assert_eq!(answer.status, 304);
}
