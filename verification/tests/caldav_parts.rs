use anytype_caldav::caldav::auth::{Credentials, Reader};
use anytype_caldav::caldav::names::{rename, Rename};
use anytype_caldav::caldav::paths::{
    collection_path, href_for, is_calendar, normalize, object_id, tasks_key,
};
use anytype_caldav::caldav::xml::{escape, options, prop_text, report_kind, unescape, Report};
use base64::Engine;

fn basic(user: &str, password: &str) -> String {
    let token = base64::engine::general_purpose::STANDARD.encode(format!("{user}:{password}"));
    format!("Basic {token}")
}

fn exact_credentials() {
    let credentials = Credentials::new("me", "s3cret:with:colons");
    assert!(credentials.accepts(Some(&basic("me", "s3cret:with:colons"))));
    assert!(!credentials.accepts(Some(&basic("me", "s3cret"))));
    assert!(!credentials.accepts(Some(&basic("you", "s3cret:with:colons"))));
    assert!(!credentials.accepts(None));
}

#[test]
fn caldav_only_the_exact_credentials_are_accepted() {
    exact_credentials();
}

#[test]
fn auth_only_the_exact_credentials_are_accepted() {
    exact_credentials();
}

/// Calino's own bodies, from `CalDAVClient.ts` and tsdav's calendar-query.
fn reports() {
    let todo = r#"<c:calendar-query xmlns:d="DAV:" xmlns:c="urn:ietf:params:xml:ns:caldav"><d:prop><d:getetag/><c:calendar-data/></d:prop><c:filter><c:comp-filter name="VCALENDAR"><c:comp-filter name="VTODO"/></c:comp-filter></c:filter></c:calendar-query>"#;
    let event = todo.replace("VTODO", "VEVENT");
    let sync = r#"<D:sync-collection xmlns:D="DAV:"><D:sync-token/><D:sync-level>1</D:sync-level></D:sync-collection>"#;
    assert_eq!(report_kind(todo), Report::TasksOnly);
    assert_eq!(report_kind("<c:calendar-query/>"), Report::Tasks);
    assert_eq!(report_kind(&event), Report::EventsOnly);
    assert_eq!(report_kind(sync), Report::SyncCollection);
}

#[test]
fn caldav_reports_are_classified_by_their_text() {
    reports();
}

#[test]
fn xml_reports_are_classified_by_their_text() {
    reports();
}

fn plain_ids() {
    assert_eq!(object_id("/dav/calendars/tasks/bafyreiabc123.ics"), Some(("", "bafyreiabc123")));
    assert_eq!(object_id("/dav/calendars/tasks/../x.ics"), None);
    assert_eq!(
        object_id("/dav/calendars/tasks/0b9a4f2c-5d1e-4c3a-9f7e-2a6b8c1d0e3f.ics"),
        Some(("", "0b9a4f2c-5d1e-4c3a-9f7e-2a6b8c1d0e3f"))
    );
    assert_eq!(object_id("/dav/calendars/tasks/.ics"), None);
    assert_eq!(object_id("/dav/calendars/tasks/abc"), None);
}

#[test]
fn caldav_only_plain_object_ids_are_resources() {
    plain_ids();
}

#[test]
fn paths_only_plain_object_ids_are_resources() {
    plain_ids();
}

fn grouped_keys() {
    assert_eq!(tasks_key("/dav/calendars/tasks/"), Some(""));
    assert_eq!(tasks_key("/dav/calendars/tasks-a1b2c3d4e5f6/"), Some("a1b2c3d4e5f6"));
    assert_eq!(tasks_key("/dav/calendars/tasks-unassigned/"), Some("unassigned"));
    assert_eq!(tasks_key("/dav/calendars/tasks-a1b2"), None);
    assert_eq!(tasks_key("/dav/calendars/tasks-/"), None);
    assert_eq!(tasks_key("/dav/calendars/events/"), None);
    // A key with a path behind it names no collection and no resource, so both the
    // collection arms and the member arms miss it.
    assert_eq!(object_id("/dav/calendars/tasks-a1b2/../x.ics"), None);
    assert_eq!(
        object_id("/dav/calendars/tasks-unassigned/bafyreiabc123.ics"),
        Some(("unassigned", "bafyreiabc123"))
    );
}

#[test]
fn caldav_a_grouped_collection_carries_its_key() {
    grouped_keys();
}

#[test]
fn paths_a_grouped_collection_carries_its_key() {
    grouped_keys();
}

fn escaped_data() {
    let prop = prop_text("c:calendar-data", "SUMMARY:Tom & Jerry <3");
    assert_eq!(prop, "<c:calendar-data>SUMMARY:Tom &amp; Jerry &lt;3</c:calendar-data>");
}

#[test]
fn caldav_calendar_data_is_escaped() {
    escaped_data();
}

#[test]
fn xml_calendar_data_is_escaped() {
    escaped_data();
}

#[test]
fn what_is_escaped_reads_back() {
    let words = "a < b && \"c\" > 'd'";
    assert_eq!(unescape(&escape(words)), words);
    assert_ne!(escape(words), words);
}

#[test]
fn malformed_credentials_name_nobody() {
    let credentials = Credentials::new("me", "secret");
    assert!(!credentials.accepts(Some("Basic ???")));
    assert!(!credentials.accepts(Some("Bearer bWU6c2VjcmV0")));
    // The pair without a colon.
    assert!(!credentials.accepts(Some("Basic bWU=")));
    assert!(credentials.accepts(Some("Basic bWU6c2VjcmV0")));
}

#[test]
fn the_shared_pair_is_nobody_in_particular() {
    let credentials = Credentials::new("me", "secret").with_accounts("accounts");
    assert_eq!(credentials.reader(Some(&basic("me", "secret")), None), Some(Reader::Shared));
    assert_eq!(credentials.reader(Some(&basic("you", "secret")), None), None);
}

#[test]
fn readers_keep_their_settings_apart() {
    let ann = Reader::Person("ann".to_string());
    let bob = Reader::Person("bob".to_string());
    assert_ne!(ann.settings_storage(), bob.settings_storage());
    assert_ne!(ann.settings_storage(), Reader::Shared.settings_storage());
    assert_ne!(ann.names_storage(), ann.settings_storage());
}

#[test]
fn paths_lead_there_and_back() {
    assert_eq!(collection_path(""), "/dav/calendars/tasks/");
    assert_eq!(collection_path("abc"), "/dav/calendars/tasks-abc/");
    assert_eq!(tasks_key(&collection_path("abc")), Some("abc"));
    assert_eq!(href_for("abc", "x"), "/dav/calendars/tasks-abc/x.ics");
    assert_eq!(object_id(&href_for("abc", "x")), Some(("abc", "x")));
    assert!(is_calendar("/dav/calendars/events/"));
    assert!(is_calendar("/dav/calendars/tasks-abc/"));
    assert!(!is_calendar("/dav/calendars/settings/"));
    assert_eq!(normalize("/dav/calendars/tasks"), "/dav/calendars/tasks/");
    assert_eq!(normalize("/dav/calendars/tasks/x.ics"), "/dav/calendars/tasks/x.ics");
}

#[test]
fn what_is_offered_is_said_in_headers() {
    let answer = options();
    assert_eq!(answer.status, 200);
    assert!(answer.headers.iter().any(|(name, value)| name == "dav" && value == "1, 3, calendar-access"));
    assert!(answer.headers.iter().any(|(name, _)| name == "allow"));
}

#[test]
fn a_rename_takes_the_name_out_of_the_body() {
    let body = "<d:propertyupdate><d:set><d:prop><d:displayname>Work &amp; home</d:displayname></d:prop></d:set></d:propertyupdate>";
    match rename("/dav/calendars/tasks/", body) {
        Rename::Keep(name, answer) => {
            assert_eq!(name, "Work & home");
            assert_eq!(answer.status, 207);
        }
        _ => panic!("a rename is kept"),
    }
    assert!(matches!(rename("/dav/calendars/tasks/", "<d:displayname/>"), Rename::Clear(_)));
    match rename("/dav/calendars/tasks/", "<d:color>red</d:color>") {
        Rename::Refused(answer) => assert_eq!(answer.status, 403),
        _ => panic!("only a name can be changed"),
    }
}
