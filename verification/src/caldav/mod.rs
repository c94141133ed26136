//! The CalDAV facade: which collection a path addresses, what a reader is
//! offered, and what every request is answered.
//!
//! Layout, all under `/dav/`:
//!
//! - `/dav/`                        → `current-user-principal`
//! - `/dav/principal/`              → `calendar-home-set`
//! - `/dav/calendars/`              → the collections
//! - `/dav/calendars/tasks/`        → collection properties, REPORT
//! - `/dav/calendars/tasks/<id>.ics` → one task
//! - `/dav/calendars/tasks-<key>/`  → the same, for one assignee's tasks
//! - `/dav/calendars/events/`       → events
//! - `/dav/calendars/events/<id>.ics` → one event
//! - `/dav/calendars/calino-settings/` → the client's own documents
use vstd::prelude::*;

use crate::events::EventSnapshot;
use crate::feed;
use crate::feed::{Outcome, Snapshot};
use crate::locale::Language;
use crate::source::SourceError;
use crate::text;
use crate::text::Text;
use xml::{Answer, AnswerView};

pub mod answers;
pub mod auth;
pub mod event_write;
pub mod events;
pub mod home;
pub mod names;
pub mod paths;
pub mod settings;
pub mod task_write;
pub mod tasks;
pub mod writes;
pub mod xml;

verus! {

pub const BASE: &'static str = "/dav/";

pub const PRINCIPAL: &'static str = "/dav/principal/";

pub const HOME: &'static str = "/dav/calendars/";

pub const TASKS: &'static str = "/dav/calendars/tasks/";

/// One calendar per assignee lives beside the flat one, under a key.
pub const TASKS_PREFIX: &'static str = "/dav/calendars/tasks-";

pub const EVENTS: &'static str = "/dav/calendars/events/";

/// The calendar app keeps its own settings in a calendar of its own.
pub const SETTINGS: &'static str = "/dav/calendars/calino-settings/";

/// Where the names a reader gave the calendars are kept.
pub const NAMES: &'static str = "names/";

pub const REALM: &'static str = "anytype";

/// What the collections are called unless a reader renamed them.
#[derive(Debug, Clone)]
pub struct CalendarNames {
    pub tasks: String,
    pub events: String,
}

impl CalendarNames {
    pub fn for_language(language: Language) -> (r: CalendarNames)
        ensures
            r.tasks@ == "Anytype"@,
            r.events@ == (match language {
                Language::En => "Events"@,
                Language::Ru => "События"@,
            }),
    {
        CalendarNames { tasks: "Anytype".to_owned(), events: language.events().to_owned() }
    }
}

impl Default for CalendarNames {
    fn default() -> (r: CalendarNames)
        ensures
            r.tasks@ == "Anytype"@,
            r.events@ == "Events"@,
    {
        CalendarNames::for_language(Language::En)
    }
}

/// What is answered while there is nothing to serve. A client retries a 5xx and drops
/// a change on 4xx.
pub open spec fn unavailable_answer(category: Text) -> AnswerView {
    xml::headed(503, "retry-after"@, "30"@, category)
}

pub fn unavailable(category: &str) -> (r: Answer)
    ensures
        r@ == unavailable_answer(category@),
{
    xml::with_header(503, "retry-after", "30", category)
}

/// What a failed call of the space is answered. Transport problems are 503 so that a
/// client keeps the change queued and retries; a schema problem will not heal by
/// retrying.
pub open spec fn failure_answer(err: SourceError) -> AnswerView {
    match err {
        SourceError::Transport(_) => unavailable_answer("anytype unavailable"@),
        SourceError::TooManyObjects(_) => unavailable_answer("anytype unavailable"@),
        SourceError::Schema(_) => xml::bare(500),
    }
}

pub fn source_failure(err: &SourceError) -> (r: Answer)
    ensures
        r@ == failure_answer(*err),
{
    match err {
        SourceError::Transport(_) => unavailable("anytype unavailable"),
        SourceError::TooManyObjects(_) => unavailable("anytype unavailable"),
        SourceError::Schema(_) => xml::status(500),
    }
}

/// What a request is answered whose condition does not hold.
pub open spec fn failed_condition(reason: Text) -> AnswerView {
    xml::plain_answer(412, reason)
}

pub fn precondition_failed(reason: &str) -> (r: Answer)
    ensures
        r@ == failed_condition(reason@),
{
    xml::with_body(412, reason)
}

/// The tag that `If-Match` names; `*` names none.
pub open spec fn expected_tag(header: Option<Text>) -> Option<Text> {
    match header {
        Some(value) => if text::trimmed(value) == "*"@ {
            None
        } else {
            Some(text::trimmed(value))
        },
        None => None,
    }
}

pub fn if_match(header: &Option<String>) -> (r: Option<String>)
    ensures
        text::text_of(r) == expected_tag(text::text_of(*header)),
{
    match header {
        Some(value) => {
            let value = text::trim(value.as_str());
            if text::same(value, "*") {
                None
            } else {
                Some(value.to_owned())
            }
        },
        None => None,
    }
}

/// Whether `If-None-Match` asks that there be no such resource.
pub open spec fn wants_none(header: Option<Text>) -> bool {
    match header {
        Some(value) => text::trimmed(value) == "*"@,
        None => false,
    }
}

pub fn if_none_match_any(header: &Option<String>) -> (r: bool)
    ensures
        r == wants_none(text::text_of(*header)),
{
    match header {
        Some(value) => text::same(text::trim(value.as_str()), "*"),
        None => false,
    }
}

/// The snapshot that an outcome of the feed holds, or the answer that says why there
/// is none. A stale snapshot is served: a calendar client keeps working while the
/// space is briefly unreachable, exactly as the feed does.
pub fn snapshot_in<'a>(outcome: &Outcome<'a>) -> (r: Result<&'a Snapshot, Answer>)
    ensures
        match outcome {
            Outcome::Fresh(snapshot) => r is Ok && r->Ok_0 == *snapshot,
            Outcome::Stale(snapshot) => r is Ok && r->Ok_0 == *snapshot,
            Outcome::Unavailable { category } => r is Err && r->Err_0@ == unavailable_answer(
                category@,
            ),
        },
{
    match outcome {
        Outcome::Fresh(snapshot) => Ok(*snapshot),
        Outcome::Stale(snapshot) => Ok(*snapshot),
        Outcome::Unavailable { category } => Err(unavailable(category)),
    }
}

/// What the flat collection declares: tasks alone, or tasks and the events merged into
/// it.
pub open spec fn flat_components(merged: bool) -> Seq<Text> {
    if merged {
        seq!["VTODO"@, "VEVENT"@]
    } else {
        seq!["VTODO"@]
    }
}

/// The tag of the flat collection; with the events merged into it, it moves with
/// either.
pub open spec fn flat_ctag(tasks_ctag: Text, events_ctag: Option<Text>) -> Text {
    match events_ctag {
        Some(events_ctag) => feed::tag_of(tasks_ctag + ","@ + events_ctag),
        None => tasks_ctag,
    }
}

pub open spec fn ctag_in(events: Option<&EventSnapshot>) -> Option<Text> {
    match events {
        Some(events) => Some(events.ctag@),
        None => None,
    }
}

/// What the flat collection declares and its tag.
pub fn flat_contents(tasks_ctag: &str, events: Option<&EventSnapshot>) -> (r: (
    Vec<String>,
    String,
))
    ensures
        text::texts(r.0@) == flat_components(events is Some),
        r.1@ == flat_ctag(tasks_ctag@, ctag_in(events)),
{
    let mut components: Vec<String> = Vec::new();
    components.push("VTODO".to_owned());
    match events {
        Some(events) => {
            components.push("VEVENT".to_owned());
            assert(text::texts(components@) == seq!["VTODO"@, "VEVENT"@]);
            let mut both = tasks_ctag.to_owned();
            both.append(",");
            both.append(events.ctag.as_str());
            (components, feed::etag_for(both.as_str()))
        },
        None => {
            assert(text::texts(components@) == seq!["VTODO"@]);
            (components, tasks_ctag.to_owned())
        },
    }
}

// ------------------------------------------------------------------ routing

/// What the facade offers.
#[derive(Debug)]
pub struct Facade {
    /// Whether tasks and events can be written.
    pub writable: bool,
    /// Whether the client's own documents are kept.
    pub documents: bool,
    /// Whether events are served.
    pub events: bool,
    /// Whether the flat collection also serves the events.
    pub events_in_tasks: bool,
    pub calendar_names: CalendarNames,
}

/// A request as far as it is decided on.
#[derive(Debug)]
pub struct Request {
    pub method: String,
    /// Normalized.
    pub path: String,
    pub depth: String,
    pub if_match: Option<String>,
    pub if_none_match: Option<String>,
    pub body: String,
}

/// What a request is answered before anything else, if it is not let through: OPTIONS
/// carries no data; answering it unauthenticated lets a client discover capabilities.
/// There is no challenge on GET and HEAD: a challenge on a probe with one of them would
/// make a browser open its own sign-in dialog over the app. Every other method gets the
/// challenge, which is how a generic client learns to send credentials.
pub open spec fn admission_answer(method: Text, configured: bool, signed_in: bool) -> Option<
    AnswerView,
> {
    if method == "OPTIONS"@ {
        Some(xml::options_answer())
    } else if !configured {
        Some(xml::bare(404))
    } else if signed_in {
        None
    } else if method == "GET"@ || method == "HEAD"@ {
        Some(xml::bare(401))
    } else {
        Some(
            xml::headed(
                401,
                "www-authenticate"@,
                "Basic realm=\"anytype\", charset=\"UTF-8\""@,
                Seq::empty(),
            ),
        )
    }
}

pub open spec fn answer_view(answer: Option<Answer>) -> Option<AnswerView> {
    match answer {
        Some(answer) => Some(answer@),
        None => None,
    }
}

pub fn admission(method: &str, configured: bool, signed_in: bool) -> (r: Option<Answer>)
    ensures
        answer_view(r) == admission_answer(method@, configured, signed_in),
{
    if text::same(method, "OPTIONS") {
        return Some(xml::options());
    }
    if !configured {
        return Some(xml::status(404));
    }
    if signed_in {
        return None;
    }
    if text::same(method, "GET") || text::same(method, "HEAD") {
        return Some(xml::status(401));
    }
    proof {
        reveal_strlit("");
        assert(""@ == Seq::<char>::empty());
    }
    Some(
        xml::with_header(
            401,
            "www-authenticate",
            "Basic realm=\"anytype\", charset=\"UTF-8\"",
            "",
        ),
    )
}

/// Which part of the facade a request is for.
pub enum Route {
    /// It is answered at once.
    Answered(Answer),
    Home,
    Settings,
    Rename,
    Events,
    Tasks,
}

#[verifier::ext_equal]
pub enum RouteView {
    Answered(AnswerView),
    Home,
    Settings,
    Rename,
    Events,
    Tasks,
}

impl View for Route {
    type V = RouteView;

    open spec fn view(&self) -> RouteView {
        match self {
            Route::Answered(answer) => RouteView::Answered(answer@),
            Route::Home => RouteView::Home,
            Route::Settings => RouteView::Settings,
            Route::Rename => RouteView::Rename,
            Route::Events => RouteView::Events,
            Route::Tasks => RouteView::Tasks,
        }
    }
}

/// The methods that write.
pub open spec fn writes(method: Text) -> bool {
    ||| method == "PUT"@
    ||| method == "DELETE"@
    ||| method == "PROPPATCH"@
    ||| method == "MKCOL"@
    ||| method == "MKCALENDAR"@
    ||| method == "MOVE"@
    ||| method == "COPY"@
}

pub fn is_write(method: &str) -> (r: bool)
    ensures
        r == writes(method@),
{
    text::same(method, "PUT") || text::same(method, "DELETE") || text::same(method, "PROPPATCH")
        || text::same(method, "MKCOL") || text::same(method, "MKCALENDAR") || text::same(
        method,
        "MOVE",
    ) || text::same(method, "COPY")
}

/// What a PROPFIND of the root is answered. Some clients stop discovery at an answer
/// without `resourcetype`.
pub open spec fn root_answer() -> AnswerView {
    xml::multistatus_answer(
        seq![
            xml::response_of(
                BASE@,
                seq![
                    "<d:resourcetype><d:collection/></d:resourcetype>"@,
                    xml::href_prop("d:current-user-principal"@, PRINCIPAL@),
                    xml::text_prop("d:displayname"@, "Anytype"@),
                ],
            ),
        ],
    )
}

/// What a PROPFIND of the principal is answered.
pub open spec fn principal_answer() -> AnswerView {
    xml::multistatus_answer(
        seq![
            xml::response_of(
                PRINCIPAL@,
                seq![
                    "<d:resourcetype><d:principal/></d:resourcetype>"@,
                    xml::href_prop("c:calendar-home-set"@, HOME@),
                    xml::href_prop("d:current-user-principal"@, PRINCIPAL@),
                ],
            ),
        ],
    )
}

/// Which part of the facade a request to a normalized path is for. A query at the
/// root, the principal or the home set is for no calendar collection and is refused:
/// a client reads 404 as a broken server.
pub open spec fn route_of(method: Text, path: Text, facade: Facade) -> RouteView {
    if method == "PROPFIND"@ && (path == BASE@ || path == "/"@) {
        RouteView::Answered(root_answer())
    } else if method == "PROPFIND"@ && path == PRINCIPAL@ {
        RouteView::Answered(principal_answer())
    } else if method == "PROPFIND"@ && path == HOME@ {
        RouteView::Home
    } else if text::starts_with(path, SETTINGS@) && facade.documents {
        RouteView::Settings
    } else if method == "PROPPATCH"@ && facade.documents && paths::calendar(path) {
        RouteView::Rename
    } else if text::starts_with(path, EVENTS@) && facade.events {
        RouteView::Events
    } else if paths::key_of(path) is Some {
        RouteView::Tasks
    } else if method == "REPORT"@ && (path == BASE@ || path == "/"@ || path == PRINCIPAL@ || path
        == HOME@) {
        RouteView::Answered(xml::bare(403))
    } else if writes(method) {
        RouteView::Answered(xml::bare(403))
    } else {
        RouteView::Answered(xml::bare(404))
    }
}

fn answer_root() -> (r: Answer)
    ensures
        r@ == root_answer(),
{
    let mut props: Vec<String> = Vec::new();
    props.push("<d:resourcetype><d:collection/></d:resourcetype>".to_owned());
    props.push(xml::prop_href("d:current-user-principal", PRINCIPAL));
    props.push(xml::prop_text("d:displayname", "Anytype"));
    assert(text::texts(props@) == seq![
        "<d:resourcetype><d:collection/></d:resourcetype>"@,
        xml::href_prop("d:current-user-principal"@, PRINCIPAL@),
        xml::text_prop("d:displayname"@, "Anytype"@),
    ]);
    xml::single(BASE, &props)
}

fn answer_principal() -> (r: Answer)
    ensures
        r@ == principal_answer(),
{
    let mut props: Vec<String> = Vec::new();
    props.push("<d:resourcetype><d:principal/></d:resourcetype>".to_owned());
    props.push(xml::prop_href("c:calendar-home-set", HOME));
    props.push(xml::prop_href("d:current-user-principal", PRINCIPAL));
    assert(text::texts(props@) == seq![
        "<d:resourcetype><d:principal/></d:resourcetype>"@,
        xml::href_prop("c:calendar-home-set"@, HOME@),
        xml::href_prop("d:current-user-principal"@, PRINCIPAL@),
    ]);
    xml::single(PRINCIPAL, &props)
}

/// Decides which part of the facade a request is for.
pub fn handle(method: &str, path: &str, facade: &Facade) -> (r: Route)
    ensures
        r@ == route_of(method@, path@, *facade),
{
    let propfind = text::same(method, "PROPFIND");
    let root = text::same(path, BASE) || text::same(path, "/");
    let principal = text::same(path, PRINCIPAL);
    let home = text::same(path, HOME);
    if propfind && root {
        Route::Answered(answer_root())
    } else if propfind && principal {
        Route::Answered(answer_principal())
    } else if propfind && home {
        Route::Home
    } else if facade.documents && text::begins(path, SETTINGS) {
        Route::Settings
    } else if facade.documents && text::same(method, "PROPPATCH") && paths::is_calendar(path) {
        Route::Rename
    } else if facade.events && text::begins(path, EVENTS) {
        Route::Events
    } else if paths::tasks_key(path).is_some() {
        Route::Tasks
    } else if text::same(method, "REPORT") && (root || principal || home) {
        Route::Answered(xml::status(403))
    } else if is_write(method) {
        Route::Answered(xml::status(403))
    } else {
        Route::Answered(xml::status(404))
    }
}

/// A write that no part of the facade takes is refused, not lost.
pub proof fn law_unrouted_writes_are_refused(method: Text, path: Text, facade: Facade)
    requires
        writes(method),
        route_of(method, path, facade) is Answered,
    ensures
        route_of(method, path, facade) == RouteView::Answered(xml::bare(403)),
{
    reveal_strlit("PROPFIND");
    reveal_strlit("PUT");
    reveal_strlit("DELETE");
    reveal_strlit("PROPPATCH");
    reveal_strlit("MKCOL");
    reveal_strlit("MKCALENDAR");
    reveal_strlit("MOVE");
    reveal_strlit("COPY");
    if method == "PROPFIND"@ {
        assert(method.len() == 8);
        assert(method[1] == 'R');
        assert(method[5] == 'I');
    }
}

proof fn lemma_collections_differ()
    ensures
        BASE@.len() == 5,
        PRINCIPAL@.len() == 15,
        HOME@.len() == 15,
        TASKS@.len() == 21,
        TASKS_PREFIX@.len() == 21,
        EVENTS@.len() == 22,
        SETTINGS@.len() == 31,
        "/"@.len() == 1,
        TASKS@[15] == 't',
        TASKS_PREFIX@[15] == 't',
        EVENTS@[15] == 'e',
        SETTINGS@[15] == 'c',
        "PROPFIND"@ != "PROPPATCH"@,
        "PROPFIND"@ != "REPORT"@,
        HOME@ != PRINCIPAL@,
{
    reveal_strlit("/");
    reveal_strlit("/dav/");
    reveal_strlit("/dav/principal/");
    reveal_strlit("/dav/calendars/");
    reveal_strlit("/dav/calendars/tasks/");
    reveal_strlit("/dav/calendars/tasks-");
    reveal_strlit("/dav/calendars/events/");
    reveal_strlit("/dav/calendars/calino-settings/");
    reveal_strlit("PROPFIND");
    reveal_strlit("PROPPATCH");
    reveal_strlit("REPORT");
    assert("PROPFIND"@.len() == 8);
    assert("PROPPATCH"@.len() == 9);
    assert("REPORT"@.len() == 6);
    assert(HOME@[5] == 'c');
    assert(PRINCIPAL@[5] == 'p');
}

/// Every path is seen to by the part that serves what it names: a task collection and what
/// is in it by the tasks, the events by the events, the settings by the settings. Only a
/// change of the properties of a whole calendar renames it, where names can be kept.
pub proof fn law_each_path_leads_to_its_part(
    method: Text,
    key: Text,
    rest: Text,
    facade: Facade,
)
    requires
        text::all_alphanumeric(key),
    ensures
        ({
            let tasks = paths::path_of(key) + rest;
            let events = EVENTS@ + rest;
            let settings = SETTINGS@ + rest;
            let renames = method == "PROPPATCH"@ && facade.documents && rest.len() == 0;
            &&& route_of(method, tasks, facade) == (if renames {
                RouteView::Rename
            } else {
                RouteView::Tasks
            })
            &&& facade.events ==> route_of(method, events, facade) == (if renames {
                RouteView::Rename
            } else {
                RouteView::Events
            })
            &&& facade.documents ==> route_of(method, settings, facade) == RouteView::Settings
            &&& !facade.documents ==> route_of(method, settings, facade) == RouteView::Answered(
                xml::bare(
                    if writes(method) {
                        403
                    } else {
                        404
                    },
                ),
            )
            &&& route_of("PROPFIND"@, HOME@, facade) == RouteView::Home
            &&& route_of("REPORT"@, HOME@, facade) == RouteView::Answered(xml::bare(403))
        }),
{
    lemma_collections_differ();
    paths::lemma_key_of_member(key, rest);
    let tasks = paths::path_of(key) + rest;
    let events = EVENTS@ + rest;
    let settings = SETTINGS@ + rest;
    assert(tasks[15] == 't');
    assert(events[15] == 'e');
    assert(settings[15] == 'c');
    assert(events.subrange(0, 22) == EVENTS@);
    assert(settings.subrange(0, 31) == SETTINGS@);
    assert(tasks.len() >= 21);
    lemma_not_under(tasks, EVENTS@);
    lemma_not_under(tasks, SETTINGS@);
    lemma_not_under(events, SETTINGS@);
    lemma_not_under(events, TASKS@);
    lemma_not_under(events, TASKS_PREFIX@);
    lemma_not_under(settings, EVENTS@);
    lemma_not_under(settings, TASKS@);
    lemma_not_under(settings, TASKS_PREFIX@);
    assert(tasks == paths::path_of(key) <==> rest.len() == 0) by {
        if rest.len() == 0 {
            assert(tasks == paths::path_of(key));
        }
    }
    assert(events == EVENTS@ <==> rest.len() == 0) by {
        if rest.len() == 0 {
            assert(events == EVENTS@);
        }
    }
}

proof fn lemma_not_under(path: Text, collection: Text)
    requires
        path.len() > 15,
        collection.len() > 15,
        path[15] != collection[15],
    ensures
        !text::starts_with(path, collection),
{
    if text::starts_with(path, collection) {
        assert(path.subrange(0, collection.len() as int)[15] == path[15]);
    }
}

} // verus!
