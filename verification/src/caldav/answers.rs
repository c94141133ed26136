//! What a client finds in the answers to its requests.
//!
//! The laws here speak of requests as they come in and of bodies as they go out: which
//! members a listing or a report tells of, and what it says of each.
use vstd::prelude::*;

use super::events;
use super::home;
use super::names;
use super::paths;
use super::settings;
use super::tasks;
use super::xml;
use super::xml::AnswerView;
use super::{Facade, Request, EVENTS, SETTINGS, TASKS};
use crate::feed;
use crate::feed::{CollectionView, ResourceView, SnapshotView};
use crate::table;
use crate::text;
use crate::text::Text;

verus! {

// ------------------------------------------------------------------ bodies

/// `<name>value</name>`, the value escaped.
pub open spec fn tagged(name: Text, value: Text) -> Text {
    "<"@ + name + ">"@ + xml::escaped(value) + "</"@ + name + ">"@
}

/// What is told of a member at an address: its tag, that it is a calendar, and its text
/// where that is told as well.
pub open spec fn told(href: Text, etag: Text, data: Option<Text>) -> Text {
    "<d:response><d:href>"@ + xml::escaped(href) + "</d:href><d:propstat><d:prop>"@ + tagged(
        "d:getetag"@,
        etag,
    ) + tagged("d:getcontenttype"@, "text/calendar"@) + (match data {
        Some(data) => tagged("c:calendar-data"@, data),
        None => Seq::empty(),
    }) + "</d:prop><d:status>HTTP/1.1 200 OK</d:status></d:propstat></d:response>"@
}

/// What is told of the members of a collection, each at its address.
pub open spec fn all_told(
    collection: Text,
    objects: Seq<(Text, ResourceView)>,
    data: bool,
) -> Seq<Text> {
    Seq::new(
        objects.len(),
        |i: int|
            told(
                collection + objects[i].0 + ".ics"@,
                objects[i].1.etag,
                if data {
                    Some(objects[i].1.ics)
                } else {
                    None
                },
            ),
    )
}

/// Whether an answer is a multistatus that holds a text.
pub open spec fn tells(answer: AnswerView, part: Text) -> bool {
    answer.status == 207 && text::contains(answer.body, part)
}

/// Whether an answer is a multistatus made of these responses and nothing else.
pub open spec fn made_of(answer: AnswerView, responses: Seq<Text>) -> bool {
    answer.status == 207 && answer.body == xml::multistatus_body(responses)
}

proof fn lemma_inside(a: Text, b: Text, c: Text, part: Text)
    requires
        text::contains(b, part),
    ensures
        text::contains(a + b + c, part),
{
    let at = choose|at: int| text::occurs_at(b, part, at);
    let s = a + b + c;
    assert(s.subrange(a.len() + at, a.len() + at + part.len()) == b.subrange(
        at,
        at + part.len(),
    ));
    assert(text::occurs_at(s, part, a.len() + at));
}

proof fn lemma_in_itself(s: Text)
    ensures
        text::contains(s, s),
{
    assert(s.subrange(0, s.len() as int) == s);
    assert(text::occurs_at(s, s, 0));
}

proof fn lemma_in_concat(parts: Seq<Text>, i: int)
    requires
        0 <= i < parts.len(),
    ensures
        text::contains(text::concat(parts), parts[i]),
    decreases parts.len(),
{
    let front = parts.drop_last();
    let nothing = Seq::<char>::empty();
    if i < parts.len() - 1 {
        lemma_in_concat(front, i);
        assert(front[i] == parts[i]);
        lemma_inside(nothing, text::concat(front), parts.last(), parts[i]);
        assert(nothing + text::concat(front) + parts.last() == text::concat(parts));
    } else {
        lemma_in_itself(parts[i]);
        lemma_inside(text::concat(front), parts[i], nothing, parts[i]);
        assert(text::concat(front) + parts[i] + nothing == text::concat(parts));
    }
}

/// A multistatus tells of each of its responses.
proof fn lemma_made_tells(answer: AnswerView, responses: Seq<Text>, i: int)
    requires
        made_of(answer, responses),
        0 <= i < responses.len(),
    ensures
        tells(answer, responses[i]),
{
    lemma_in_concat(responses, i);
    let front =
        "<?xml version=\"1.0\" encoding=\"utf-8\"?>\n<d:multistatus xmlns:d=\"DAV:\" xmlns:c=\"urn:ietf:params:xml:ns:caldav\" xmlns:cs=\"http://calendarserver.org/ns/\" xmlns:a=\"http://apple.com/ns/ical/\">"@;
    lemma_inside(front, text::concat(responses), "</d:multistatus>"@, responses[i]);
}

proof fn lemma_told(href: Text, etag: Text, data: Text)
    ensures
        xml::response_of(href, xml::member_properties(etag)) == told(href, etag, None),
        xml::response_of(href, xml::data_properties(etag, data)) == told(href, etag, Some(data)),
{
    reveal_with_fuel(text::concat, 4);
    let two = xml::member_properties(etag);
    let three = xml::data_properties(etag, data);
    assert(three.drop_last() == two);
    assert(two.drop_last() == seq![two[0]]);
    assert(seq![two[0]].drop_last() == Seq::<Text>::empty());
    assert(text::concat(two) == tagged("d:getetag"@, etag) + tagged(
        "d:getcontenttype"@,
        "text/calendar"@,
    ));
    assert(text::concat(three) == tagged("d:getetag"@, etag) + tagged(
        "d:getcontenttype"@,
        "text/calendar"@,
    ) + tagged("c:calendar-data"@, data));
    assert(xml::response_of(href, two) =~= told(href, etag, None));
    assert(xml::response_of(href, three) =~= told(href, etag, Some(data)));
}

proof fn lemma_all_told(collection: Text, objects: Seq<(Text, ResourceView)>, data: bool)
    ensures
        tasks::member_responses(collection, objects, data) == all_told(collection, objects, data),
{
    assert forall|i: int| 0 <= i < objects.len() implies tasks::member_responses(
        collection,
        objects,
        data,
    )[i] == #[trigger] all_told(collection, objects, data)[i] by {
        lemma_told(
            collection + objects[i].0 + ".ics"@,
            objects[i].1.etag,
            objects[i].1.ics,
        );
    }
    assert(tasks::member_responses(collection, objects, data) =~= all_told(
        collection,
        objects,
        data,
    ));
}

/// What is told of a member is read as it was meant: undoing the entities gives back its
/// address, its tag and its text.
pub proof fn law_what_is_told_is_read_as_meant(href: Text, etag: Text, data: Text)
    ensures
        xml::unescaped(xml::escaped(href)) == href,
        xml::unescaped(xml::escaped(etag)) == etag,
        xml::unescaped(xml::escaped(data)) == data,
{
    xml::law_unescape_undoes_escape(href);
    xml::law_unescape_undoes_escape(etag);
    xml::law_unescape_undoes_escape(data);
}

// ------------------------------------------------------------------ reports

/// Whether the body of a REPORT asks for what changed since another one.
pub open spec fn asks_for_changes(body: Text) -> bool {
    text::contains(body, "sync-collection"@)
}

/// Whether the body of a REPORT names events.
pub open spec fn names_events(body: Text) -> bool {
    text::contains(body, "\"VEVENT\""@) || text::contains(body, "'VEVENT'"@)
}

/// Whether the body of a REPORT names tasks.
pub open spec fn names_tasks(body: Text) -> bool {
    text::contains(body, "\"VTODO\""@) || text::contains(body, "'VTODO'"@)
}

/// Whether a request is one of a method on a task collection itself.
pub open spec fn on_collection(request: Request, method: Text, key: Text) -> bool {
    request.method@ == method && request.path@ == paths::path_of(key)
}

proof fn lemma_on_collection(path: Text, collection: Text)
    requires
        path == collection,
    ensures
        paths::name_in(path, collection) is None,
{
    reveal_strlit(".ics");
}

/// A REPORT on a task collection that neither asks for changes nor for events alone tells
/// of every task that the collection shows its reader: its address, its tag and its text.
pub proof fn law_a_report_tells_of_every_task(
    request: Request,
    key: Text,
    person: Option<Text>,
    facade: Facade,
    given: Seq<(Text, Text)>,
    snapshot: SnapshotView,
    events: Option<(Seq<(Text, ResourceView)>, Text)>,
    i: int,
)
    requires
        on_collection(request, "REPORT"@, key),
        !asks_for_changes(request.body@),
        !names_events(request.body@) || names_tasks(request.body@),
        tasks::view_of(snapshot, key, person) is Some,
        0 <= i < tasks::view_of(snapshot, key, person)->0.objects.len(),
    ensures
        ({
            let (name, resource) = tasks::view_of(snapshot, key, person)->0.objects[i];
            tasks::tasks_step(request, key, person, facade, given, Ok(snapshot), events) matches
            tasks::StepView::Answered(answer) && tells(
                answer,
                told(request.path@ + name + ".ics"@, resource.etag, Some(resource.ics)),
            )
        }),
{
    lemma_on_collection(request.path@, paths::path_of(key));
    let objects = tasks::view_of(snapshot, key, person)->0.objects;
    let collection = paths::path_of(key);
    lemma_all_told(collection, objects, true);
    let first = all_told(collection, objects, true);
    let rest = if xml::asked(request.body@) == xml::Report::TasksOnly {
        Seq::<Text>::empty()
    } else {
        tasks::member_responses(collection, tasks::merged_objects(events), true)
    };
    let answer = xml::multistatus_answer(first + rest);
    assert(tasks::tasks_step(request, key, person, facade, given, Ok(snapshot), events)
        == tasks::StepView::Answered(answer));
    assert((first + rest)[i] == first[i]);
    lemma_made_tells(answer, first + rest, i);
}

/// A REPORT on the flat collection that neither asks for changes nor for tasks alone tells
/// of every event that the collection serves as well: its address there, its tag and its
/// text.
pub proof fn law_a_report_tells_of_every_merged_event(
    request: Request,
    key: Text,
    person: Option<Text>,
    facade: Facade,
    given: Seq<(Text, Text)>,
    snapshot: SnapshotView,
    events: (Seq<(Text, ResourceView)>, Text),
    i: int,
)
    requires
        on_collection(request, "REPORT"@, key),
        !asks_for_changes(request.body@),
        !names_tasks(request.body@) || names_events(request.body@),
        tasks::view_of(snapshot, key, person) is Some,
        0 <= i < events.0.len(),
    ensures
        ({
            let (name, resource) = events.0[i];
            tasks::tasks_step(request, key, person, facade, given, Ok(snapshot), Some(events))
                matches tasks::StepView::Answered(answer) && tells(
                answer,
                told(request.path@ + name + ".ics"@, resource.etag, Some(resource.ics)),
            )
        }),
{
    lemma_on_collection(request.path@, paths::path_of(key));
    let objects = tasks::view_of(snapshot, key, person)->0.objects;
    let collection = paths::path_of(key);
    lemma_all_told(collection, events.0, true);
    let rest = all_told(collection, events.0, true);
    let first = if xml::asked(request.body@) == xml::Report::EventsOnly {
        Seq::<Text>::empty()
    } else {
        tasks::member_responses(collection, objects, true)
    };
    let answer = xml::multistatus_answer(first + rest);
    assert(tasks::tasks_step(request, key, person, facade, given, Ok(snapshot), Some(events))
        == tasks::StepView::Answered(answer));
    assert((first + rest)[first.len() + i] == rest[i]);
    lemma_made_tells(answer, first + rest, first.len() + i);
}

/// A REPORT tells of nothing that it was not asked for: one for tasks alone tells of the
/// tasks and no events, one for events alone of the events and no tasks, and one that asks
/// for changes is refused, so that the client lists everything.
pub proof fn law_a_report_tells_of_nothing_else(
    request: Request,
    key: Text,
    person: Option<Text>,
    facade: Facade,
    given: Seq<(Text, Text)>,
    snapshot: SnapshotView,
    events: Option<(Seq<(Text, ResourceView)>, Text)>,
)
    requires
        on_collection(request, "REPORT"@, key),
        tasks::view_of(snapshot, key, person) is Some,
    ensures
        ({
            let step = tasks::tasks_step(
                request,
                key,
                person,
                facade,
                given,
                Ok(snapshot),
                events,
            );
            let told_tasks = all_told(
                request.path@,
                tasks::view_of(snapshot, key, person)->0.objects,
                true,
            );
            let told_events = match events {
                Some(events) => all_told(request.path@, events.0, true),
                None => Seq::empty(),
            };
            let body = request.body@;
            step matches tasks::StepView::Answered(answer) && if asks_for_changes(body) {
                answer == xml::bare(403)
            } else if names_tasks(body) && !names_events(body) {
                made_of(answer, told_tasks)
            } else if names_events(body) && !names_tasks(body) {
                made_of(answer, told_events)
            } else {
                made_of(answer, told_tasks + told_events)
            }
        }),
{
    lemma_on_collection(request.path@, paths::path_of(key));
    let collection = paths::path_of(key);
    let objects = tasks::view_of(snapshot, key, person)->0.objects;
    lemma_all_told(collection, objects, true);
    lemma_all_told(collection, tasks::merged_objects(events), true);
    let told_tasks = all_told(collection, objects, true);
    let told_events = all_told(collection, tasks::merged_objects(events), true);
    assert(told_tasks + Seq::<Text>::empty() == told_tasks);
    assert(Seq::<Text>::empty() + told_events == told_events);
    assert(events is None ==> told_events == Seq::<Text>::empty());
}

/// The flat collection shows every task of the snapshot, whoever reads it; a calendar of its
/// own shows a reader without an account what the snapshot put there. A calendar that the
/// snapshot does not hold is not found.
pub proof fn law_what_a_collection_shows(snapshot: SnapshotView, key: Text, person: Option<Text>)
    ensures
        key.len() == 0 ==> (tasks::view_of(snapshot, key, person) matches Some(view)
            && view.objects == snapshot.objects && view.ctag == snapshot.etag),
        key.len() > 0 ==> (tasks::view_of(snapshot, key, person) is Some) == (table::at(
            snapshot.collections,
            key,
        ) is Some),
        key.len() > 0 && person is None ==> (table::at(snapshot.collections, key) matches Some(
            held,
        ) ==> (tasks::view_of(snapshot, key, person) matches Some(view) && view.objects
            == held.objects && view.ctag == held.ctag && view.display_name == Some(
            held.display_name,
        ))),
{
}

// ------------------------------------------------------------------ listings

/// A PROPFIND of depth 1 on a task collection tells of the collection and of every member
/// that it shows its reader, each at its address with its tag; the events of the flat
/// collection are members too. One of another depth tells of the collection alone. The tag
/// of the collection is the one that the snapshot holds, where no events are in it.
pub proof fn law_a_listing_tells_of_every_member(
    request: Request,
    key: Text,
    person: Option<Text>,
    facade: Facade,
    given: Seq<(Text, Text)>,
    snapshot: SnapshotView,
    events: Option<(Seq<(Text, ResourceView)>, Text)>,
)
    requires
        on_collection(request, "PROPFIND"@, key),
        tasks::view_of(snapshot, key, person) is Some,
    ensures
        ({
            let step = tasks::tasks_step(
                request,
                key,
                person,
                facade,
                given,
                Ok(snapshot),
                events,
            );
            let told_tasks = all_told(
                request.path@,
                tasks::view_of(snapshot, key, person)->0.objects,
                false,
            );
            let told_events = match events {
                Some(events) => all_told(request.path@, events.0, false),
                None => Seq::empty(),
            };
            step matches tasks::StepView::Answered(answer) && exists|head: Text|
                #[trigger] text::contains(
                    head,
                    "<d:href>"@ + xml::escaped(request.path@) + "</d:href>"@,
                ) && (events is None ==> text::contains(
                    head,
                    tagged("cs:getctag"@, tasks::view_of(snapshot, key, person)->0.ctag),
                )) && made_of(
                    answer,
                    if request.depth@ == "1"@ {
                        seq![head] + told_tasks + told_events
                    } else {
                        seq![head]
                    },
                )
        }),
{
    lemma_on_collection(request.path@, paths::path_of(key));
    let collection = paths::path_of(key);
    let view = tasks::view_of(snapshot, key, person)->0;
    lemma_all_told(collection, view.objects, false);
    lemma_all_told(collection, tasks::merged_objects(events), false);
    let told_events = all_told(collection, tasks::merged_objects(events), false);
    assert(events is None ==> told_events == Seq::<Text>::empty());
    let props = xml::collection_properties(
        super::flat_components(events is Some),
        names::name_at(
            given,
            collection,
            match view.display_name {
                Some(name) => name,
                None => facade.calendar_names.tasks@,
            },
        ),
        super::flat_ctag(
            view.ctag,
            match events {
                Some(events) => Some(events.1),
                None => None,
            },
        ),
        facade.writable,
    );
    let head = xml::response_of(collection, props);
    lemma_methods();
    lemma_head_names_its_path(collection, props);
    law_a_collection_gives_its_name_and_tag(
        collection,
        super::flat_components(events is Some),
        names::name_at(
            given,
            collection,
            match view.display_name {
                Some(name) => name,
                None => facade.calendar_names.tasks@,
            },
        ),
        super::flat_ctag(
            view.ctag,
            match events {
                Some(events) => Some(events.1),
                None => None,
            },
        ),
        facade.writable,
    );
}

proof fn lemma_head_names_its_path(path: Text, props: Seq<Text>)
    ensures
        text::contains(
            xml::response_of(path, props),
            "<d:href>"@ + xml::escaped(path) + "</d:href>"@,
        ),
{
    reveal_strlit("<d:response><d:href>");
    reveal_strlit("<d:response>");
    reveal_strlit("<d:href>");
    reveal_strlit("</d:href><d:propstat><d:prop>");
    reveal_strlit("</d:href>");
    reveal_strlit("<d:propstat><d:prop>");
    let part = "<d:href>"@ + xml::escaped(path) + "</d:href>"@;
    let rest = "<d:propstat><d:prop>"@ + text::concat(props)
        + "</d:prop><d:status>HTTP/1.1 200 OK</d:status></d:propstat></d:response>"@;
    assert("<d:response><d:href>"@ =~= "<d:response>"@ + "<d:href>"@);
    assert("</d:href><d:propstat><d:prop>"@ =~= "</d:href>"@ + "<d:propstat><d:prop>"@);
    assert(xml::response_of(path, props) =~= "<d:response>"@ + part + rest);
    lemma_in_itself(part);
    lemma_inside("<d:response>"@, part, rest, part);
}

/// A listing of a collection gives its name, its tag and what it may hold: the name that
/// the reader gave it or else its own, and a tag that is told in full.
pub proof fn law_a_collection_gives_its_name_and_tag(
    path: Text,
    components: Seq<Text>,
    name: Text,
    ctag: Text,
    writable: bool,
)
    ensures
        ({
            let told = xml::response_of(
                path,
                xml::collection_properties(components, name, ctag, writable),
            );
            &&& text::contains(told, tagged("d:displayname"@, name))
            &&& text::contains(told, tagged("cs:getctag"@, ctag))
            &&& text::contains(told, "<d:resourcetype><d:collection/><c:calendar/></d:resourcetype>"@)
            &&& forall|i: int|
                0 <= i < components.len() ==> text::contains(
                    told,
                    "<c:comp name=\""@ + #[trigger] components[i] + "\"/>"@,
                )
        }),
{
    let props = xml::collection_properties(components, name, ctag, writable);
    let front = "<d:response><d:href>"@ + xml::escaped(path) + "</d:href><d:propstat><d:prop>"@;
    let end = "</d:prop><d:status>HTTP/1.1 200 OK</d:status></d:propstat></d:response>"@;
    let told = xml::response_of(path, props);
    assert(told == front + text::concat(props) + end);
    lemma_in_concat(props, 0);
    lemma_in_concat(props, 1);
    lemma_in_concat(props, 2);
    lemma_in_concat(props, 3);
    lemma_inside(front, text::concat(props), end, props[0]);
    lemma_inside(front, text::concat(props), end, props[1]);
    lemma_inside(front, text::concat(props), end, props[3]);
    assert forall|i: int| 0 <= i < components.len() implies text::contains(
        told,
        "<c:comp name=\""@ + #[trigger] components[i] + "\"/>"@,
    ) by {
        let part = "<c:comp name=\""@ + components[i] + "\"/>"@;
        lemma_declared(components, i);
        lemma_inside(
            "<c:supported-calendar-component-set>"@,
            xml::declared(components),
            "</c:supported-calendar-component-set>"@,
            part,
        );
        lemma_contained(text::concat(props), props[2], part);
        lemma_inside(front, text::concat(props), end, part);
    }
}

proof fn lemma_contained(s: Text, middle: Text, part: Text)
    requires
        text::contains(s, middle),
        text::contains(middle, part),
    ensures
        text::contains(s, part),
{
    let at = choose|at: int| text::occurs_at(s, middle, at);
    let a = s.subrange(0, at);
    let c = s.subrange(at + middle.len(), s.len() as int);
    assert(s =~= a + middle + c);
    lemma_inside(a, middle, c, part);
}

proof fn lemma_declared(components: Seq<Text>, i: int)
    requires
        0 <= i < components.len(),
    ensures
        text::contains(
            xml::declared(components),
            "<c:comp name=\""@ + components[i] + "\"/>"@,
        ),
    decreases components.len(),
{
    let part = "<c:comp name=\""@ + components[i] + "\"/>"@;
    let front = xml::declared(components.drop_last());
    let last = "<c:comp name=\""@ + components.last() + "\"/>"@;
    let nothing = Seq::<char>::empty();
    if i < components.len() - 1 {
        lemma_declared(components.drop_last(), i);
        lemma_inside(nothing, front, last, part);
        assert(nothing + front + last == xml::declared(components));
    } else {
        lemma_in_itself(part);
        lemma_inside(front, part, nothing, part);
        assert(front + part + nothing == xml::declared(components));
    }
}

// ------------------------------------------------------------------ members

/// A task that a collection shows its reader is served at its address: GET is answered with
/// its tag and its text, HEAD with its tag alone, and PROPFIND tells of it. A task that the
/// collection does not show is not found.
pub proof fn law_a_shown_task_is_served(
    request: Request,
    key: Text,
    person: Option<Text>,
    facade: Facade,
    given: Seq<(Text, Text)>,
    snapshot: SnapshotView,
    events: Option<(Seq<(Text, ResourceView)>, Text)>,
    name: Text,
)
    requires
        tasks::view_of(snapshot, key, person) is Some,
        request.path@ == paths::path_of(key) + name + ".ics"@,
        paths::plain_name(name),
        events matches Some(events) ==> table::at(events.0, name) is None,
        request.method@ == "GET"@ || request.method@ == "HEAD"@ || request.method@ == "PROPFIND"@,
    ensures
        ({
            let held = table::at(tasks::view_of(snapshot, key, person)->0.objects, name);
            tasks::tasks_step(request, key, person, facade, given, Ok(snapshot), events) matches
            tasks::StepView::Answered(answer) && match held {
                None => answer == xml::bare(404),
                Some(resource) => if request.method@ == "PROPFIND"@ {
                    made_of(answer, seq![told(request.path@, resource.etag, None)])
                } else {
                    &&& answer.status == 200
                    &&& answer.headers.contains(("etag"@, resource.etag))
                    &&& answer.body == if request.method@ == "GET"@ {
                        resource.ics
                    } else {
                        Seq::empty()
                    }
                },
            }
        }),
{
    lemma_methods();
    lemma_addressed(request.path@, paths::path_of(key), name);
    let held = table::at(tasks::view_of(snapshot, key, person)->0.objects, name);
    if let Some(resource) = held {
        lemma_told(request.path@, resource.etag, resource.ics);
        let answer = xml::resource_answer(resource.etag, resource.ics);
        assert(answer.headers[1] == ("etag"@, resource.etag));
        assert(xml::resource_answer(resource.etag, Seq::empty()).headers[1] == (
            "etag"@,
            resource.etag,
        ));
    }
}

proof fn lemma_methods()
    ensures
        "GET"@ != "HEAD"@,
        "GET"@ != "PROPFIND"@,
        "HEAD"@ != "PROPFIND"@,
        "GET"@ != "REPORT"@,
        "HEAD"@ != "REPORT"@,
        "PROPFIND"@ != "REPORT"@,
        "GET"@ != "PUT"@,
        "HEAD"@ != "PUT"@,
        "PROPFIND"@ != "PUT"@,
        "PUT"@ != "DELETE"@,
        "PUT"@ != "REPORT"@,
        "DELETE"@ != "REPORT"@,
        "DELETE"@ != "PROPFIND"@,
        "DELETE"@ != "GET"@,
        "DELETE"@ != "HEAD"@,
{
    reveal_strlit("GET");
    reveal_strlit("HEAD");
    reveal_strlit("PROPFIND");
    reveal_strlit("REPORT");
    reveal_strlit("PUT");
    reveal_strlit("DELETE");
    assert("GET"@.len() == 3 && "PUT"@.len() == 3 && "HEAD"@.len() == 4);
    assert("PROPFIND"@.len() == 8 && "REPORT"@.len() == 6 && "DELETE"@.len() == 6);
    assert("GET"@[0] != "PUT"@[0]);
    assert("DELETE"@[0] != "REPORT"@[0]);
}

proof fn lemma_addressed(path: Text, collection: Text, name: Text)
    requires
        path == collection + name + ".ics"@,
        paths::plain_name(name),
    ensures
        paths::name_in(path, collection) == Some(name),
        path != collection,
{
    reveal_strlit(".ics");
    let rest = name + ".ics"@;
    assert(path.subrange(0, collection.len() as int) == collection);
    assert(path.subrange(collection.len() as int, path.len() as int) == rest);
    assert(rest.subrange(rest.len() - 4, rest.len() as int) == ".ics"@);
    assert(rest.subrange(0, rest.len() - 4) == name);
    assert(path.len() > collection.len());
}

/// While the tasks cannot be read, every read is answered that the server is unavailable,
/// and why; nothing is made up.
pub proof fn law_reads_fail_while_the_tasks_cannot_be_read(
    request: Request,
    key: Text,
    person: Option<Text>,
    facade: Facade,
    given: Seq<(Text, Text)>,
    category: Text,
    events: Option<(Seq<(Text, ResourceView)>, Text)>,
)
    requires
        on_collection(request, "REPORT"@, key) || on_collection(request, "PROPFIND"@, key),
    ensures
        tasks::tasks_step(
            request,
            key,
            person,
            facade,
            given,
            Err(category),
            events,
        ) matches tasks::StepView::Answered(answer) && answer.status == 503 && answer.body
            == category,
{
    lemma_on_collection(request.path@, paths::path_of(key));
}

/// A write to a member of a task collection is taken on exactly where the server is
/// writable; otherwise it is refused.
pub proof fn law_writes_are_taken_on_where_writable(
    request: Request,
    key: Text,
    person: Option<Text>,
    facade: Facade,
    given: Seq<(Text, Text)>,
    outcome: Result<SnapshotView, Text>,
    name: Text,
)
    requires
        request.path@ == paths::path_of(key) + name + ".ics"@,
        paths::plain_name(name),
        request.method@ == "PUT"@ || request.method@ == "DELETE"@,
    ensures
        tasks::tasks_step(request, key, person, facade, given, outcome, None) == (
        if !facade.writable {
            tasks::StepView::Answered(xml::bare(403))
        } else if request.method@ == "PUT"@ {
            tasks::StepView::Put(name)
        } else {
            tasks::StepView::Delete(name)
        }),
{
    lemma_methods();
    lemma_addressed(request.path@, paths::path_of(key), name);
}

/// A request to the flat collection is for an event exactly where one is served there under
/// its name, or where a new resource is put whose body is one.
pub proof fn law_an_event_is_reached_through_the_flat_collection(
    request: Request,
    key: Text,
    person: Option<Text>,
    facade: Facade,
    given: Seq<(Text, Text)>,
    outcome: Result<SnapshotView, Text>,
    events: (Seq<(Text, ResourceView)>, Text),
    name: Text,
)
    requires
        request.path@ == paths::path_of(key) + name + ".ics"@,
        paths::plain_name(name),
    ensures
        (tasks::tasks_step(request, key, person, facade, given, outcome, Some(events))
            == tasks::StepView::Event(name)) <==> (table::at(events.0, name) is Some || (
        request.method@ == "PUT"@ && text::contains(request.body@, "BEGIN:VEVENT"@))),
{
    lemma_addressed(request.path@, paths::path_of(key), name);
}

// ------------------------------------------------------------------ events

/// A REPORT on the events that neither asks for changes nor for tasks alone tells of every
/// event and of nothing else: its address, its tag and its text. One for tasks alone tells
/// of nothing, and one that asks for changes is refused.
pub proof fn law_a_report_tells_of_every_event(
    request: Request,
    facade: Facade,
    given: Seq<(Text, Text)>,
    objects: Seq<(Text, ResourceView)>,
    ctag: Text,
)
    requires
        request.method@ == "REPORT"@,
        request.path@ == EVENTS@,
    ensures
        ({
            let body = request.body@;
            events::events_step(request, facade, given, Ok((objects, ctag))) matches
            events::StepView::Answered(answer) && if asks_for_changes(body) {
                answer == xml::bare(403)
            } else if names_tasks(body) && !names_events(body) {
                made_of(answer, Seq::empty())
            } else {
                &&& made_of(answer, all_told(EVENTS@, objects, true))
                &&& forall|i: int|
                    0 <= i < objects.len() ==> tells(
                        answer,
                        told(
                            EVENTS@ + (#[trigger] objects[i]).0 + ".ics"@,
                            objects[i].1.etag,
                            Some(objects[i].1.ics),
                        ),
                    )
            }
        }),
{
    lemma_methods();
    lemma_all_told(EVENTS@, objects, true);
    let list = all_told(EVENTS@, objects, true);
    let answer = xml::multistatus_answer(list);
    assert forall|i: int| 0 <= i < objects.len() implies tells(
        answer,
        told(
            EVENTS@ + (#[trigger] objects[i]).0 + ".ics"@,
            objects[i].1.etag,
            Some(objects[i].1.ics),
        ),
    ) by {
        lemma_made_tells(answer, list, i);
    }
}

/// A PROPFIND of depth 1 on the events tells of the collection and of every event, each at
/// its address with its tag. One of another depth tells of the collection alone.
pub proof fn law_a_listing_tells_of_every_event(
    request: Request,
    facade: Facade,
    given: Seq<(Text, Text)>,
    objects: Seq<(Text, ResourceView)>,
    ctag: Text,
)
    requires
        request.method@ == "PROPFIND"@,
        request.path@ == EVENTS@,
    ensures
        events::events_step(request, facade, given, Ok((objects, ctag))) matches
        events::StepView::Answered(answer) && exists|head: Text|
            #[trigger] text::contains(
                head,
                "<d:href>"@ + xml::escaped(EVENTS@) + "</d:href>"@,
            ) && text::contains(head, tagged("cs:getctag"@, ctag)) && made_of(
                answer,
                if request.depth@ == "1"@ {
                    seq![head] + all_told(EVENTS@, objects, false)
                } else {
                    seq![head]
                },
            ),
{
    lemma_all_told(EVENTS@, objects, false);
    let name = names::name_at(given, EVENTS@, facade.calendar_names.events@);
    let props = xml::collection_properties(seq!["VEVENT"@], name, ctag, facade.writable);
    let head = xml::response_of(EVENTS@, props);
    lemma_head_names_its_path(EVENTS@, props);
    law_a_collection_gives_its_name_and_tag(
        EVENTS@,
        seq!["VEVENT"@],
        name,
        ctag,
        facade.writable,
    );
}

/// An event is served at its address: GET is answered with its tag and its text, HEAD with
/// its tag alone, and PROPFIND tells of it. One that is not there is not found.
pub proof fn law_an_event_is_served(
    request: Request,
    facade: Facade,
    given: Seq<(Text, Text)>,
    objects: Seq<(Text, ResourceView)>,
    ctag: Text,
    name: Text,
)
    requires
        request.path@ == EVENTS@ + name + ".ics"@,
        paths::plain_name(name),
        request.method@ == "GET"@ || request.method@ == "HEAD"@ || request.method@ == "PROPFIND"@,
    ensures
        events::events_step(request, facade, given, Ok((objects, ctag))) matches
        events::StepView::Answered(answer) && match table::at(objects, name) {
            None => answer == xml::bare(404),
            Some(resource) => if request.method@ == "PROPFIND"@ {
                made_of(answer, seq![told(request.path@, resource.etag, None)])
            } else {
                &&& answer.status == 200
                &&& answer.headers.contains(("etag"@, resource.etag))
                &&& answer.body == if request.method@ == "GET"@ {
                    resource.ics
                } else {
                    Seq::empty()
                }
            },
        },
{
    lemma_methods();
    lemma_addressed(request.path@, EVENTS@, name);
    if let Some(resource) = table::at(objects, name) {
        lemma_told(request.path@, resource.etag, resource.ics);
        assert(xml::resource_answer(resource.etag, resource.ics).headers[1] == (
            "etag"@,
            resource.etag,
        ));
        assert(xml::resource_answer(resource.etag, Seq::empty()).headers[1] == (
            "etag"@,
            resource.etag,
        ));
    }
}

// ------------------------------------------------------------------ the home set

/// Whether a home set tells of a collection at a path under a name.
pub open spec fn offers(answer: AnswerView, path: Text, name: Text) -> bool {
    exists|part: Text|
        #[trigger] tells(answer, part) && text::contains(
            part,
            "<d:href>"@ + xml::escaped(path) + "</d:href>"@,
        ) && text::contains(part, tagged("d:displayname"@, name))
}

proof fn lemma_offered(
    answer: AnswerView,
    responses: Seq<Text>,
    i: int,
    path: Text,
    props: Seq<Text>,
    name: Text,
)
    requires
        made_of(answer, responses),
        0 <= i < responses.len(),
        responses[i] == xml::response_of(path, props),
        props.len() > 1,
        props[1] == xml::text_prop("d:displayname"@, name),
    ensures
        offers(answer, path, name),
{
    let part = responses[i];
    lemma_made_tells(answer, responses, i);
    lemma_head_names_its_path(path, props);
    lemma_in_concat(props, 1);
    let front = "<d:response><d:href>"@ + xml::escaped(path) + "</d:href><d:propstat><d:prop>"@;
    let end = "</d:prop><d:status>HTTP/1.1 200 OK</d:status></d:propstat></d:response>"@;
    lemma_inside(front, text::concat(props), end, props[1]);
    assert(part == front + text::concat(props) + end);
    assert(tells(answer, part));
}

proof fn lemma_person_responses(
    snapshot: SnapshotView,
    collections: Seq<(Text, CollectionView)>,
    own: bool,
    person: Option<Text>,
    facade: Facade,
    given: Seq<(Text, Text)>,
    k: int,
) -> (i: int)
    requires
        0 <= k < collections.len(),
        home::is_own(collections[k].1, person) == own,
    ensures
        ({
            let all = home::person_responses(snapshot, collections, own, person, facade, given);
            0 <= i < all.len() && all[i] == home::person_response(
                snapshot,
                collections[k].0,
                collections[k].1,
                person,
                facade,
                given,
            )
        }),
    decreases collections.len(),
{
    let front = collections.drop_last();
    if k < front.len() {
        lemma_person_responses(snapshot, front, own, person, facade, given, k)
    } else {
        home::person_responses(snapshot, front, own, person, facade, given).len() as int
    }
}

/// The home set offers every calendar that the snapshot holds, at its path and under the
/// name that the reader gave it or else its own.
pub proof fn law_every_calendar_is_offered(
    snapshot: SnapshotView,
    person: Option<Text>,
    facade: Facade,
    given: Seq<(Text, Text)>,
    events: Option<(Seq<(Text, ResourceView)>, Text)>,
    documents: Option<Seq<(Text, Text)>>,
    k: int,
)
    requires
        0 <= k < snapshot.collections.len(),
    ensures
        ({
            let (key, collection) = snapshot.collections[k];
            let path = paths::path_of(key);
            offers(
                home::home_answer(snapshot, person, facade, given, events, documents),
                path,
                match table::at(given, path) {
                    Some(name) => name,
                    None => collection.display_name,
                },
            )
        }),
{
    let (key, collection) = snapshot.collections[k];
    let path = paths::path_of(key);
    let all = snapshot.collections;
    let flat = home::flat_response(snapshot, facade, given, events);
    let mine = home::person_responses(snapshot, all, true, person, facade, given);
    let theirs = home::person_responses(snapshot, all, false, person, facade, given);
    let rest = home::events_response(facade, given, events) + home::settings_response(
        facade,
        documents,
    );
    let responses = flat + mine + theirs + home::events_response(facade, given, events)
        + home::settings_response(facade, documents);
    let own = home::is_own(collection, person);
    let i = lemma_person_responses(snapshot, all, own, person, facade, given, k);
    let at = if own {
        flat.len() + i
    } else {
        flat.len() + mine.len() + i
    };
    let name = names::name_at(given, path, collection.display_name);
    let plain = xml::collection_properties(
        seq!["VTODO"@],
        name,
        match tasks::view_of(snapshot, key, person) {
            Some(view) => view.ctag,
            None => Seq::empty(),
        },
        facade.writable,
    );
    let props = if person is Some && !own {
        plain.push(xml::text_prop("cs:calendar-hidden"@, "1"@))
    } else {
        plain
    };
    assert(responses[at] == xml::response_of(path, props));
    lemma_offered(
        home::home_answer(snapshot, person, facade, given, events, documents),
        responses,
        at,
        path,
        props,
        name,
    );
}

/// A home set lists a task once: the flat collection is offered exactly while no person has
/// a calendar, and the events have one of their own unless they are served in it.
pub proof fn law_the_flat_collection_stands_in_for_calendars(
    snapshot: SnapshotView,
    facade: Facade,
    given: Seq<(Text, Text)>,
    events: Option<(Seq<(Text, ResourceView)>, Text)>,
    person: Option<Text>,
    documents: Option<Seq<(Text, Text)>>,
)
    ensures
        home::flat_response(snapshot, facade, given, events).len() == (
        if snapshot.collections.len() == 0 {
            1int
        } else {
            0
        }),
        home::events_response(facade, given, events).len() == (if events is Some
            && !facade.events_in_tasks {
            1int
        } else {
            0
        }),
        home::settings_response(facade, documents).len() == (if facade.documents {
            1int
        } else {
            0
        }),
        snapshot.collections.len() == 0 ==> offers(
            home::home_answer(snapshot, person, facade, given, events, documents),
            TASKS@,
            match table::at(given, TASKS@) {
                Some(name) => name,
                None => facade.calendar_names.tasks@,
            },
        ),
        events is Some && !facade.events_in_tasks ==> offers(
            home::home_answer(snapshot, person, facade, given, events, documents),
            EVENTS@,
            match table::at(given, EVENTS@) {
                Some(name) => name,
                None => facade.calendar_names.events@,
            },
        ),
{
    let answer = home::home_answer(snapshot, person, facade, given, events, documents);
    let all = snapshot.collections;
    let flat = home::flat_response(snapshot, facade, given, events);
    let mine = home::person_responses(snapshot, all, true, person, facade, given);
    let theirs = home::person_responses(snapshot, all, false, person, facade, given);
    let own = home::events_response(facade, given, events);
    let responses = flat + mine + theirs + own + home::settings_response(facade, documents);
    if snapshot.collections.len() == 0 {
        let merged = facade.events_in_tasks && events is Some;
        let name = names::name_at(given, TASKS@, facade.calendar_names.tasks@);
        let props = xml::collection_properties(
            super::flat_components(merged),
            name,
            super::flat_ctag(
                snapshot.etag,
                match events {
                    Some((_, ctag)) => if merged {
                        Some(ctag)
                    } else {
                        None
                    },
                    None => None,
                },
            ),
            facade.writable,
        );
        assert(responses[0] == xml::response_of(TASKS@, props));
        lemma_offered(answer, responses, 0, TASKS@, props, name);
    }
    if events is Some && !facade.events_in_tasks {
        let at = flat.len() + mine.len() + theirs.len();
        let (_, ctag) = events->0;
        let name = names::name_at(given, EVENTS@, facade.calendar_names.events@);
        let props = xml::collection_properties(seq!["VEVENT"@], name, ctag, facade.writable);
        assert(responses[at as int] == xml::response_of(EVENTS@, props));
        lemma_offered(answer, responses, at as int, EVENTS@, props, name);
    }
}

/// The calendars of everybody else arrive switched off for a person; their own, and all of
/// them for a reader who is nobody in particular, arrive switched on.
pub proof fn law_the_calendars_of_others_arrive_switched_off(
    snapshot: SnapshotView,
    key: Text,
    collection: CollectionView,
    person: Option<Text>,
    facade: Facade,
    given: Seq<(Text, Text)>,
)
    ensures
        ({
            let hidden = tagged("cs:calendar-hidden"@, "1"@);
            let told = home::person_response(snapshot, key, collection, person, facade, given);
            &&& person is Some && collection.member_id != person ==> text::contains(told, hidden)
            &&& person is None || collection.member_id == person ==> exists|view: Text|
                told == xml::response_of(
                    paths::path_of(key),
                    xml::collection_properties(
                        seq!["VTODO"@],
                        names::name_at(given, paths::path_of(key), collection.display_name),
                        view,
                        facade.writable,
                    ),
                ) && #[trigger] text::contains(told, tagged("cs:getctag"@, view))
        }),
{
    let path = paths::path_of(key);
    let name = names::name_at(given, path, collection.display_name);
    let ctag = match tasks::view_of(snapshot, key, person) {
        Some(view) => view.ctag,
        None => Seq::empty(),
    };
    let plain = xml::collection_properties(seq!["VTODO"@], name, ctag, facade.writable);
    law_a_collection_gives_its_name_and_tag(path, seq!["VTODO"@], name, ctag, facade.writable);
    if person is Some && collection.member_id != person {
        let props = plain.push(xml::text_prop("cs:calendar-hidden"@, "1"@));
        lemma_in_concat(props, 5);
        let front = "<d:response><d:href>"@ + xml::escaped(path)
            + "</d:href><d:propstat><d:prop>"@;
        let end = "</d:prop><d:status>HTTP/1.1 200 OK</d:status></d:propstat></d:response>"@;
        lemma_inside(front, text::concat(props), end, props[5]);
    } else {
        let told = home::person_response(snapshot, key, collection, person, facade, given);
        assert(told == xml::response_of(path, plain));
        assert(text::contains(told, tagged("cs:getctag"@, ctag)));
    }
}

/// A person's own calendar comes before everybody else's, so that a client makes it the one
/// for new tasks.
pub proof fn law_ones_own_calendar_comes_first(
    snapshot: SnapshotView,
    person: Option<Text>,
    facade: Facade,
    given: Seq<(Text, Text)>,
    events: Option<(Seq<(Text, ResourceView)>, Text)>,
    documents: Option<Seq<(Text, Text)>>,
    k: int,
    j: int,
)
    requires
        0 <= k < snapshot.collections.len(),
        0 <= j < snapshot.collections.len(),
        person is Some && snapshot.collections[k].1.member_id == person,
        snapshot.collections[j].1.member_id != person,
    ensures
        exists|responses: Seq<Text>, a: int, b: int|
            {
                &&& made_of(
                    home::home_answer(snapshot, person, facade, given, events, documents),
                    responses,
                )
                &&& 0 <= a < b < responses.len()
                &&& #[trigger] responses[a] == home::person_response(
                    snapshot,
                    snapshot.collections[k].0,
                    snapshot.collections[k].1,
                    person,
                    facade,
                    given,
                )
                &&& #[trigger] responses[b] == home::person_response(
                    snapshot,
                    snapshot.collections[j].0,
                    snapshot.collections[j].1,
                    person,
                    facade,
                    given,
                )
            },
{
    let all = snapshot.collections;
    let flat = home::flat_response(snapshot, facade, given, events);
    let mine = home::person_responses(snapshot, all, true, person, facade, given);
    let theirs = home::person_responses(snapshot, all, false, person, facade, given);
    let responses = flat + mine + theirs + home::events_response(facade, given, events)
        + home::settings_response(facade, documents);
    let x = lemma_person_responses(snapshot, all, true, person, facade, given, k);
    let y = lemma_person_responses(snapshot, all, false, person, facade, given, j);
    let a = flat.len() + x;
    let b = flat.len() + mine.len() + y;
    assert(responses[a] == mine[x]);
    assert(responses[b] == theirs[y]);
    assert(made_of(
        home::home_answer(snapshot, person, facade, given, events, documents),
        responses,
    ));
}

// ------------------------------------------------------------------ documents

/// A REPORT on the documents tells of every one of them: its address, its tag and its text.
pub proof fn law_a_report_tells_of_every_document(
    request: Request,
    documents: Seq<(Text, Text)>,
    current: Option<Text>,
    i: int,
)
    requires
        request.method@ == "REPORT"@,
        request.path@ == SETTINGS@,
        0 <= i < documents.len(),
    ensures
        settings::settings_step(request, Some(documents), current) matches
        settings::StepView::Answered(answer) && tells(
            answer,
            told(
                SETTINGS@ + documents[i].0 + ".ics"@,
                feed::tag_of(documents[i].1),
                Some(documents[i].1),
            ),
        ),
{
    lemma_methods();
    let responses = settings::document_responses(documents, true);
    let answer = xml::multistatus_answer(responses);
    lemma_told(
        SETTINGS@ + documents[i].0 + ".ics"@,
        feed::tag_of(documents[i].1),
        documents[i].1,
    );
    assert(responses[i] == told(
        SETTINGS@ + documents[i].0 + ".ics"@,
        feed::tag_of(documents[i].1),
        Some(documents[i].1),
    ));
    lemma_made_tells(answer, responses, i);
}

/// A document is stored exactly where it is not too long and its conditions hold: nothing is
/// there where the client expects nothing, and what is there has the tag that it expects. It
/// is stored under the name that it is addressed by, and answered with its tag.
pub proof fn law_a_document_is_stored_where_its_conditions_hold(
    request: Request,
    documents: Option<Seq<(Text, Text)>>,
    current: Option<Text>,
    name: Text,
)
    requires
        request.method@ == "PUT"@,
        request.path@ == SETTINGS@ + name + ".ics"@,
        paths::plain_name(name),
    ensures
        ({
            let expected = super::expected_tag(text::text_of(request.if_match));
            let none = super::wants_none(text::text_of(request.if_none_match));
            let step = settings::settings_step(request, documents, current);
            let long = vstd::utf8::encode_utf8(request.body@).len() > 524_288;
            if !long && !(none && current is Some) && (expected is None || (
            current matches Some(body) && feed::tag_of(body) == expected->0)) {
                step matches settings::StepView::Put { name: under, answer } && under == name
                    && answer.headers.contains(("etag"@, feed::tag_of(request.body@)))
                    && answer.status == (if current is Some {
                    204int
                } else {
                    201
                })
            } else {
                step matches settings::StepView::Answered(answer) && answer.status == if long {
                    413int
                } else {
                    412
                }
            }
        }),
{
    lemma_methods();
    reveal_strlit("PUT");
    reveal_strlit("PROPPATCH");
    assert("PUT"@.len() == 3 && "PROPPATCH"@.len() == 9);
    lemma_addressed(request.path@, SETTINGS@, name);
    if let settings::StepView::Put { answer, .. } = settings::settings_step(
        request,
        documents,
        current,
    ) {
        assert(answer.headers[0] == ("etag"@, feed::tag_of(request.body@)));
    }
}

/// A DELETE of a document is of the one that it addresses.
pub proof fn law_the_addressed_document_is_deleted(
    request: Request,
    documents: Option<Seq<(Text, Text)>>,
    current: Option<Text>,
    name: Text,
)
    requires
        request.method@ == "DELETE"@,
        request.path@ == SETTINGS@ + name + ".ics"@,
        paths::plain_name(name),
    ensures
        settings::settings_step(request, documents, current) == (settings::StepView::Delete {
            name,
        }),
{
    lemma_methods();
    reveal_strlit("DELETE");
    reveal_strlit("PROPPATCH");
    assert("DELETE"@.len() == 6 && "PROPPATCH"@.len() == 9);
    lemma_addressed(request.path@, SETTINGS@, name);
}

// ------------------------------------------------------------------ who is let in

/// A request is let through exactly where the server is configured and its sender signed in;
/// without credentials nothing but the capabilities is answered. A sender who did not sign
/// in is asked to, but for GET and HEAD, which get no challenge.
pub proof fn law_only_who_signed_in_is_let_through(
    method: Text,
    configured: bool,
    signed_in: bool,
)
    ensures
        (super::admission_answer(method, configured, signed_in) is None) <==> (configured
            && signed_in && method != "OPTIONS"@),
        method != "OPTIONS"@ && !configured ==> (super::admission_answer(
            method,
            configured,
            signed_in,
        ) matches Some(answer) && answer.status == 404),
        method != "OPTIONS"@ && configured && !signed_in ==> (super::admission_answer(
            method,
            configured,
            signed_in,
        ) matches Some(answer) && answer.status == 401 && (answer.headers.len() > 0 <==> method
            != "GET"@ && method != "HEAD"@)),
{
}

// ------------------------------------------------------------------ what a request says

/// A collection that may be written tells so, and one that may not is told apart from it.
pub proof fn law_what_may_be_written_is_told(
    components: Seq<Text>,
    name: Text,
    ctag: Text,
    writable: bool,
)
    ensures
        xml::collection_properties(components, name, ctag, writable).contains(
            xml::privileges(writable),
        ),
        text::contains(xml::privileges(true), "<d:write/>"@),
        text::contains(xml::privileges(true), "<d:read/>"@),
        text::contains(xml::privileges(false), "<d:read/>"@),
        xml::privileges(true) != xml::privileges(false),
{
    reveal_strlit(
        "<d:current-user-privilege-set><d:privilege><d:read/></d:privilege><d:privilege><d:write/></d:privilege><d:privilege><d:write-content/></d:privilege><d:privilege><d:bind/></d:privilege><d:privilege><d:unbind/></d:privilege></d:current-user-privilege-set>",
    );
    reveal_strlit(
        "<d:current-user-privilege-set><d:privilege><d:read/></d:privilege></d:current-user-privilege-set>",
    );
    reveal_strlit("<d:write/>");
    reveal_strlit("<d:read/>");
    let all = xml::privileges(true);
    let read = xml::privileges(false);
    assert(all.subrange(43, 52) =~= "<d:read/>"@);
    assert(read.subrange(43, 52) =~= "<d:read/>"@);
    assert(all.subrange(79, 89) =~= "<d:write/>"@);
    assert(text::occurs_at(all, "<d:read/>"@, 43));
    assert(text::occurs_at(read, "<d:read/>"@, 43));
    assert(text::occurs_at(all, "<d:write/>"@, 79));
    assert(all.len() != read.len());
    assert(xml::collection_properties(components, name, ctag, writable)[4] == xml::privileges(
        writable,
    ));
}

/// The tag of the flat collection is that of the tasks, and with the events in it one of
/// both.
pub proof fn law_the_flat_tag_is_of_all_that_is_shown(tasks: Text, events: Text)
    ensures
        super::flat_ctag(tasks, None) == tasks,
        exists|both: Text|
            super::flat_ctag(tasks, Some(events)) == #[trigger] feed::tag_of(both)
                && text::starts_with(both, tasks) && text::ends_with(both, events) && both.len()
                > tasks.len() + events.len(),
        super::flat_components(true).contains("VTODO"@),
        super::flat_components(true).contains("VEVENT"@),
        super::flat_components(false) == seq!["VTODO"@],
{
    reveal_strlit(",");
    let both = tasks + ","@ + events;
    assert(both.subrange(0, tasks.len() as int) == tasks);
    assert(both.subrange(both.len() - events.len(), both.len() as int) == events);
    assert(super::flat_ctag(tasks, Some(events)) == feed::tag_of(both));
    assert(super::flat_components(true)[0] == "VTODO"@);
    assert(super::flat_components(true)[1] == "VEVENT"@);
}

/// A client names the tag that it expects by itself, but for the white space around it; a
/// star stands for any. Only a star asks that there be nothing.
pub proof fn law_what_a_condition_asks_for(header: Text)
    ensures
        text::trimmed(header) != "*"@ ==> super::expected_tag(Some(header)) == Some(
            text::trimmed(header),
        ) && !super::wants_none(Some(header)),
        text::trimmed(header) == "*"@ ==> super::expected_tag(Some(header)) is None
            && super::wants_none(Some(header)),
        super::expected_tag(None) is None,
        !super::wants_none(None),
{
}

/// A client finds its way from any path: the root leads to the principal, and the principal
/// to where the calendars are.
pub proof fn law_a_client_finds_the_calendars()
    ensures
        text::contains(
            super::root_answer().body,
            xml::href_prop("d:current-user-principal"@, super::PRINCIPAL@),
        ),
        text::contains(
            super::principal_answer().body,
            xml::href_prop("c:calendar-home-set"@, super::HOME@),
        ),
{
    let collection = "<d:resourcetype><d:collection/></d:resourcetype>"@;
    let principal = xml::href_prop("d:current-user-principal"@, super::PRINCIPAL@);
    let root = seq![collection, principal, xml::text_prop("d:displayname"@, "Anytype"@)];
    lemma_property_is_told(super::BASE@, root, 1);
    let kind = "<d:resourcetype><d:principal/></d:resourcetype>"@;
    let home = xml::href_prop("c:calendar-home-set"@, super::HOME@);
    let own = seq![kind, home, principal];
    lemma_property_is_told(super::PRINCIPAL@, own, 1);
}

proof fn lemma_property_is_told(path: Text, props: Seq<Text>, i: int)
    requires
        0 <= i < props.len(),
    ensures
        text::contains(
            xml::multistatus_answer(seq![xml::response_of(path, props)]).body,
            props[i],
        ),
{
    let told = xml::response_of(path, props);
    let list = seq![told];
    lemma_in_concat(props, i);
    lemma_inside(
        "<d:response><d:href>"@ + xml::escaped(path) + "</d:href><d:propstat><d:prop>"@,
        text::concat(props),
        "</d:prop><d:status>HTTP/1.1 200 OK</d:status></d:propstat></d:response>"@,
        props[i],
    );
    reveal_with_fuel(text::concat, 2);
    assert(list.drop_last() == Seq::<Text>::empty());
    assert(text::concat(list) == told);
    lemma_inside(
        "<?xml version=\"1.0\" encoding=\"utf-8\"?>\n<d:multistatus xmlns:d=\"DAV:\" xmlns:c=\"urn:ietf:params:xml:ns:caldav\" xmlns:cs=\"http://calendarserver.org/ns/\" xmlns:a=\"http://apple.com/ns/ical/\">"@,
        text::concat(list),
        "</d:multistatus>"@,
        props[i],
    );
}

} // verus!
