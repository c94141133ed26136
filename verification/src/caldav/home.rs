//! The home set: which calendars a reader is offered.
use vstd::prelude::*;

use super::auth;
use super::auth::Reader;
use super::names;
use super::paths;
use super::settings;
use super::tasks;
use super::xml;
use super::xml::{Answer, AnswerView};
use super::{Facade, EVENTS, SETTINGS, TASKS};
use crate::events::EventSnapshot;
use crate::feed::{Collection, CollectionView, ResourceView, Snapshot, SnapshotView};
use crate::table;
use crate::table::Table;
use crate::text;
use crate::text::Text;

verus! {

/// What is said of the events, unless the flat collection serves them.
pub open spec fn events_response(
    facade: Facade,
    given: Seq<(Text, Text)>,
    events: Option<(Seq<(Text, ResourceView)>, Text)>,
) -> Seq<Text> {
    match events {
        Some((_, ctag)) => if facade.events_in_tasks {
            Seq::empty()
        } else {
            seq![
                xml::response_of(
                    EVENTS@,
                    xml::collection_properties(
                        seq!["VEVENT"@],
                        names::name_at(given, EVENTS@, facade.calendar_names.events@),
                        ctag,
                        facade.writable,
                    ),
                ),
            ]
        },
        None => Seq::empty(),
    }
}

/// What is said of the client's own documents, where they are kept.
pub open spec fn settings_response(
    facade: Facade,
    documents: Option<Seq<(Text, Text)>>,
) -> Seq<Text> {
    if facade.documents {
        seq![xml::response_of(SETTINGS@, settings::settings_properties(documents))]
    } else {
        Seq::empty()
    }
}

/// What is said of the flat collection, which is there while no person has a calendar:
/// a home set lists a task once, in the flat collection or in the calendars per person,
/// never in both.
pub open spec fn flat_response(
    snapshot: SnapshotView,
    facade: Facade,
    given: Seq<(Text, Text)>,
    events: Option<(Seq<(Text, ResourceView)>, Text)>,
) -> Seq<Text> {
    let merged = facade.events_in_tasks && events is Some;
    if snapshot.collections.len() == 0 {
        seq![
            xml::response_of(
                TASKS@,
                xml::collection_properties(
                    super::flat_components(merged),
                    names::name_at(given, TASKS@, facade.calendar_names.tasks@),
                    super::flat_ctag(
                        snapshot.etag,
                        match events {
                            Some((_, ctag)) => if merged {
                                Some(ctag)
                            } else {
                                None
                            },
                            None => None,
                        },
                    ),
                    facade.writable,
                ),
            ),
        ]
    } else {
        Seq::empty()
    }
}

/// Whether a calendar is the reader's own.
pub open spec fn is_own(collection: CollectionView, person: Option<Text>) -> bool {
    person is Some && collection.member_id == person
}

/// What is said of one person's calendar. The calendars of others arrive switched off
/// for a person: a client reads the flag once, when it first sees the path. Nobody in
/// particular gets them all switched on.
pub open spec fn person_response(
    snapshot: SnapshotView,
    key: Text,
    collection: CollectionView,
    person: Option<Text>,
    facade: Facade,
    given: Seq<(Text, Text)>,
) -> Text {
    let path = paths::path_of(key);
    let props = xml::collection_properties(
        seq!["VTODO"@],
        names::name_at(given, path, collection.display_name),
        match tasks::view_of(snapshot, key, person) {
            Some(view) => view.ctag,
            None => Seq::empty(),
        },
        facade.writable,
    );
    xml::response_of(
        path,
        if person is Some && !is_own(collection, person) {
            props.push(xml::text_prop("cs:calendar-hidden"@, "1"@))
        } else {
            props
        },
    )
}

/// What is said of the reader's own calendars, or of all others, in order.
pub open spec fn person_responses(
    snapshot: SnapshotView,
    collections: Seq<(Text, CollectionView)>,
    own: bool,
    person: Option<Text>,
    facade: Facade,
    given: Seq<(Text, Text)>,
) -> Seq<Text>
    decreases collections.len(),
{
    if collections.len() == 0 {
        Seq::empty()
    } else {
        let before = person_responses(
            snapshot,
            collections.drop_last(),
            own,
            person,
            facade,
            given,
        );
        let (key, collection) = collections.last();
        if is_own(collection, person) == own {
            before.push(person_response(snapshot, key, collection, person, facade, given))
        } else {
            before
        }
    }
}

/// The calendars a reader sees. A person's own calendar comes first, because a client
/// makes the first collection the default one for a new task.
pub open spec fn home_answer(
    snapshot: SnapshotView,
    person: Option<Text>,
    facade: Facade,
    given: Seq<(Text, Text)>,
    events: Option<(Seq<(Text, ResourceView)>, Text)>,
    documents: Option<Seq<(Text, Text)>>,
) -> AnswerView {
    xml::multistatus_answer(
        flat_response(snapshot, facade, given, events) + person_responses(
            snapshot,
            snapshot.collections,
            true,
            person,
            facade,
            given,
        ) + person_responses(snapshot, snapshot.collections, false, person, facade, given)
            + events_response(facade, given, events) + settings_response(facade, documents),
    )
}

fn own_calendar(collection: &Collection, reader: &Reader) -> (r: bool)
    ensures
        r == is_own(collection@, auth::person_view(*reader)),
{
    match reader {
        Reader::Person(id) => text::is_text(&collection.member_id, id.as_str()),
        Reader::Shared => false,
    }
}

fn one(component: &str) -> (r: Vec<String>)
    ensures
        text::texts(r@) == seq![component@],
{
    let mut r: Vec<String> = Vec::new();
    r.push(component.to_owned());
    assert(text::texts(r@) == seq![component@]);
    r
}

fn respond_person(
    snapshot: &Snapshot,
    key: &str,
    collection: &Collection,
    reader: &Reader,
    facade: &Facade,
    given: &Table<String>,
) -> (r: String)
    ensures
        r@ == person_response(
            snapshot@,
            key@,
            collection@,
            auth::person_view(*reader),
            *facade,
            table::views(given@),
        ),
{
    let path = paths::collection_path(key);
    let shown = names::named(given, path.as_str(), collection.display_name.as_str());
    let ctag = match tasks::collection_view(snapshot, key, reader) {
        Some(view) => view.ctag,
        None => String::new(),
    };
    let components = one("VTODO");
    let mut props = xml::collection_props(
        &components,
        shown.as_str(),
        ctag.as_str(),
        facade.writable,
    );
    let person = match reader {
        Reader::Person(_) => true,
        Reader::Shared => false,
    };
    if person && !own_calendar(collection, reader) {
        let ghost before = props@;
        // An explicit value: a client parses an empty element into an object, which is
        // truthy.
        let hidden = xml::prop_text("cs:calendar-hidden", "1");
        props.push(hidden);
        assert(text::texts(props@) == text::texts(before).push(hidden@));
    }
    xml::response(path.as_str(), &props)
}

fn put_people(
    responses: &mut Vec<String>,
    snapshot: &Snapshot,
    own: bool,
    reader: &Reader,
    facade: &Facade,
    given: &Table<String>,
)
    ensures
        text::texts(final(responses)@) == text::texts(old(responses)@) + person_responses(
            snapshot@,
            snapshot@.collections,
            own,
            auth::person_view(*reader),
            *facade,
            table::views(given@),
        ),
{
    let ghost start = text::texts(responses@);
    let ghost all = snapshot@.collections;
    let ghost person = auth::person_view(*reader);
    let ghost names_given = table::views(given@);
    let mut i: usize = 0;
    assert(start + person_responses(snapshot@, all.take(0), own, person, *facade, names_given)
        == start);
    while i < snapshot.collections.len()
        invariant
            i <= snapshot.collections@.len(),
            all == table::views(snapshot.collections@),
            person == auth::person_view(*reader),
            names_given == table::views(given@),
            text::texts(responses@) == start + person_responses(
                snapshot@,
                all.take(i as int),
                own,
                person,
                *facade,
                names_given,
            ),
        decreases snapshot.collections@.len() - i,
    {
        let key = snapshot.collections.key(i);
        let collection = snapshot.collections.value(i);
        assert(all.take(i + 1).drop_last() == all.take(i as int));
        assert(all.take(i + 1).last() == (key@, collection@));
        let ghost before = responses@;
        if own_calendar(collection, reader) == own {
            let said = respond_person(snapshot, key.as_str(), collection, reader, facade, given);
            responses.push(said);
            assert(text::texts(responses@) == text::texts(before).push(said@));
        }
        i += 1;
    }
    assert(all.take(all.len() as int) == all);
}

/// The calendars a reader sees: the flat task collection or one per person, the events
/// and the client's settings. `None` are documents that could not be read.
pub fn home_set(
    snapshot: &Snapshot,
    reader: &Reader,
    facade: &Facade,
    given: &Table<String>,
    events: Option<&EventSnapshot>,
    documents: &Option<Vec<(String, String)>>,
) -> (r: Answer)
    ensures
        r@ == home_answer(
            snapshot@,
            auth::person_view(*reader),
            *facade,
            table::views(given@),
            tasks::merged_view(events),
            settings::stored_view(*documents),
        ),
{
    let mut responses: Vec<String> = Vec::new();
    let ghost person = auth::person_view(*reader);
    let ghost names_given = table::views(given@);
    let ghost flat = flat_response(snapshot@, *facade, names_given, tasks::merged_view(events));
    assert(text::texts(responses@) == Seq::<Text>::empty());
    assert(snapshot@.collections.len() == snapshot.collections@.len());
    if snapshot.collections.is_empty() {
        let merged = if facade.events_in_tasks {
            events
        } else {
            None
        };
        let (components, ctag) = super::flat_contents(snapshot.etag.as_str(), merged);
        let shown = names::named(given, TASKS, facade.calendar_names.tasks.as_str());
        let props = xml::collection_props(
            &components,
            shown.as_str(),
            ctag.as_str(),
            facade.writable,
        );
        responses.push(xml::response(TASKS, &props));
    }
    assert(text::texts(responses@) == flat);
    put_people(&mut responses, snapshot, true, reader, facade, given);
    put_people(&mut responses, snapshot, false, reader, facade, given);
    let ghost so_far = responses@;
    match events {
        Some(events) => {
            if !facade.events_in_tasks {
                let shown = names::named(given, EVENTS, facade.calendar_names.events.as_str());
                let components = one("VEVENT");
                let props = xml::collection_props(
                    &components,
                    shown.as_str(),
                    events.ctag.as_str(),
                    facade.writable,
                );
                responses.push(xml::response(EVENTS, &props));
            }
        },
        None => {},
    }
    let ghost event_part = events_response(*facade, names_given, tasks::merged_view(events));
    assert(text::texts(responses@) == text::texts(so_far) + event_part);
    let ghost with_events = responses@;
    if facade.documents {
        responses.push(
            xml::response(SETTINGS, &settings::settings_collection_props(documents)),
        );
    }
    assert(text::texts(responses@) == text::texts(with_events) + settings_response(
        *facade,
        settings::stored_view(*documents),
    ));
    xml::multistatus(&responses)
}

} // verus!
