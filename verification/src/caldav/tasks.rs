//! The task collections: `tasks/`, `tasks-<key>/` and the tasks in them.
use vstd::prelude::*;

use super::auth;
use super::auth::Reader;
use super::names;
use super::paths;
use super::xml;
use super::xml::{Answer, AnswerView, Report};
use super::{Facade, Request};
use crate::config::CalendarConfig;
use crate::events::EventSnapshot;
use crate::feed;
use crate::feed::{Collection, CollectionView, Outcome, Resource, ResourceView, Snapshot, SnapshotView};
use crate::model::Task;
use crate::table;
use crate::table::Table;
use crate::text;
use crate::text::Text;
use crate::writeback;
use crate::writeback::{Incoming, IncomingView, Patch, PatchView, Wire, WriteError};

verus! {

// ------------------------------------------------------------------ views

/// The members of a collection: the snapshot's own, or others for one reader.
pub enum Members<'a> {
    Borrowed(&'a Table<Resource>),
    Owned(Table<Resource>),
}

impl<'a> Members<'a> {
    pub open spec fn entries(self) -> Seq<(Text, ResourceView)> {
        match self {
            Members::Borrowed(table) => table::views(table@),
            Members::Owned(table) => table::views(table@),
        }
    }

    pub fn table(&self) -> (r: &Table<Resource>)
        ensures
            table::views(r@) == self.entries(),
    {
        match self {
            Members::Borrowed(table) => *table,
            Members::Owned(table) => table,
        }
    }
}

/// What one task collection serves.
pub struct Shown<'a> {
    /// A person's name, or `None` for the flat collection, whose name is configured.
    pub display_name: Option<&'a str>,
    pub ctag: String,
    pub objects: Members<'a>,
}

#[verifier::ext_equal]
pub struct ShownView {
    pub display_name: Option<Text>,
    pub ctag: Text,
    pub objects: Seq<(Text, ResourceView)>,
}

impl<'a> View for Shown<'a> {
    type V = ShownView;

    open spec fn view(&self) -> ShownView {
        ShownView {
            display_name: match self.display_name {
                Some(name) => Some(name@),
                None => None,
            },
            ctag: self.ctag@,
            objects: self.objects.entries(),
        }
    }
}

/// What a calendar shows a person after some shared tasks: their own calendar shows
/// those they share, and another one does not. Also whether anything changed.
pub open spec fn shown_to(
    objects: Seq<(Text, ResourceView)>,
    shared: Seq<(Text, Seq<String>)>,
    me: Text,
    own: bool,
    all: Seq<(Text, ResourceView)>,
) -> (Seq<(Text, ResourceView)>, bool)
    decreases shared.len(),
{
    if shared.len() == 0 {
        (objects, false)
    } else {
        let before = shown_to(objects, shared.drop_last(), me, own, all);
        let (name, assignees) = shared.last();
        let listed = table::at(before.0, name) is Some;
        if !text::texts(assignees).contains(me) {
            before
        } else if own && !listed {
            match table::at(all, name) {
                Some(resource) => (table::put(before.0, name, resource), true),
                None => before,
            }
        } else if !own && listed {
            (table::without(before.0, name), true)
        } else {
            before
        }
    }
}

/// What a collection serves a reader. `None` for a key the snapshot does not hold: a
/// subscription saved before an assignee left the space, or before there was a
/// directory at all.
pub open spec fn view_of(snapshot: SnapshotView, key: Text, person: Option<Text>) -> Option<
    ShownView,
> {
    if key.len() == 0 {
        Some(
            ShownView {
                display_name: None,
                ctag: snapshot.etag,
                objects: snapshot.objects,
            },
        )
    } else {
        match table::at(snapshot.collections, key) {
            None => None,
            Some(collection) => {
                let shown = match person {
                    Some(me) => shown_to(
                        collection.objects,
                        snapshot.shared,
                        me,
                        collection.member_id == Some(me),
                        snapshot.objects,
                    ),
                    None => (collection.objects, false),
                };
                Some(
                    ShownView {
                        display_name: Some(collection.display_name),
                        ctag: if shown.1 {
                            feed::ctag_of(shown.0)
                        } else {
                            collection.ctag
                        },
                        objects: shown.0,
                    },
                )
            },
        }
    }
}

fn show_to<'a>(snapshot: &'a Snapshot, collection: &'a Collection, me: &str) -> (r: (
    Members<'a>,
    bool,
))
    ensures
        (r.0.entries(), r.1) == shown_to(
            collection@.objects,
            snapshot@.shared,
            me@,
            collection@.member_id == Some(me@),
            snapshot@.objects,
        ),
        r.1 == (r.0 is Owned),
{
    let own = text::is_text(&collection.member_id, me);
    let ghost shared = snapshot@.shared;
    let ghost all = snapshot@.objects;
    let mut owned: Option<Table<Resource>> = None;
    let mut i: usize = 0;
    while i < snapshot.shared.len()
        invariant
            i <= snapshot.shared@.len(),
            shared == table::views(snapshot.shared@),
            all == table::views(snapshot.objects@),
            own == (collection@.member_id == Some(me@)),
            shown_to(collection@.objects, shared.take(i as int), me@, own, all) == (match owned {
                Some(t) => (table::views(t@), true),
                None => (collection@.objects, false),
            }),
        decreases snapshot.shared@.len() - i,
    {
        let name = snapshot.shared.key(i);
        let assignees = snapshot.shared.value(i);
        proof {
            assert(shared.take(i + 1).drop_last() == shared.take(i as int));
            assert(shared.take(i + 1).last() == (name@, assignees@));
            table::lemma_views_at(snapshot.objects@, name@);
            table::lemma_views_at(collection.objects@, name@);
            if owned is Some {
                table::lemma_views_at(owned->0@, name@);
            }
        }
        if text::listed(assignees, me) {
            let listed = match &owned {
                Some(t) => t.contains_key(name.as_str()),
                None => collection.objects.contains_key(name.as_str()),
            };
            if own && !listed {
                if let Some(resource) = snapshot.objects.get(name.as_str()) {
                    let mut t = match owned {
                        Some(t) => t,
                        None => feed::copy_objects(&collection.objects),
                    };
                    let copy = resource.copy();
                    proof {
                        table::lemma_views_put(t@, name@, copy);
                    }
                    t.insert(name.clone(), copy);
                    owned = Some(t);
                }
            } else if !own && listed {
                let mut t = match owned {
                    Some(t) => t,
                    None => feed::copy_objects(&collection.objects),
                };
                proof {
                    table::lemma_views_without(t@, name@);
                }
                let _ = t.remove(name.as_str());
                owned = Some(t);
            }
        }
        i += 1;
    }
    assert(shared.take(shared.len() as int) == shared);
    match owned {
        Some(t) => (Members::Owned(t), true),
        None => (Members::Borrowed(&collection.objects), false),
    }
}

pub open spec fn view_view(view: Option<Shown>) -> Option<ShownView> {
    match view {
        Some(view) => Some(view@),
        None => None,
    }
}

/// The flat collection is the whole snapshot; a keyed one is its own subset, with a
/// ctag that moves only when its own members do.
///
/// A task shared with the person reading is shown in their own calendar and in no
/// other, wherever `collections` serves it: they see it without looking in someone
/// else's calendar, and a client still meets each UID once.
pub fn collection_view<'a>(snapshot: &'a Snapshot, key: &str, reader: &Reader) -> (r: Option<
    Shown<'a>,
>)
    ensures
        view_view(r) == view_of(snapshot@, key@, auth::person_view(*reader)),
{
    if key.is_empty() {
        return Some(
            Shown {
                display_name: None,
                ctag: snapshot.etag.clone(),
                objects: Members::Borrowed(&snapshot.objects),
            },
        );
    }
    proof {
        table::lemma_views_at(snapshot.collections@, key@);
    }
    let collection = match snapshot.collections.get(key) {
        Some(collection) => collection,
        None => {
            return None;
        },
    };
    let (objects, changed) = match reader {
        Reader::Person(me) => show_to(snapshot, collection, me.as_str()),
        Reader::Shared => (Members::Borrowed(&collection.objects), false),
    };
    let ctag = if changed {
        feed::collection_ctag(objects.table())
    } else {
        collection.ctag.clone()
    };
    Some(Shown { display_name: Some(collection.display_name.as_str()), ctag, objects })
}

/// Whether a task is shared with a person.
pub open spec fn shares(shared: Seq<(Text, Seq<String>)>, name: Text, me: Text) -> bool {
    exists|i: int|
        0 <= i < shared.len() && (#[trigger] shared[i]).0 == name && text::texts(
            shared[i].1,
        ).contains(me)
}

proof fn lemma_shown(
    objects: Seq<(Text, ResourceView)>,
    shared: Seq<(Text, Seq<String>)>,
    me: Text,
    own: bool,
    all: Seq<(Text, ResourceView)>,
    name: Text,
)
    requires
        table::at(all, name) is Some,
    ensures
        shares(shared, name, me) ==> (table::at(shown_to(objects, shared, me, own, all).0, name)
            is Some) == own,
        !shares(shared, name, me) ==> table::at(shown_to(objects, shared, me, own, all).0, name)
            == table::at(objects, name),
    decreases shared.len(),
{
    if shared.len() > 0 {
        let front = shared.drop_last();
        let (other, assignees) = shared.last();
        let before = shown_to(objects, front, me, own, all);
        lemma_shown(objects, front, me, own, all, name);
        assert(shares(shared, name, me) == (shares(front, name, me) || (other == name
            && text::texts(assignees).contains(me)))) by {
            if shares(front, name, me) {
                let i = choose|i: int|
                    0 <= i < front.len() && (#[trigger] front[i]).0 == name && text::texts(
                        front[i].1,
                    ).contains(me);
                assert(shared[i] == front[i]);
            }
            if other == name && text::texts(assignees).contains(me) {
                assert(shared[shared.len() - 1] == (other, assignees));
            }
            if shares(shared, name, me) {
                let i = choose|i: int|
                    0 <= i < shared.len() && (#[trigger] shared[i]).0 == name && text::texts(
                        shared[i].1,
                    ).contains(me);
                if i < front.len() {
                    assert(front[i] == shared[i]);
                }
            }
        }
        table::lemma_at_without(before.0, other, name);
        if table::at(all, other) is Some {
            table::lemma_at_put(before.0, other, table::at(all, other)->0, name);
        }
    }
}

/// A task shared with the person reading stands in their own calendar and in no other.
pub proof fn law_a_shared_task_is_in_ones_own_calendar(
    snapshot: SnapshotView,
    key: Text,
    me: Text,
    name: Text,
)
    requires
        key.len() > 0,
        table::at(snapshot.collections, key) is Some,
        table::at(snapshot.objects, name) is Some,
        shares(snapshot.shared, name, me),
    ensures
        (table::at(view_of(snapshot, key, Some(me))->0.objects, name) is Some) == (table::at(
            snapshot.collections,
            key,
        )->0.member_id == Some(me)),
{
    let collection = table::at(snapshot.collections, key)->0;
    lemma_shown(
        collection.objects,
        snapshot.shared,
        me,
        collection.member_id == Some(me),
        snapshot.objects,
        name,
    );
}

/// A task that is not shared with the person reading is shown where everyone sees it.
pub proof fn law_other_tasks_stay_where_they_are(
    snapshot: SnapshotView,
    key: Text,
    me: Text,
    name: Text,
)
    requires
        key.len() > 0,
        table::at(snapshot.collections, key) is Some,
        table::at(snapshot.objects, name) is Some,
        !shares(snapshot.shared, name, me),
    ensures
        table::at(view_of(snapshot, key, Some(me))->0.objects, name) == table::at(
            view_of(snapshot, key, None)->0.objects,
            name,
        ),
{
    let collection = table::at(snapshot.collections, key)->0;
    lemma_shown(
        collection.objects,
        snapshot.shared,
        me,
        collection.member_id == Some(me),
        snapshot.objects,
        name,
    );
}

// ------------------------------------------------------------------ reading

/// The events that the flat collection serves as well: their resources and their tag.
pub open spec fn merged_view(events: Option<&EventSnapshot>) -> Option<
    (Seq<(Text, ResourceView)>, Text),
> {
    match events {
        Some(events) => Some((table::views(events.objects@), events.ctag@)),
        None => None,
    }
}

pub open spec fn merged_objects(events: Option<(Seq<(Text, ResourceView)>, Text)>) -> Seq<
    (Text, ResourceView),
> {
    match events {
        Some(events) => events.0,
        None => Seq::empty(),
    }
}

/// What is said of each member of a collection: its tag, or its tag and its text.
pub open spec fn member_responses(
    collection: Text,
    objects: Seq<(Text, ResourceView)>,
    data: bool,
) -> Seq<Text> {
    Seq::new(
        objects.len(),
        |i: int|
            xml::response_of(
                collection + objects[i].0 + ".ics"@,
                if data {
                    xml::data_properties(objects[i].1.etag, objects[i].1.ics)
                } else {
                    xml::member_properties(objects[i].1.etag)
                },
            ),
    )
}

/// Puts what is said of each member of a collection behind other responses.
pub fn put_members(
    responses: &mut Vec<String>,
    collection: &str,
    objects: &Table<Resource>,
    data: bool,
)
    ensures
        text::texts(final(responses)@) == text::texts(old(responses)@) + member_responses(
            collection@,
            table::views(objects@),
            data,
        ),
{
    let ghost start = text::texts(responses@);
    let ghost all = member_responses(collection@, table::views(objects@), data);
    let mut i: usize = 0;
    assert(start + all.take(0) == start);
    while i < objects.len()
        invariant
            i <= objects@.len(),
            all == member_responses(collection@, table::views(objects@), data),
            text::texts(responses@) == start + all.take(i as int),
        decreases objects@.len() - i,
    {
        let resource = objects.value(i);
        let mut href = collection.to_owned();
        href.append(objects.key(i).as_str());
        href.append(".ics");
        let props = if data {
            xml::data_props(resource.etag.as_str(), resource.ics.as_str())
        } else {
            xml::member_props(resource.etag.as_str())
        };
        let one = xml::response(href.as_str(), &props);
        let ghost before = responses@;
        assert(table::views(objects@)[i as int].1 == resource@);
        assert(one@ == all[i as int]);
        responses.push(one);
        assert(text::texts(responses@) == text::texts(before).push(one@));
        i += 1;
        assert(all.take(i as int) == all.take(i - 1).push(all[i - 1]));
    }
    assert(all.take(all.len() as int) == all);
}

/// What an outcome of the feed holds, or the category that says why there is nothing.
pub open spec fn outcome_view(outcome: Outcome) -> Result<SnapshotView, Text> {
    match outcome {
        Outcome::Fresh(snapshot) => Ok(snapshot@),
        Outcome::Stale(snapshot) => Ok(snapshot@),
        Outcome::Unavailable { category } => Err(category@),
    }
}

/// What a PROPFIND of a collection is answered. Depth 1 also lists members with their
/// tags, which is how a generic client finds out what changed without a REPORT.
pub open spec fn listing_answer(
    collection: Text,
    view: ShownView,
    shown_name: Text,
    events: Option<(Seq<(Text, ResourceView)>, Text)>,
    deep: bool,
    writable: bool,
) -> AnswerView {
    let head = seq![
        xml::response_of(
            collection,
            xml::collection_properties(
                super::flat_components(events is Some),
                shown_name,
                super::flat_ctag(
                    view.ctag,
                    match events {
                        Some(events) => Some(events.1),
                        None => None,
                    },
                ),
                writable,
            ),
        ),
    ];
    xml::multistatus_answer(
        if deep {
            head + member_responses(collection, view.objects, false) + member_responses(
                collection,
                merged_objects(events),
                false,
            )
        } else {
            head
        },
    )
}

/// What a REPORT on a collection is answered.
pub open spec fn report_answer(
    kind: Report,
    collection: Text,
    view: Option<ShownView>,
    events: Option<(Seq<(Text, ResourceView)>, Text)>,
) -> AnswerView {
    if kind == Report::SyncCollection {
        xml::bare(403)
    } else if kind == Report::EventsOnly && events is None {
        xml::multistatus_answer(Seq::empty())
    } else {
        match view {
            None => xml::bare(404),
            Some(view) => xml::multistatus_answer(
                (if kind == Report::EventsOnly {
                    Seq::empty()
                } else {
                    member_responses(collection, view.objects, true)
                }) + (if kind == Report::TasksOnly {
                    Seq::empty()
                } else {
                    member_responses(collection, merged_objects(events), true)
                }),
            ),
        }
    }
}

/// What a request for one task is answered.
pub open spec fn member_answer(
    method: Text,
    collection: Text,
    name: Text,
    view: Option<ShownView>,
) -> AnswerView {
    let found = match view {
        Some(view) => table::at(view.objects, name),
        None => None,
    };
    match found {
        None => xml::bare(404),
        Some(resource) => if method == "PROPFIND"@ {
            xml::multistatus_answer(
                seq![
                    xml::response_of(
                        collection + name + ".ics"@,
                        xml::member_properties(resource.etag),
                    ),
                ],
            )
        } else {
            xml::resource_answer(
                resource.etag,
                if method == "HEAD"@ {
                    Seq::empty()
                } else {
                    resource.ics
                },
            )
        },
    }
}

/// What a request to a task collection leads to.
pub enum Step {
    Answered(Answer),
    /// It is for the event under this name, as if it had been addressed among the
    /// events.
    Event(String),
    Put(String),
    Delete(String),
}

#[verifier::ext_equal]
pub enum StepView {
    Answered(AnswerView),
    Event(Text),
    Put(Text),
    Delete(Text),
}

impl View for Step {
    type V = StepView;

    open spec fn view(&self) -> StepView {
        match self {
            Step::Answered(answer) => StepView::Answered(answer@),
            Step::Event(name) => StepView::Event(name@),
            Step::Put(name) => StepView::Put(name@),
            Step::Delete(name) => StepView::Delete(name@),
        }
    }
}

/// The resource that a path addresses in the collection of its key.
pub open spec fn addressed(path: Text, key: Text) -> Option<Text> {
    paths::name_in(path, paths::path_of(key))
}

/// Whether a request to the flat collection is for an event: one that is served there,
/// or a new resource whose body is one.
pub open spec fn for_event(
    request: Request,
    name: Option<Text>,
    events: Option<(Seq<(Text, ResourceView)>, Text)>,
) -> bool {
    events is Some && name is Some && (table::at(merged_objects(events), name->0) is Some || (
    request.method@ == "PUT"@ && text::contains(request.body@, "BEGIN:VEVENT"@)))
}

/// What a request under a task collection leads to. The collections differ only in
/// which resources they list.
pub open spec fn tasks_step(
    request: Request,
    key: Text,
    person: Option<Text>,
    facade: Facade,
    given: Seq<(Text, Text)>,
    outcome: Result<SnapshotView, Text>,
    events: Option<(Seq<(Text, ResourceView)>, Text)>,
) -> StepView {
    let method = request.method@;
    let collection = paths::path_of(key);
    let name = addressed(request.path@, key);
    let here = request.path@ == collection;
    if for_event(request, name, events) {
        StepView::Event(name->0)
    } else if here && (method == "PROPFIND"@ || method == "REPORT"@) {
        match outcome {
            Err(category) => StepView::Answered(super::unavailable_answer(category)),
            Ok(snapshot) => {
                let view = view_of(snapshot, key, person);
                if method == "REPORT"@ {
                    StepView::Answered(
                        report_answer(xml::asked(request.body@), collection, view, events),
                    )
                } else {
                    match view {
                        None => StepView::Answered(xml::bare(404)),
                        Some(view) => StepView::Answered(
                            listing_answer(
                                collection,
                                view,
                                names::name_at(
                                    given,
                                    collection,
                                    match view.display_name {
                                        Some(name) => name,
                                        None => facade.calendar_names.tasks@,
                                    },
                                ),
                                events,
                                request.depth@ == "1"@,
                                facade.writable,
                            ),
                        ),
                    }
                }
            },
        }
    } else if name is Some && (method == "PROPFIND"@ || method == "GET"@ || method == "HEAD"@) {
        match outcome {
            Err(category) => StepView::Answered(super::unavailable_answer(category)),
            Ok(snapshot) => StepView::Answered(
                member_answer(method, collection, name->0, view_of(snapshot, key, person)),
            ),
        }
    } else if name is Some && method == "PUT"@ && facade.writable {
        StepView::Put(name->0)
    } else if name is Some && method == "DELETE"@ && facade.writable {
        StepView::Delete(name->0)
    } else if super::writes(method) {
        StepView::Answered(xml::bare(403))
    } else {
        StepView::Answered(xml::bare(404))
    }
}

/// Whether the flat collection that a path addresses also serves the events.
pub fn merges_events(key: &str, facade: &Facade) -> (r: bool)
    ensures
        r == (key@.len() == 0 && facade.events && facade.events_in_tasks),
{
    key.is_empty() && facade.events && facade.events_in_tasks
}

fn answer_listing(
    collection: &str,
    view: &Shown,
    shown_name: &str,
    events: Option<&EventSnapshot>,
    deep: bool,
    writable: bool,
) -> (r: Answer)
    ensures
        r@ == listing_answer(
            collection@,
            view@,
            shown_name@,
            merged_view(events),
            deep,
            writable,
        ),
{
    let (components, ctag) = super::flat_contents(view.ctag.as_str(), events);
    let props = xml::collection_props(&components, shown_name, ctag.as_str(), writable);
    let mut responses: Vec<String> = Vec::new();
    responses.push(xml::response(collection, &props));
    let ghost head = seq![xml::response_of(collection@, text::texts(props@))];
    assert(text::texts(responses@) == head);
    if deep {
        put_members(&mut responses, collection, view.objects.table(), false);
        match events {
            Some(events) => {
                put_members(&mut responses, collection, &events.objects, false);
            },
            None => {
                assert(text::texts(responses@) + member_responses(
                    collection@,
                    Seq::empty(),
                    false,
                ) == text::texts(responses@));
            },
        }
    }
    xml::multistatus(&responses)
}

fn answer_report(
    kind: Report,
    collection: &str,
    view: &Option<Shown>,
    events: Option<&EventSnapshot>,
) -> (r: Answer)
    ensures
        r@ == report_answer(kind, collection@, view_view(*view), merged_view(events)),
{
    let mut responses: Vec<String> = Vec::new();
    assert(text::texts(responses@) == Seq::<Text>::empty());
    if kind == Report::SyncCollection {
        // Never advertised; a 403 makes a client fall back to a full listing.
        return xml::status(403);
    }
    if kind == Report::EventsOnly && events.is_none() {
        return xml::multistatus(&responses);
    }
    match view {
        None => xml::status(404),
        Some(view) => {
            let ghost mut first: Seq<Text> = Seq::empty();
            if kind != Report::EventsOnly {
                put_members(&mut responses, collection, view.objects.table(), true);
                proof {
                    first = member_responses(collection@, view@.objects, true);
                    assert(Seq::<Text>::empty() + first == first);
                }
            }
            assert(text::texts(responses@) == first);
            if kind != Report::TasksOnly {
                match events {
                    Some(events) => {
                        put_members(&mut responses, collection, &events.objects, true);
                    },
                    None => {
                        assert(first + member_responses(collection@, Seq::empty(), true) == first);
                    },
                }
            } else {
                assert(first + Seq::<Text>::empty() == first);
            }
            xml::multistatus(&responses)
        },
    }
}

fn answer_member(method: &str, collection: &str, name: &str, view: &Option<Shown>) -> (r: Answer)
    ensures
        r@ == member_answer(method@, collection@, name@, view_view(*view)),
{
    let view = match view {
        Some(view) => view,
        None => {
            return xml::status(404);
        },
    };
    let objects = view.objects.table();
    proof {
        table::lemma_views_at(objects@, name@);
    }
    match objects.get(name) {
        None => xml::status(404),
        Some(resource) => if text::same(method, "PROPFIND") {
            let mut href = collection.to_owned();
            href.append(name);
            href.append(".ics");
            xml::single(href.as_str(), &xml::member_props(resource.etag.as_str()))
        } else {
            xml::resource(
                resource.etag.as_str(),
                resource.ics.as_str(),
                text::same(method, "HEAD"),
            )
        },
    }
}

/// Every request under `tasks/` and under a `tasks-<key>/` of its own, where `key` is
/// the key of its path. `events` are those that the flat collection serves as well.
pub fn tasks_route(
    request: &Request,
    key: &str,
    reader: &Reader,
    facade: &Facade,
    given: &Table<String>,
    outcome: &Outcome,
    events: Option<&EventSnapshot>,
) -> (r: Step)
    ensures
        r@ == tasks_step(
            *request,
            key@,
            auth::person_view(*reader),
            *facade,
            table::views(given@),
            outcome_view(*outcome),
            merged_view(events),
        ),
{
    let method = request.method.as_str();
    let path = request.path.as_str();
    let collection = paths::collection_path(key);
    let name = paths::resource_name_in(path, collection.as_str());
    let put = text::same(method, "PUT");
    if let (Some(events), Some(name)) = (events, name) {
        proof {
            table::lemma_views_at(events.objects@, name@);
        }
        if events.objects.contains_key(name) || (put && text::has(
            request.body.as_str(),
            "BEGIN:VEVENT",
        )) {
            return Step::Event(name.to_owned());
        }
    }
    let propfind = text::same(method, "PROPFIND");
    let report = text::same(method, "REPORT");
    let here = text::same(path, collection.as_str());
    if here && (propfind || report) {
        let snapshot = match super::snapshot_in(outcome) {
            Ok(snapshot) => snapshot,
            Err(answer) => {
                return Step::Answered(answer);
            },
        };
        let view = collection_view(snapshot, key, reader);
        if report {
            let kind = xml::report_kind(request.body.as_str());
            return Step::Answered(answer_report(kind, collection.as_str(), &view, events));
        }
        return match view {
            None => Step::Answered(xml::status(404)),
            Some(view) => {
                let default = match view.display_name {
                    Some(name) => name,
                    None => facade.calendar_names.tasks.as_str(),
                };
                let shown_name = names::named(given, collection.as_str(), default);
                let deep = text::same(request.depth.as_str(), "1");
                Step::Answered(
                    answer_listing(
                        collection.as_str(),
                        &view,
                        shown_name.as_str(),
                        events,
                        deep,
                        facade.writable,
                    ),
                )
            },
        };
    }
    if let Some(name) = name {
        if propfind || text::same(method, "GET") || text::same(method, "HEAD") {
            return match super::snapshot_in(outcome) {
                Ok(snapshot) => {
                    let view = collection_view(snapshot, key, reader);
                    Step::Answered(answer_member(method, collection.as_str(), name, &view))
                },
                Err(answer) => Step::Answered(answer),
            };
        }
        if facade.writable && put {
            return Step::Put(name.to_owned());
        }
        if facade.writable && text::same(method, "DELETE") {
            return Step::Delete(name.to_owned());
        }
    }
    if super::is_write(method) {
        Step::Answered(xml::status(403))
    } else {
        Step::Answered(xml::status(404))
    }
}

// ------------------------------------------------------------------ writing

/// What a body that cannot be used is answered.
pub open spec fn refusal(err: WriteError) -> AnswerView {
    xml::plain_answer(
        if err is NotCalendar {
            400
        } else {
            403
        },
        err.words(),
    )
}

/// The task of a body that has been read, or what the request is answered.
pub fn accept_body(parsed: Result<Incoming, WriteError>) -> (r: Result<Incoming, Answer>)
    ensures
        match parsed {
            Ok(incoming) => r == Ok::<Incoming, Answer>(incoming),
            Err(err) => r is Err && r->Err_0@ == refusal(err),
        },
{
    match parsed {
        Ok(incoming) => Ok(incoming),
        Err(err) => {
            let code: u16 = match &err {
                WriteError::NotCalendar(_) => 400,
                _ => 403,
            };
            Err(xml::with_body(code, err.message().as_str()))
        },
    }
}

/// What the current snapshot knows about a resource name under a collection.
#[derive(Debug, PartialEq, Eq)]
pub struct Located {
    /// The object behind the name, wherever in the space it is served.
    pub object_id: Option<String>,
    /// Whether the addressed collection is the one that serves it.
    pub here: bool,
    /// Whose calendar the collection is; `None` for the flat one and for the
    /// unassigned.
    pub member_id: Option<String>,
    /// Whose calendar serves the object now; `None` among the unassigned.
    pub served_by: Option<String>,
}

#[verifier::ext_equal]
pub struct LocatedView {
    pub object_id: Option<Text>,
    pub here: bool,
    pub member_id: Option<Text>,
    pub served_by: Option<Text>,
}

impl View for Located {
    type V = LocatedView;

    open spec fn view(&self) -> LocatedView {
        LocatedView {
            object_id: text::text_of(self.object_id),
            here: self.here,
            member_id: text::text_of(self.member_id),
            served_by: text::text_of(self.served_by),
        }
    }
}

/// Whose calendar serves a name: the first collection that lists it.
pub open spec fn serving(collections: Seq<(Text, CollectionView)>, name: Text) -> Option<Text>
    decreases collections.len(),
{
    if collections.len() == 0 {
        None
    } else if table::at(collections[0].1.objects, name) is Some {
        collections[0].1.member_id
    } else {
        serving(collections.drop_first(), name)
    }
}

/// The name under which an object is served: the one that is asked for, or that of the
/// UID.
pub open spec fn served_name(snapshot: SnapshotView, name: Text, uid: Option<Text>) -> Option<
    Text,
> {
    if table::at(snapshot.objects, name) is Some {
        Some(name)
    } else {
        match uid {
            Some(uid) => table::at(snapshot.names_by_uid, uid),
            None => None,
        }
    }
}

/// Whether a name is shared with a person, by the table of shared tasks.
pub open spec fn shared_with(snapshot: SnapshotView, name: Text, me: Option<Text>) -> bool {
    me is Some && (table::at(snapshot.shared, name) matches Some(assignees) && text::texts(
        assignees,
    ).contains(me->0))
}

/// What a snapshot knows about a name under a collection; `None` for a collection it
/// does not hold.
pub open spec fn located_in(
    snapshot: SnapshotView,
    person: Option<Text>,
    key: Text,
    name: Text,
    uid: Option<Text>,
) -> Option<LocatedView> {
    match view_of(snapshot, key, person) {
        None => None,
        Some(view) => {
            let known = served_name(snapshot, name, uid);
            Some(
                LocatedView {
                    object_id: match known {
                        Some(name) => match table::at(snapshot.objects, name) {
                            Some(resource) => Some(resource.object_id),
                            None => None,
                        },
                        None => None,
                    },
                    here: known is Some && table::at(view.objects, known->0) is Some,
                    member_id: match table::at(snapshot.collections, key) {
                        Some(collection) => collection.member_id,
                        None => None,
                    },
                    served_by: match known {
                        Some(name) => if shared_with(snapshot, name, person) {
                            person
                        } else {
                            serving(snapshot.collections, name)
                        },
                        None => None,
                    },
                },
            )
        },
    }
}

fn who_serves(collections: &Table<Collection>, name: &str) -> (r: Option<String>)
    ensures
        text::text_of(r) == serving(table::views(collections@), name@),
{
    let ghost all = table::views(collections@);
    let mut i: usize = 0;
    assert(all.skip(0) == all);
    while i < collections.len()
        invariant
            i <= collections@.len(),
            all == table::views(collections@),
            serving(all, name@) == serving(all.skip(i as int), name@),
        decreases collections@.len() - i,
    {
        let one = collections.value(i);
        proof {
            assert(all.skip(i as int).drop_first() == all.skip(i + 1));
            assert(all.skip(i as int)[0].1 == one@);
            table::lemma_views_at(one.objects@, name@);
        }
        if one.objects.contains_key(name) {
            return text::copy_text(&one.member_id);
        }
        i += 1;
    }
    None
}

pub open spec fn located_view(located: Option<Located>) -> Option<LocatedView> {
    match located {
        Some(located) => Some(located@),
        None => None,
    }
}

pub open spec fn str_view(s: Option<&str>) -> Option<Text> {
    match s {
        Some(s) => Some(s@),
        None => None,
    }
}

/// Finds the object behind a resource name in the current snapshot, or behind the UID
/// when the name is new. A key the snapshot does not hold is a 404, as it is for reads.
pub fn locate(snapshot: &Snapshot, reader: &Reader, key: &str, name: &str, uid: Option<&str>) -> (r:
    Option<Located>)
    ensures
        located_view(r) == located_in(
            snapshot@,
            auth::person_view(*reader),
            key@,
            name@,
            str_view(uid),
        ),
{
    let view = match collection_view(snapshot, key, reader) {
        Some(view) => view,
        None => {
            return None;
        },
    };
    proof {
        table::lemma_views_at(snapshot.objects@, name@);
        table::lemma_views_at(snapshot.collections@, key@);
        if uid is Some {
            table::lemma_views_at(snapshot.names_by_uid@, uid->0@);
        }
    }
    let member_id = match snapshot.collections.get(key) {
        Some(collection) => text::copy_text(&collection.member_id),
        None => None,
    };
    let known: Option<String> = if snapshot.objects.contains_key(name) {
        Some(name.to_owned())
    } else {
        match uid {
            Some(uid) => match snapshot.names_by_uid.get(uid) {
                Some(name) => Some(name.clone()),
                None => None,
            },
            None => None,
        }
    };
    match known {
        None => Some(Located { object_id: None, here: false, member_id, served_by: None }),
        Some(name) => {
            let objects = view.objects.table();
            proof {
                table::lemma_views_at(snapshot.objects@, name@);
                table::lemma_views_at(snapshot.shared@, name@);
                table::lemma_views_at(objects@, name@);
            }
            let object_id = match snapshot.objects.get(name.as_str()) {
                Some(resource) => Some(resource.object_id.clone()),
                None => None,
            };
            let here = objects.contains_key(name.as_str());
            let served_by = match reader {
                Reader::Person(me) => {
                    let mine = match snapshot.shared.get(name.as_str()) {
                        Some(assignees) => text::listed(assignees, me.as_str()),
                        None => false,
                    };
                    if mine {
                        Some(me.clone())
                    } else {
                        who_serves(&snapshot.collections, name.as_str())
                    }
                },
                Reader::Shared => who_serves(&snapshot.collections, name.as_str()),
            };
            Some(Located { object_id, here, member_id, served_by })
        },
    }
}

/// The people of a list but two.
pub open spec fn others(current: Seq<Text>, from: Option<Text>, to: Option<Text>) -> Seq<Text>
    decreases current.len(),
{
    if current.len() == 0 {
        Seq::empty()
    } else {
        let before = others(current.drop_last(), from, to);
        if Some(current.last()) != from && Some(current.last()) != to {
            before.push(current.last())
        } else {
            before
        }
    }
}

/// The assignees after a task moved: the second comes first, and the first is gone.
pub open spec fn handed(current: Seq<Text>, from: Option<Text>, to: Option<Text>) -> Seq<Text> {
    (match to {
        Some(to) => seq![to],
        None => Seq::empty(),
    }) + others(current, from, to)
}

/// The assignees once a task moves from one person's calendar to another's: the first
/// leaves the task and the second comes first, which is whose calendar serves it.
/// `None` is the unassigned, which adds nobody.
pub fn handed_over(current: &Vec<String>, from: &Option<String>, to: &Option<String>) -> (r: Vec<
    String,
>)
    ensures
        text::texts(r@) == handed(
            text::texts(current@),
            text::text_of(*from),
            text::text_of(*to),
        ),
{
    let mut r: Vec<String> = Vec::new();
    let ghost all = text::texts(current@);
    let ghost first: Seq<Text> = match text::text_of(*to) {
        Some(to) => seq![to],
        None => Seq::empty(),
    };
    if let Some(to) = to {
        r.push(to.clone());
    }
    assert(text::texts(r@) == first);
    let mut i: usize = 0;
    assert(first + others(all.take(0), text::text_of(*from), text::text_of(*to)) == first);
    while i < current.len()
        invariant
            i <= current@.len(),
            all == text::texts(current@),
            text::texts(r@) == first + others(
                all.take(i as int),
                text::text_of(*from),
                text::text_of(*to),
            ),
        decreases current@.len() - i,
    {
        assert(all.take(i + 1).drop_last() == all.take(i as int));
        assert(all.take(i + 1).last() == current@[i as int]@);
        let ghost before = r@;
        let id = &current[i];
        if !text::is_text(from, id.as_str()) && !text::is_text(to, id.as_str()) {
            r.push(id.clone());
            assert(text::texts(r@) == text::texts(before).push(id@));
        }
        i += 1;
    }
    assert(all.take(all.len() as int) == all);
    r
}

/// Who stays is one of those who were there, and neither of the two.
pub proof fn lemma_others(current: Seq<Text>, from: Option<Text>, to: Option<Text>, i: int)
    requires
        0 <= i < others(current, from, to).len(),
    ensures
        Some(others(current, from, to)[i]) != from,
        Some(others(current, from, to)[i]) != to,
        current.contains(others(current, from, to)[i]),
    decreases current.len(),
{
    let before = others(current.drop_last(), from, to);
    if i < before.len() {
        lemma_others(current.drop_last(), from, to, i);
        let k = choose|k: int| 0 <= k < current.drop_last().len() && current.drop_last()[k]
            == before[i];
        assert(current[k] == before[i]);
    } else {
        assert(current[current.len() - 1] == current.last());
    }
}

/// A task that moved is served in the calendar it moved to: that person is its first
/// assignee, and the one it moved from is no longer an assignee.
pub proof fn law_a_moved_task_changes_hands(current: Seq<Text>, from: Text, to: Text)
    requires
        from != to,
    ensures
        handed(current, Some(from), Some(to)).len() > 0,
        handed(current, Some(from), Some(to))[0] == to,
        !handed(current, Some(from), Some(to)).contains(from),
{
    let r = handed(current, Some(from), Some(to));
    let rest = others(current, Some(from), Some(to));
    assert forall|i: int| 0 <= i < r.len() implies r[i] != from by {
        if i > 0 {
            assert(r[i] == rest[i - 1]);
            lemma_others(current, Some(from), Some(to), i - 1);
        }
    }
}

/// What a new task is made with, or what the request is answered.
pub open spec fn task_creation(
    name: Text,
    expected: Option<Text>,
    incoming: IncomingView,
    member_id: Option<Text>,
    config: CalendarConfig,
) -> Result<(Text, PatchView), AnswerView> {
    if expected is Some {
        Err(super::failed_condition("resource does not exist"@))
    } else {
        match incoming.uid {
            None => Err(xml::plain_answer(400, "VTODO has no UID"@)),
            Some(uid) => if feed::filename_of(uid) != name {
                Err(xml::plain_answer(403, "resource name must be derived from the UID"@))
            } else {
                Ok(
                    (
                        uid,
                        PatchView {
                            assignees: match member_id {
                                Some(id) => Some(seq![id]),
                                None => None,
                            },
                            ..writeback::creation_of(incoming, config)
                        },
                    ),
                )
            },
        }
    }
}

pub open spec fn creation_view(r: Result<(String, Patch), Answer>) -> Result<
    (Text, PatchView),
    AnswerView,
> {
    match r {
        Ok((uid, patch)) => Ok((uid@, patch@)),
        Err(answer) => Err(answer@),
    }
}

/// Decides on a new task. It will be served under the name derived from its UID; a
/// client that put it elsewhere would never find it again. A task created in a
/// person's calendar is theirs.
pub fn create(
    name: &str,
    if_match: &Option<String>,
    incoming: &Incoming,
    member_id: &Option<String>,
    config: &CalendarConfig,
) -> (r: Result<(String, Patch), Answer>)
    ensures
        creation_view(r) == task_creation(
            name@,
            text::text_of(*if_match),
            incoming@,
            text::text_of(*member_id),
            *config,
        ),
{
    if if_match.is_some() {
        return Err(super::precondition_failed("resource does not exist"));
    }
    let uid = match &incoming.uid {
        Some(uid) => uid.clone(),
        None => {
            return Err(xml::with_body(400, "VTODO has no UID"));
        },
    };
    if !text::same(feed::calino_filename(uid.as_str()).as_str(), name) {
        return Err(xml::with_body(403, "resource name must be derived from the UID"));
    }
    let mut patch = writeback::for_create(incoming, config);
    match member_id {
        Some(id) => {
            let mut list: Vec<String> = Vec::new();
            list.push(id.clone());
            assert(text::texts(list@) == seq![id@]);
            patch.assignees = Some(list);
        },
        None => {
            patch.assignees = None;
        },
    }
    Ok((uid, patch))
}

/// A new task is served under the very name it was put at.
pub proof fn law_a_new_task_is_found_again(
    name: Text,
    expected: Option<Text>,
    incoming: IncomingView,
    member_id: Option<Text>,
    config: CalendarConfig,
    object_id: Text,
)
    requires
        task_creation(name, expected, incoming, member_id, config) is Ok,
    ensures
        incoming.uid is Some,
        feed::name_of(object_id, incoming.uid) == name,
{
}

/// What a PUT to a task that vanished since the snapshot is answered; `None` makes it
/// anew, without a condition.
pub fn vanished(if_match: &Option<String>) -> (r: Option<Answer>)
    ensures
        super::answer_view(r) == (if if_match is Some {
            Some(super::failed_condition("resource no longer exists"@))
        } else {
            None
        }),
{
    if if_match.is_some() {
        Some(super::precondition_failed("resource no longer exists"))
    } else {
        None
    }
}

/// What a PUT to an existing task writes, or what it is answered. `etag` is the tag of
/// the task as it is now.
pub open spec fn task_update(
    current: Task,
    wire: Wire,
    etag: Text,
    located: LocatedView,
    incoming: IncomingView,
    expected: Option<Text>,
    none: bool,
    config: CalendarConfig,
) -> Result<PatchView, AnswerView> {
    let moving = !located.here;
    if !moving && none {
        Err(super::failed_condition("resource exists"@))
    } else if expected is Some && expected->0 != etag {
        Err(super::failed_condition("etag mismatch"@))
    } else {
        let patch = writeback::update_of(current, wire, incoming, config);
        Ok(
            if moving {
                PatchView {
                    assignees: Some(
                        handed(
                            text::texts(current.assignees@),
                            located.served_by,
                            located.member_id,
                        ),
                    ),
                    ..patch
                }
            } else {
                patch
            },
        )
    }
}

pub open spec fn update_view(r: Result<Patch, Answer>) -> Result<PatchView, AnswerView> {
    match r {
        Ok(patch) => Ok(patch@),
        Err(answer) => Err(answer@),
    }
}

/// Decides on a PUT to an existing task. A fresh read decides the precondition and the
/// patch: the snapshot may be older than an edit made in the space a moment ago. A
/// client moves a task to another calendar with a PUT there and a DELETE of the old
/// resource: the PUT hands the task over to this calendar's person; the DELETE then
/// finds it gone.
pub fn put(
    current: &Task,
    wire: &Wire,
    etag: &str,
    located: &Located,
    incoming: &Incoming,
    if_match: &Option<String>,
    none: bool,
    config: &CalendarConfig,
) -> (r: Result<Patch, Answer>)
    ensures
        update_view(r) == task_update(
            *current,
            *wire,
            etag@,
            located@,
            incoming@,
            text::text_of(*if_match),
            none,
            *config,
        ),
{
    let moving = !located.here;
    if !moving && none {
        return Err(super::precondition_failed("resource exists"));
    }
    if let Some(expected) = if_match {
        if !text::same(expected.as_str(), etag) {
            return Err(super::precondition_failed("etag mismatch"));
        }
    }
    let mut patch = writeback::for_update(current, wire, incoming, config);
    if moving {
        patch.assignees = Some(
            handed_over(&current.assignees, &located.served_by, &located.member_id),
        );
    }
    Ok(patch)
}

/// A write whose condition does not hold changes nothing.
pub proof fn law_a_stale_write_changes_nothing(
    current: Task,
    wire: Wire,
    etag: Text,
    located: LocatedView,
    incoming: IncomingView,
    expected: Text,
    none: bool,
    config: CalendarConfig,
)
    requires
        expected != etag,
    ensures
        task_update(current, wire, etag, located, incoming, Some(expected), none, config) is Err,
{
}

/// The status of a successful PUT: a moved task is new where it is put.
pub fn put_status(located: &Located) -> (r: u16)
    ensures
        r == (if located.here {
            204u16
        } else {
            201u16
        }),
{
    if located.here {
        204
    } else {
        201
    }
}

/// What a successful write is answered: with the new tag, read back from the space, so
/// that the client does not need a PROPFIND to learn it. The write happened even where
/// the tag is unknown.
pub open spec fn written_answer(status: int, etag: Option<Text>) -> AnswerView {
    match etag {
        Some(etag) => xml::headed(status, "etag"@, etag, Seq::empty()),
        None => xml::bare(status),
    }
}

pub fn written(code: u16, etag: &Option<String>) -> (r: Answer)
    ensures
        r@ == written_answer(code as int, text::text_of(*etag)),
{
    match etag {
        Some(etag) => {
            proof {
                reveal_strlit("");
                assert(""@ == Seq::<char>::empty());
            }
            xml::with_header(code, "etag", etag.as_str(), "")
        },
        None => xml::status(code),
    }
}

/// What a DELETE asks for next: the object to read, or what it is answered.
pub open spec fn deletion_of(located: LocatedView) -> Result<Text, AnswerView> {
    match located.object_id {
        Some(id) => if located.here {
            Ok(id)
        } else {
            Err(xml::bare(204))
        },
        None => Err(xml::bare(404)),
    }
}

/// Decides whether a DELETE concerns a task at all. One that moved to another calendar,
/// as the second half of a move does, is left alone.
pub fn begin_delete(located: &Located) -> (r: Result<String, Answer>)
    ensures
        (match r {
            Ok(id) => Ok::<Text, AnswerView>(id@),
            Err(answer) => Err::<Text, AnswerView>(answer@),
        }) == deletion_of(located@),
{
    match &located.object_id {
        Some(id) => if located.here {
            Ok(id.clone())
        } else {
            Err(xml::status(204))
        },
        None => Err(xml::status(404)),
    }
}

/// What a DELETE does to a task.
pub enum Removal {
    /// The task is archived.
    Archive,
    /// The task is changed: the calendar's person leaves it.
    Update(Patch),
}

#[verifier::ext_equal]
pub enum RemovalView {
    Archive,
    Update(PatchView),
}

/// What a DELETE does to a task, or what it is answered.
pub open spec fn removal_of(
    assignees: Seq<Text>,
    etag: Text,
    member_id: Option<Text>,
    expected: Option<Text>,
) -> Result<RemovalView, AnswerView> {
    if expected is Some && expected->0 != etag {
        Err(super::failed_condition("etag mismatch"@))
    } else {
        match member_id {
            None => Ok(RemovalView::Archive),
            Some(_) => Ok(
                RemovalView::Update(
                    PatchView {
                        assignees: Some(others(assignees, member_id, None)),
                        ..writeback::no_change()
                    },
                ),
            ),
        }
    }
}

pub open spec fn removal_view(r: Result<Removal, Answer>) -> Result<RemovalView, AnswerView> {
    match r {
        Ok(Removal::Archive) => Ok(RemovalView::Archive),
        Ok(Removal::Update(patch)) => Ok(RemovalView::Update(patch@)),
        Err(answer) => Err(answer@),
    }
}

/// In the flat calendar and among the unassigned a DELETE archives the task. In a
/// person's calendar it takes that person off the task: what someone means by deleting
/// from their own calendar is "not mine", and the task moves to the next assignee's
/// calendar or to the unassigned.
pub fn delete(current: &Task, etag: &str, located: &Located, if_match: &Option<String>) -> (r:
    Result<Removal, Answer>)
    ensures
        removal_view(r) == removal_of(
            text::texts(current.assignees@),
            etag@,
            text::text_of(located.member_id),
            text::text_of(*if_match),
        ),
{
    if let Some(expected) = if_match {
        if !text::same(expected.as_str(), etag) {
            return Err(super::precondition_failed("etag mismatch"));
        }
    }
    if located.member_id.is_none() {
        return Ok(Removal::Archive);
    }
    let remaining = handed_over(&current.assignees, &located.member_id, &None);
    assert(text::texts(remaining@) == others(
        text::texts(current.assignees@),
        text::text_of(located.member_id),
        None,
    ));
    let mut patch = Patch::default();
    patch.assignees = Some(remaining);
    Ok(Removal::Update(patch))
}

/// A DELETE in one person's calendar never archives a task, and leaves everyone else
/// on it.
pub proof fn law_deleting_ones_own_leaves_the_others(
    assignees: Seq<Text>,
    etag: Text,
    me: Text,
    other: Text,
)
    requires
        other != me,
        assignees.contains(other),
    ensures
        removal_of(assignees, etag, Some(me), None) matches Ok(RemovalView::Update(patch))
            && patch.assignees is Some && patch.assignees->0.contains(other)
            && !patch.assignees->0.contains(me),
{
    let left = others(assignees, Some(me), None);
    let k = choose|k: int| 0 <= k < assignees.len() && assignees[k] == other;
    lemma_others_keeps(assignees, Some(me), None, k);
    assert forall|i: int| 0 <= i < left.len() implies left[i] != me by {
        lemma_others(assignees, Some(me), None, i);
    }
}

/// Everybody but the two stays.
pub proof fn lemma_others_keeps(current: Seq<Text>, from: Option<Text>, to: Option<Text>, k: int)
    requires
        0 <= k < current.len(),
        Some(current[k]) != from,
        Some(current[k]) != to,
    ensures
        others(current, from, to).contains(current[k]),
    decreases current.len(),
{
    let before = others(current.drop_last(), from, to);
    let after = others(current, from, to);
    if k < current.len() - 1 {
        lemma_others_keeps(current.drop_last(), from, to, k);
        let i = choose|i: int| 0 <= i < before.len() && before[i] == current.drop_last()[k];
        assert(after[i] == current[k]);
    } else {
        assert(after[before.len() as int] == current[k]);
    }
}

} // verus!
