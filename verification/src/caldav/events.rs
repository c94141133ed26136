//! The event collection, `events/`, with recurring series and deadlines.
use vstd::prelude::*;

use super::names;
use super::paths;
use super::tasks;
use super::xml;
use super::xml::{Answer, AnswerView, Report};
use super::{Facade, Request, EVENTS};
use crate::config::CalendarConfig;
use crate::event_changes;
use crate::event_changes::{
    EventPatch, EventPatchView, EventWriteError, IncomingEvent, IncomingSeries, IncomingSeriesView,
    SeriesPlan, SeriesPlanView,
};
use crate::events;
use crate::events::{Event, EventSnapshot, EventView};
use crate::feed;
use crate::feed::{Resource, ResourceView};
use crate::ical;
use crate::source::SourceError;
use crate::table;
use crate::table::Table;
use crate::text;
use crate::text::Text;
use crate::time::Instant;

verus! {

// ------------------------------------------------------------------ reading

/// The path of an event.
pub open spec fn event_path(name: Text) -> Text {
    EVENTS@ + name + ".ics"@
}

pub fn event_href(name: &str) -> (r: String)
    ensures
        r@ == event_path(name@),
{
    let mut r = EVENTS.to_owned();
    r.append(name);
    r.append(".ics");
    r
}

/// What a request to the events leads to.
pub enum Step {
    Answered(Answer),
    PutDeadline(String),
    DeleteDeadline(String),
    Put(String),
    Delete(String),
}

#[verifier::ext_equal]
pub enum StepView {
    Answered(AnswerView),
    PutDeadline(Text),
    DeleteDeadline(Text),
    Put(Text),
    Delete(Text),
}

impl View for Step {
    type V = StepView;

    open spec fn view(&self) -> StepView {
        match self {
            Step::Answered(answer) => StepView::Answered(answer@),
            Step::PutDeadline(name) => StepView::PutDeadline(name@),
            Step::DeleteDeadline(name) => StepView::DeleteDeadline(name@),
            Step::Put(name) => StepView::Put(name@),
            Step::Delete(name) => StepView::Delete(name@),
        }
    }
}

/// The events as they are served, or what is answered while they cannot be read.
pub open spec fn served(snapshot: Result<&EventSnapshot, &SourceError>) -> Result<
    (Seq<(Text, ResourceView)>, Text),
    AnswerView,
> {
    match snapshot {
        Ok(snapshot) => Ok((table::views(snapshot.objects@), snapshot.ctag@)),
        Err(err) => Err(super::failure_answer(*err)),
    }
}

/// What a PROPFIND of the collection is answered.
pub open spec fn listing_answer(
    objects: Seq<(Text, ResourceView)>,
    ctag: Text,
    shown_name: Text,
    deep: bool,
    writable: bool,
) -> AnswerView {
    let head = seq![
        xml::response_of(
            EVENTS@,
            xml::collection_properties(seq!["VEVENT"@], shown_name, ctag, writable),
        ),
    ];
    xml::multistatus_answer(
        if deep {
            head + tasks::member_responses(EVENTS@, objects, false)
        } else {
            head
        },
    )
}

/// What a request for one event is answered.
pub open spec fn member_answer(
    method: Text,
    name: Text,
    objects: Seq<(Text, ResourceView)>,
) -> AnswerView {
    match table::at(objects, name) {
        None => xml::bare(404),
        Some(resource) => if method == "PROPFIND"@ {
            xml::multistatus_answer(
                seq![
                    xml::response_of(event_path(name), xml::member_properties(resource.etag)),
                ],
            )
        } else {
            xml::resource_answer(
                resource.etag,
                if method == "HEAD"@ {
                    Seq::empty()
                } else {
                    resource.ics
                },
            )
        },
    }
}

/// What a request under `events/` leads to. The snapshot serves reads; a fresh read of
/// the object decides write preconditions.
pub open spec fn events_step(
    request: Request,
    facade: Facade,
    given: Seq<(Text, Text)>,
    snapshot: Result<(Seq<(Text, ResourceView)>, Text), AnswerView>,
) -> StepView {
    let method = request.method@;
    let here = request.path@ == EVENTS@;
    let name = paths::name_in(request.path@, EVENTS@);
    let kind = xml::asked(request.body@);
    if here && method == "PROPFIND"@ {
        StepView::Answered(
            match snapshot {
                Ok((objects, ctag)) => listing_answer(
                    objects,
                    ctag,
                    names::name_at(given, EVENTS@, facade.calendar_names.events@),
                    request.depth@ == "1"@,
                    facade.writable,
                ),
                Err(answer) => answer,
            },
        )
    } else if here && method == "REPORT"@ {
        StepView::Answered(
            if kind == Report::SyncCollection {
                xml::bare(403)
            } else if kind == Report::TasksOnly {
                xml::multistatus_answer(Seq::empty())
            } else {
                match snapshot {
                    Ok((objects, _)) => xml::multistatus_answer(
                        tasks::member_responses(EVENTS@, objects, true),
                    ),
                    Err(answer) => answer,
                }
            },
        )
    } else if name is Some && (method == "PROPFIND"@ || method == "GET"@ || method == "HEAD"@) {
        StepView::Answered(
            match snapshot {
                Ok((objects, _)) => member_answer(method, name->0, objects),
                Err(answer) => answer,
            },
        )
    } else if name is Some && facade.writable && (method == "PUT"@ || method == "DELETE"@) {
        let deadline = text::ends_with(name->0, events::DEADLINE_SUFFIX@);
        if method == "PUT"@ {
            if deadline {
                StepView::PutDeadline(name->0)
            } else {
                StepView::Put(name->0)
            }
        } else if deadline {
            StepView::DeleteDeadline(name->0)
        } else {
            StepView::Delete(name->0)
        }
    } else if super::writes(method) {
        StepView::Answered(xml::bare(403))
    } else {
        StepView::Answered(xml::bare(404))
    }
}

fn answer_listing(snapshot: &EventSnapshot, shown_name: &str, deep: bool, writable: bool) -> (r:
    Answer)
    ensures
        r@ == listing_answer(
            table::views(snapshot.objects@),
            snapshot.ctag@,
            shown_name@,
            deep,
            writable,
        ),
{
    let mut components: Vec<String> = Vec::new();
    components.push("VEVENT".to_owned());
    assert(text::texts(components@) == seq!["VEVENT"@]);
    let props = xml::collection_props(&components, shown_name, snapshot.ctag.as_str(), writable);
    let mut responses: Vec<String> = Vec::new();
    responses.push(xml::response(EVENTS, &props));
    assert(text::texts(responses@) == seq![xml::response_of(EVENTS@, text::texts(props@))]);
    if deep {
        tasks::put_members(&mut responses, EVENTS, &snapshot.objects, false);
    }
    xml::multistatus(&responses)
}

fn answer_member(method: &str, name: &str, objects: &Table<Resource>) -> (r: Answer)
    ensures
        r@ == member_answer(method@, name@, table::views(objects@)),
{
    proof {
        table::lemma_views_at(objects@, name@);
    }
    match objects.get(name) {
        None => xml::status(404),
        Some(resource) => if text::same(method, "PROPFIND") {
            xml::single(event_href(name).as_str(), &xml::member_props(resource.etag.as_str()))
        } else {
            xml::resource(
                resource.etag.as_str(),
                resource.ics.as_str(),
                text::same(method, "HEAD"),
            )
        },
    }
}

/// Every request under `events/`. Mirrors the task collection.
pub fn events_route(
    request: &Request,
    facade: &Facade,
    given: &Table<String>,
    snapshot: Result<&EventSnapshot, &SourceError>,
) -> (r: Step)
    ensures
        r@ == events_step(*request, *facade, table::views(given@), served(snapshot)),
{
    let method = request.method.as_str();
    let path = request.path.as_str();
    let here = text::same(path, EVENTS);
    let propfind = text::same(method, "PROPFIND");
    if here && propfind {
        return Step::Answered(
            match snapshot {
                Ok(snapshot) => {
                    let shown = names::named(
                        given,
                        EVENTS,
                        facade.calendar_names.events.as_str(),
                    );
                    let deep = text::same(request.depth.as_str(), "1");
                    answer_listing(snapshot, shown.as_str(), deep, facade.writable)
                },
                Err(err) => super::source_failure(err),
            },
        );
    }
    if here && text::same(method, "REPORT") {
        let kind = xml::report_kind(request.body.as_str());
        let mut responses: Vec<String> = Vec::new();
        assert(text::texts(responses@) == Seq::<Text>::empty());
        if kind == Report::SyncCollection {
            return Step::Answered(xml::status(403));
        }
        if kind == Report::TasksOnly {
            return Step::Answered(xml::multistatus(&responses));
        }
        return Step::Answered(
            match snapshot {
                Ok(snapshot) => {
                    tasks::put_members(&mut responses, EVENTS, &snapshot.objects, true);
                    assert(Seq::<Text>::empty() + tasks::member_responses(
                        EVENTS@,
                        table::views(snapshot.objects@),
                        true,
                    ) == tasks::member_responses(EVENTS@, table::views(snapshot.objects@), true));
                    xml::multistatus(&responses)
                },
                Err(err) => super::source_failure(err),
            },
        );
    }
    if let Some(name) = paths::resource_name_in(path, EVENTS) {
        if propfind || text::same(method, "GET") || text::same(method, "HEAD") {
            return Step::Answered(
                match snapshot {
                    Ok(snapshot) => answer_member(method, name, &snapshot.objects),
                    Err(err) => super::source_failure(err),
                },
            );
        }
        let deadline = text::ends(name, events::DEADLINE_SUFFIX);
        if facade.writable && text::same(method, "PUT") {
            return if deadline {
                Step::PutDeadline(name.to_owned())
            } else {
                Step::Put(name.to_owned())
            };
        }
        if facade.writable && text::same(method, "DELETE") {
            return if deadline {
                Step::DeleteDeadline(name.to_owned())
            } else {
                Step::Delete(name.to_owned())
            };
        }
    }
    if super::is_write(method) {
        Step::Answered(xml::status(403))
    } else {
        Step::Answered(xml::status(404))
    }
}

/// The object behind a resource name.
pub fn locate_event(snapshot: &EventSnapshot, name: &str) -> (r: Option<String>)
    ensures
        text::text_of(r) == (match table::at(table::views(snapshot.objects@), name@) {
            Some(resource) => Some(resource.object_id),
            None => None,
        }),
{
    proof {
        table::lemma_views_at(snapshot.objects@, name@);
    }
    match snapshot.objects.get(name) {
        Some(resource) => Some(resource.object_id.clone()),
        None => None,
    }
}

// ------------------------------------------------------------------ writing

/// What a body that cannot be used is answered.
pub open spec fn refusal(err: EventWriteError) -> AnswerView {
    xml::plain_answer(
        if err is NotCalendar {
            400
        } else {
            403
        },
        err.words(),
    )
}

/// The series of a body that has been read, or what the request is answered.
pub fn accept_body(parsed: Result<IncomingSeries, EventWriteError>) -> (r: Result<
    IncomingSeries,
    Answer,
>)
    ensures
        match parsed {
            Ok(incoming) => r == Ok::<IncomingSeries, Answer>(incoming),
            Err(err) => r is Err && r->Err_0@ == refusal(err),
        },
{
    match parsed {
        Ok(incoming) => Ok(incoming),
        Err(err) => {
            let code: u16 = match &err {
                EventWriteError::NotCalendar(_) => 400,
                _ => 403,
            };
            Err(xml::with_body(code, err.message().as_str()))
        },
    }
}

/// The tag of an event's resource as it is now.
pub open spec fn event_tag(
    current: EventView,
    replacements: Seq<Event>,
    config: CalendarConfig,
    fallback: Instant,
) -> Option<Text> {
    match events::series_resource(current, refs(replacements), config, fallback) {
        Some(resource) => Some(resource.etag),
        None => None,
    }
}

/// References to some events.
pub open spec fn refs<'a>(v: Seq<Event>) -> Seq<&'a Event> {
    Seq::new(v.len(), |i: int| &v[i])
}

fn references<'a>(v: &'a Vec<Event>) -> (r: Vec<&'a Event>)
    ensures
        r@ == refs(v@),
{
    let mut r: Vec<&'a Event> = Vec::new();
    let mut i: usize = 0;
    while i < v.len()
        invariant
            i <= v@.len(),
            r@ == refs(v@).take(i as int),
        decreases v@.len() - i,
    {
        r.push(&v[i]);
        i += 1;
        assert(r@ == refs(v@).take(i as int));
    }
    assert(refs(v@).take(i as int) == refs(v@));
    r
}

/// The tag of an event's resource as it is now; none without a start.
pub fn tag_of_event(
    current: &Event,
    replacements: &Vec<Event>,
    config: &CalendarConfig,
    fallback: Instant,
) -> (r: Option<String>)
    requires
        events::series_folds(current@, refs(replacements@)),
        ical::name_folds(config.name@),
    ensures
        text::text_of(r) == event_tag(current@, replacements@, *config, fallback),
{
    match events::resource_for(current, &references(replacements), config, fallback) {
        Some(resource) => Some(resource.etag),
        None => None,
    }
}

proof fn lemma_replacements_point(all: Seq<Event>, master: Text)
    requires
        forall|i: int|
            0 <= i < all.len() && (#[trigger] all[i])@.series == Some(master)
                ==> all[i]@.occurrence is Some,
    ensures
        events::replacements_in(all, master) == refs(events::pointing_at(all, master)),
    decreases all.len(),
{
    if all.len() > 0 {
        let front = all.drop_last();
        assert forall|i: int|
            0 <= i < front.len() && (#[trigger] front[i])@.series == Some(
                master,
            ) implies front[i]@.occurrence is Some by {
            assert(front[i] == all[i]);
        }
        lemma_replacements_point(front, master);
        assert(all.last() == all[all.len() - 1]);
    }
    assert(events::replacements_in(all, master) =~= refs(events::pointing_at(all, master)));
}

/// The tag that an event is listed under is the one that a write to it is held against,
/// as long as nothing changed: the objects that point at a series all name the
/// occurrence they replace, and none replaces one of an event that does not recur.
pub proof fn law_a_listed_tag_is_current(
    event: EventView,
    all: Seq<Event>,
    config: CalendarConfig,
    fallback: Instant,
)
    requires
        forall|i: int|
            0 <= i < all.len() && (#[trigger] all[i])@.series == Some(event.object_id)
                ==> all[i]@.occurrence is Some && event.rrule is Some,
    ensures
        ({
            let listed = events::series_resource(
                event,
                events::replacements_in(all, event.object_id),
                config,
                fallback,
            );
            let read = if event.rrule is Some {
                events::pointing_at(all, event.object_id)
            } else {
                Seq::empty()
            };
            event_tag(event, read, config, fallback) == (match listed {
                Some(resource) => Some(resource.etag),
                None => None,
            })
        }),
{
    lemma_replacements_point(all, event.object_id);
    if event.rrule is None {
        lemma_none_point(all, event.object_id);
        assert(refs(Seq::<Event>::empty()) =~= events::replacements_in(all, event.object_id));
    }
}

proof fn lemma_none_point(all: Seq<Event>, master: Text)
    requires
        forall|i: int| 0 <= i < all.len() ==> (#[trigger] all[i])@.series != Some(master),
    ensures
        events::replacements_in(all, master).len() == 0,
    decreases all.len(),
{
    if all.len() > 0 {
        let front = all.drop_last();
        assert forall|i: int| 0 <= i < front.len() implies (#[trigger] front[i])@.series != Some(
            master,
        ) by {
            assert(front[i] == all[i]);
        }
        lemma_none_point(front, master);
        assert(all.last() == all[all.len() - 1]);
    }
}

/// Whether a tag that a client expects is not the current one.
pub open spec fn mismatch(expected: Option<Text>, current: Option<Text>) -> bool {
    expected is Some && expected != current
}

fn mismatched(expected: &Option<String>, current: &Option<String>) -> (r: bool)
    ensures
        r == mismatch(text::text_of(*expected), text::text_of(*current)),
{
    expected.is_some() && !text::same_text(expected, current)
}

/// What a PUT to an existing event writes, or what it is answered.
pub open spec fn event_put(
    current: EventView,
    replacements: Seq<Event>,
    incoming: IncomingSeriesView,
    expected: Option<Text>,
    none: bool,
    config: CalendarConfig,
    fallback: Instant,
) -> Result<SeriesPlanView, AnswerView> {
    if none {
        Err(super::failed_condition("resource exists"@))
    } else if mismatch(expected, event_tag(current, replacements, config, fallback)) {
        Err(super::failed_condition("etag mismatch"@))
    } else {
        Ok(event_changes::series_update(current, replacements, incoming, config))
    }
}

pub open spec fn plan_view(r: Result<SeriesPlan, Answer>) -> Result<SeriesPlanView, AnswerView> {
    match r {
        Ok(plan) => Ok(plan@),
        Err(answer) => Err(answer@),
    }
}

/// Decides on a PUT to an existing event, which has just been read.
pub fn put_event(
    current: &Event,
    replacements: &Vec<Event>,
    incoming: &IncomingSeries,
    if_match: &Option<String>,
    none: bool,
    config: &CalendarConfig,
    fallback: Instant,
) -> (r: Result<SeriesPlan, Answer>)
    requires
        events::series_folds(current@, refs(replacements@)),
        ical::name_folds(config.name@),
    ensures
        plan_view(r) == event_put(
            current@,
            replacements@,
            incoming@,
            text::text_of(*if_match),
            none,
            *config,
            fallback,
        ),
{
    if none {
        return Err(super::precondition_failed("resource exists"));
    }
    let etag = tag_of_event(current, replacements, config, fallback);
    if mismatched(if_match, &etag) {
        return Err(super::precondition_failed("etag mismatch"));
    }
    Ok(event_changes::plan_series_update(current, replacements, incoming, config))
}

/// One write of a plan.
#[derive(Clone, Copy)]
pub enum Write<'a> {
    Update(&'a str, &'a EventPatch),
    CreateReplacement(&'a EventPatch),
    Archive(&'a str),
}

#[verifier::ext_equal]
pub enum WriteView {
    Update(Text, EventPatchView),
    CreateReplacement(EventPatchView),
    Archive(Text),
}

impl<'a> View for Write<'a> {
    type V = WriteView;

    open spec fn view(&self) -> WriteView {
        match self {
            Write::Update(id, patch) => WriteView::Update(id@, patch@),
            Write::CreateReplacement(patch) => WriteView::CreateReplacement(patch@),
            Write::Archive(id) => WriteView::Archive(id@),
        }
    }
}

pub open spec fn write_views(v: Seq<Write>) -> Seq<WriteView> {
    Seq::new(v.len(), |i: int| v[i]@)
}

/// The writes of a plan in order: the master first, then replacements. A failure
/// part-way leaves the resource with a new tag, so the client's retry re-reads and
/// re-plans against what was written instead of repeating it.
pub open spec fn plan_writes(master_id: Text, plan: SeriesPlanView) -> Seq<WriteView> {
    (if plan.master == event_changes::no_event_change() {
        Seq::empty()
    } else {
        seq![WriteView::Update(master_id, plan.master)]
    }) + Seq::new(
        plan.update.len(),
        |i: int| WriteView::Update(plan.update[i].0, plan.update[i].1),
    ) + Seq::new(plan.create.len(), |i: int| WriteView::CreateReplacement(plan.create[i]))
        + Seq::new(plan.archive.len(), |i: int| WriteView::Archive(plan.archive[i]))
}

/// The writes that a plan asks for, in order.
pub fn apply_plan<'a>(master_id: &'a str, plan: &'a SeriesPlan) -> (r: Vec<Write<'a>>)
    ensures
        write_views(r@) == plan_writes(master_id@, plan@),
{
    let mut r: Vec<Write<'a>> = Vec::new();
    let ghost first: Seq<WriteView> = if plan@.master == event_changes::no_event_change() {
        Seq::empty()
    } else {
        seq![WriteView::Update(master_id@, plan@.master)]
    };
    if !plan.master.is_empty() {
        r.push(Write::Update(master_id, &plan.master));
    }
    assert(write_views(r@) == first);
    let ghost second: Seq<WriteView> = Seq::new(
        plan@.update.len(),
        |i: int| WriteView::Update(plan@.update[i].0, plan@.update[i].1),
    );
    let mut i: usize = 0;
    assert(first + second.take(0) == first);
    while i < plan.update.len()
        invariant
            i <= plan.update@.len(),
            second == Seq::new(
                plan@.update.len(),
                |i: int| WriteView::Update(plan@.update[i].0, plan@.update[i].1),
            ),
            write_views(r@) == first + second.take(i as int),
        decreases plan.update@.len() - i,
    {
        let ghost before = r@;
        let one = Write::Update(plan.update[i].0.as_str(), &plan.update[i].1);
        r.push(one);
        assert(write_views(r@) == write_views(before).push(one@));
        i += 1;
        assert(second.take(i as int) == second.take(i - 1).push(second[i - 1]));
    }
    assert(second.take(second.len() as int) == second);
    let ghost third: Seq<WriteView> = Seq::new(
        plan@.create.len(),
        |i: int| WriteView::CreateReplacement(plan@.create[i]),
    );
    let ghost two = first + second;
    let mut k: usize = 0;
    assert(two + third.take(0) == two);
    while k < plan.create.len()
        invariant
            k <= plan.create@.len(),
            third == Seq::new(
                plan@.create.len(),
                |i: int| WriteView::CreateReplacement(plan@.create[i]),
            ),
            write_views(r@) == two + third.take(k as int),
        decreases plan.create@.len() - k,
    {
        let ghost before = r@;
        let one = Write::CreateReplacement(&plan.create[k]);
        r.push(one);
        assert(write_views(r@) == write_views(before).push(one@));
        k += 1;
        assert(third.take(k as int) == third.take(k - 1).push(third[k - 1]));
    }
    assert(third.take(third.len() as int) == third);
    let ghost fourth: Seq<WriteView> = Seq::new(
        plan@.archive.len(),
        |i: int| WriteView::Archive(plan@.archive[i]),
    );
    let ghost three = two + third;
    let mut n: usize = 0;
    assert(three + fourth.take(0) == three);
    while n < plan.archive.len()
        invariant
            n <= plan.archive@.len(),
            fourth == Seq::new(
                plan@.archive.len(),
                |i: int| WriteView::Archive(plan@.archive[i]),
            ),
            write_views(r@) == three + fourth.take(n as int),
        decreases plan.archive@.len() - n,
    {
        let ghost before = r@;
        let one = Write::Archive(plan.archive[n].as_str());
        r.push(one);
        assert(write_views(r@) == write_views(before).push(one@));
        n += 1;
        assert(fourth.take(n as int) == fourth.take(n - 1).push(fourth[n - 1]));
    }
    assert(fourth.take(fourth.len() as int) == fourth);
    r
}

/// A plan that changes nothing asks for no write, and any other plan asks for some.
pub proof fn law_an_empty_plan_writes_nothing(master_id: Text, plan: SeriesPlanView)
    ensures
        (plan_writes(master_id, plan).len() == 0) == (plan.master
            == event_changes::no_event_change() && plan.update.len() == 0 && plan.create.len() == 0
            && plan.archive.len() == 0),
{
}

/// What a new event is made with.
pub struct Creation {
    pub uid: String,
    pub master: EventPatch,
    /// The objects that replace occurrences, to be linked to the new one.
    pub replacements: Vec<EventPatch>,
}

/// What a new event that cannot be made is answered.
pub open spec fn creation_refusal(
    name: Text,
    expected: Option<Text>,
    incoming: IncomingSeriesView,
) -> Option<AnswerView> {
    if expected is Some {
        Some(super::failed_condition("resource does not exist"@))
    } else {
        match incoming.master.uid {
            None => Some(xml::plain_answer(400, "VEVENT has no UID"@)),
            Some(uid) => if feed::filename_of(uid) != name {
                Some(xml::plain_answer(403, "resource name must be derived from the UID"@))
            } else if incoming.master.start is None {
                Some(xml::plain_answer(400, "VEVENT has no DTSTART"@))
            } else {
                None
            },
        }
    }
}

/// Decides on a new event or series.
pub fn create_event(
    name: &str,
    if_match: &Option<String>,
    incoming: &IncomingSeries,
    config: &CalendarConfig,
) -> (r: Result<Creation, Answer>)
    ensures
        match creation_refusal(name@, text::text_of(*if_match), incoming@) {
            Some(answer) => r is Err && r->Err_0@ == answer,
            None => r matches Ok(made) && Some(made.uid@) == incoming@.master.uid && made.master@
                == (EventPatchView {
                rrule: match incoming@.master.rrule {
                    Some(rule) => Some(Some(rule)),
                    None => None,
                },
                exdates: event_changes::excluded_change(
                    Seq::empty(),
                    incoming@.master.exdates,
                    *config,
                ),
                ..event_changes::event_creation(incoming@.master, *config)
            }) && event_changes::patches(made.replacements@) == event_changes::new_replacements(
                incoming@.replacements,
                *config,
            ),
        },
{
    if if_match.is_some() {
        return Err(super::precondition_failed("resource does not exist"));
    }
    let uid = match &incoming.master.uid {
        Some(uid) => uid.clone(),
        None => {
            return Err(xml::with_body(400, "VEVENT has no UID"));
        },
    };
    if !text::same(feed::calino_filename(uid.as_str()).as_str(), name) {
        return Err(xml::with_body(403, "resource name must be derived from the UID"));
    }
    if incoming.master.start.is_none() {
        return Err(xml::with_body(400, "VEVENT has no DTSTART"));
    }
    let (master, replacements) = event_changes::plan_series_create(incoming, config);
    Ok(Creation { uid, master, replacements })
}

/// Links an object that replaces an occurrence to its new series.
pub fn link_replacement(patch: &mut EventPatch, master_id: &str)
    ensures
        final(patch)@ == (EventPatchView { series: Some(master_id@), ..old(patch)@ }),
{
    patch.series = Some(master_id.to_owned());
}

/// What a successful write of an event is answered: with the tag of what was read back,
/// where it could be read and has a start.
pub fn event_written(
    code: u16,
    read: Option<(&Event, &Vec<Event>)>,
    config: &CalendarConfig,
    fallback: Instant,
) -> (r: Answer)
    requires
        read matches Some((event, replacements)) ==> events::series_folds(
            event@,
            refs(replacements@),
        ),
        ical::name_folds(config.name@),
    ensures
        r@ == tasks::written_answer(
            code as int,
            match read {
                Some((event, replacements)) => event_tag(
                    event@,
                    replacements@,
                    *config,
                    fallback,
                ),
                None => None,
            },
        ),
{
    let etag = match read {
        Some((event, replacements)) => tag_of_event(event, replacements, config, fallback),
        None => None,
    };
    tasks::written(code, &etag)
}

// ------------------------------------------------------------------ deadlines

/// The tag of a deadline's entry as it is now.
pub open spec fn deadline_tag(event: EventView, config: CalendarConfig, fallback: Instant) -> Option<
    Text,
> {
    match events::entry_of(event, config.language) {
        Some(entry) => match events::series_resource(entry, Seq::empty(), config, fallback) {
            Some(resource) => Some(resource.etag),
            None => None,
        },
        None => None,
    }
}

pub fn tag_of_deadline(event: &Event, config: &CalendarConfig, fallback: Instant) -> (r: Option<
    String,
>)
    requires
        events::entry_folds(event@, config.language),
        ical::name_folds(config.name@),
    ensures
        text::text_of(r) == deadline_tag(event@, *config, fallback),
{
    match events::deadline_entry(event, config.language) {
        Some(entry) => {
            let nothing: Vec<&Event> = Vec::new();
            assert(nothing@ == Seq::<&Event>::empty());
            match events::resource_for(&entry, &nothing, config, fallback) {
                Some(resource) => Some(resource.etag),
                None => None,
            }
        },
        None => None,
    }
}

/// What a write to a deadline's entry is answered whose condition does not hold; `None`
/// lets it through.
pub fn deadline_owner(
    current: &Event,
    if_match: &Option<String>,
    config: &CalendarConfig,
    fallback: Instant,
) -> (r: Option<Answer>)
    requires
        events::entry_folds(current@, config.language),
        ical::name_folds(config.name@),
    ensures
        super::answer_view(r) == (if mismatch(
            text::text_of(*if_match),
            deadline_tag(current@, *config, fallback),
        ) {
            Some(super::failed_condition("etag mismatch"@))
        } else {
            None
        }),
{
    let etag = tag_of_deadline(current, config, fallback);
    if mismatched(if_match, &etag) {
        Some(super::precondition_failed("etag mismatch"))
    } else {
        None
    }
}

/// What moving a deadline's entry writes, or what it is answered.
pub open spec fn deadline_put(
    parsed: Result<IncomingEvent, EventWriteError>,
    config: CalendarConfig,
) -> Result<EventPatchView, AnswerView> {
    match parsed {
        Err(err) => Err(xml::plain_answer(400, err.words())),
        Ok(incoming) => match event_changes::stored_wire_in(incoming@.start, config) {
            None => Err(xml::plain_answer(400, "a deadline needs DTSTART"@)),
            Some(deadline) => Ok(
                EventPatchView {
                    deadline: Some(Some(deadline)),
                    ..event_changes::no_event_change()
                },
            ),
        },
    }
}

pub open spec fn patch_view(r: Result<EventPatch, Answer>) -> Result<EventPatchView, AnswerView> {
    match r {
        Ok(patch) => Ok(patch@),
        Err(answer) => Err(answer@),
    }
}

/// Moving a deadline's entry moves the event's deadline to the entry's start. Nothing
/// else of the entry is written: its name and the rest belong to the event.
pub fn put_deadline(parsed: Result<IncomingEvent, EventWriteError>, config: &CalendarConfig) -> (r:
    Result<EventPatch, Answer>)
    ensures
        patch_view(r) == deadline_put(parsed, *config),
{
    match parsed {
        Err(err) => Err(xml::with_body(400, err.message().as_str())),
        Ok(incoming) => match event_changes::deadline_from(&incoming, config) {
            None => Err(xml::with_body(400, "a deadline needs DTSTART")),
            Some(deadline) => {
                let mut patch = EventPatch::default();
                patch.deadline = Some(Some(deadline));
                Ok(patch)
            },
        },
    }
}

/// Deleting a deadline's entry clears the event's deadline; the event stays.
pub fn delete_deadline() -> (r: EventPatch)
    ensures
        r@ == (EventPatchView { deadline: Some(None), ..event_changes::no_event_change() }),
{
    let mut patch = EventPatch::default();
    patch.deadline = Some(None);
    patch
}

/// Writing a deadline's entry touches nothing of the event but its deadline.
pub proof fn law_a_deadline_entry_writes_the_deadline_alone(
    parsed: Result<IncomingEvent, EventWriteError>,
    config: CalendarConfig,
)
    ensures
        deadline_put(parsed, config) matches Ok(patch) ==> patch == (EventPatchView {
            deadline: patch.deadline,
            ..event_changes::no_event_change()
        }) && patch.deadline is Some,
{
}

// ------------------------------------------------------------------ deleting

/// The objects that a DELETE of an event archives, in order, or what it is answered:
/// the objects replacing its occurrences, and then itself.
pub open spec fn event_deletion(
    current: EventView,
    replacements: Seq<Event>,
    expected: Option<Text>,
    config: CalendarConfig,
    fallback: Instant,
) -> Result<Seq<Text>, AnswerView> {
    if mismatch(expected, event_tag(current, replacements, config, fallback)) {
        Err(super::failed_condition("etag mismatch"@))
    } else {
        Ok(
            Seq::new(replacements.len(), |i: int| replacements[i].object_id@).push(
                current.object_id,
            ),
        )
    }
}

pub open spec fn deletion_view(r: Result<Vec<String>, Answer>) -> Result<Seq<Text>, AnswerView> {
    match r {
        Ok(ids) => Ok(text::texts(ids@)),
        Err(answer) => Err(answer@),
    }
}

/// Decides on a DELETE of an event, which has just been read.
pub fn delete_event(
    current: &Event,
    replacements: &Vec<Event>,
    if_match: &Option<String>,
    config: &CalendarConfig,
    fallback: Instant,
) -> (r: Result<Vec<String>, Answer>)
    requires
        events::series_folds(current@, refs(replacements@)),
        ical::name_folds(config.name@),
    ensures
        deletion_view(r) == event_deletion(
            current@,
            replacements@,
            text::text_of(*if_match),
            *config,
            fallback,
        ),
{
    let etag = tag_of_event(current, replacements, config, fallback);
    if mismatched(if_match, &etag) {
        return Err(super::precondition_failed("etag mismatch"));
    }
    let mut ids: Vec<String> = Vec::new();
    let mut i: usize = 0;
    while i < replacements.len()
        invariant
            i <= replacements@.len(),
            ids@.len() == i,
            forall|k: int| 0 <= k < i ==> (#[trigger] ids@[k])@ == replacements@[k].object_id@,
        decreases replacements@.len() - i,
    {
        ids.push(replacements[i].object_id.clone());
        i += 1;
    }
    ids.push(current.object_id.clone());
    assert(text::texts(ids@) == Seq::new(
        replacements@.len(),
        |i: int| replacements@[i].object_id@,
    ).push(current.object_id@));
    Ok(ids)
}

} // verus!
