//! What a client's writes come to.
//!
//! A write goes through several calls of the space. The laws here say what stands at their
//! ends: what is asked of the space for what a client sent, and what the client is told of
//! what became of it.
use vstd::prelude::*;

use super::event_write;
use super::event_write::EventWriteView;
use super::events;
use super::task_write;
use super::task_write::TaskWriteView;
use super::tasks;
use super::tasks::{LocatedView, RemovalView};
use super::xml;
use super::xml::AnswerView;
use crate::config::CalendarConfig;
use crate::edited;
use crate::event_changes;
use crate::event_changes::{
    EventPatchView, EventWriteError, IncomingEvent, IncomingSeriesView, SeriesPlanView,
};
use crate::events::{Event, EventView};
use crate::feed;
use crate::feed::{CollectionView, SnapshotView};
use crate::ical;
use crate::model;
use crate::model::Task;
use crate::source::SourceError;
use crate::table;
use crate::text;
use crate::text::Text;
use crate::time::Instant;
use crate::writeback;
use crate::writeback::{IncomingView, Wire};

verus! {

// ------------------------------------------------------------------ tasks

/// Whether a write is held back by its conditions: it expects another tag than the task has,
/// or expects nothing where the task is.
pub open spec fn held_back(write: TaskWriteView, tag: Text) -> bool {
    ||| write.expected is Some && write.expected->0 != tag
    ||| write.located.here && write.none && write.incoming is Some
}

/// A PUT to a task that was read writes what the client sent, or is answered that its
/// condition failed: the task then has the name, the state and the tags that were sent, and
/// in its own calendar its people stay. Where nothing is to be written the task has all of
/// this already. Put in another calendar than the one that serves it, the task is new
/// there.
pub proof fn law_a_put_writes_what_was_sent(
    write: TaskWriteView,
    id: Text,
    task: Task,
    tag: Text,
    sent: Wire,
    incoming: IncomingView,
    config: CalendarConfig,
)
    requires
        write.step == task_write::StepView::Read(id),
        write.incoming == Some(incoming),
    ensures
        ({
            let step = task_write::after(
                write,
                task_write::Outcome::Read(Some(task)),
                tag,
                sent,
                config,
            ).0;
            let code: int = if write.located.here {
                204
            } else {
                201
            };
            match step {
                task_write::StepView::Answer(answer) => held_back(write, tag) && answer.status
                    == 412,
                task_write::StepView::Update(to, patch, status) => {
                    &&& !held_back(write, tag) && to == id && status == code
                    &&& edited::text_after(task.name@, patch.name) == edited::text_after(
                        task.name@,
                        incoming.summary,
                    )
                    &&& (match patch.done {
                        Some(done) => done,
                        None => task.done,
                    }) == incoming.done
                    &&& edited::list_after(
                        text::texts(task.tags@),
                        patch.tags,
                    ).to_multiset() == incoming.categories.to_multiset()
                    &&& write.located.here ==> patch.assignees is None
                },
                task_write::StepView::ReadBack(to, status) => {
                    &&& !held_back(write, tag) && to == id && status == code
                    &&& edited::text_after(task.name@, incoming.summary) == task.name@
                    &&& task.done == incoming.done
                    &&& text::texts(task.tags@).to_multiset() == incoming.categories.to_multiset()
                    &&& write.located.here
                },
                _ => false,
            }
        }),
{
    edited::law_a_patched_task_holds_what_was_sent(task, sent, incoming, config);
}

/// A task that is put into another person's calendar is theirs: they are its first assignee,
/// whose calendar served it leaves it, and everybody else stays on it.
pub proof fn law_a_moved_task_keeps_the_others(
    write: TaskWriteView,
    id: Text,
    task: Task,
    tag: Text,
    sent: Wire,
    incoming: IncomingView,
    config: CalendarConfig,
    from: Text,
    to: Text,
    other: Text,
)
    requires
        write.step == task_write::StepView::Read(id),
        write.incoming == Some(incoming),
        !write.located.here,
        write.located.served_by == Some(from),
        write.located.member_id == Some(to),
        from != to,
        !held_back(write, tag),
    ensures
        task_write::after(
            write,
            task_write::Outcome::Read(Some(task)),
            tag,
            sent,
            config,
        ).0 matches task_write::StepView::Update(_, patch, _) && (patch.assignees matches Some(
            people,
        ) && people.len() > 0 && people[0] == to && !people.contains(from) && (other != from
            && other != to ==> (people.contains(other) <==> text::texts(
            task.assignees@,
        ).contains(other)))),
{
    let current = text::texts(task.assignees@);
    let people = tasks::handed(current, Some(from), Some(to));
    tasks::law_a_moved_task_changes_hands(current, from, to);
    let rest = tasks::others(current, Some(from), Some(to));
    if other != from && other != to {
        if current.contains(other) {
            let k = choose|k: int| 0 <= k < current.len() && current[k] == other;
            tasks::lemma_others_keeps(current, Some(from), Some(to), k);
            let i = choose|i: int| 0 <= i < rest.len() && rest[i] == other;
            assert(people[i + 1] == other);
        }
        if people.contains(other) {
            let i = choose|i: int| 0 <= i < people.len() && people[i] == other;
            assert(rest[i - 1] == other);
            tasks::lemma_others(current, Some(from), Some(to), i - 1);
        }
    }
}

/// A DELETE of a task that was read archives it in a calendar that is nobody's, and takes
/// the person off it in theirs, changing nothing else; one that expects another tag than the
/// task has is answered that its condition failed, and does neither.
pub proof fn law_a_delete_archives_or_takes_one_off(
    write: TaskWriteView,
    id: Text,
    task: Task,
    tag: Text,
    sent: Wire,
    config: CalendarConfig,
    other: Text,
)
    requires
        write.step == task_write::StepView::Read(id),
        write.incoming is None,
    ensures
        ({
            let step = task_write::after(
                write,
                task_write::Outcome::Read(Some(task)),
                tag,
                sent,
                config,
            ).0;
            if write.expected is Some && write.expected->0 != tag {
                step matches task_write::StepView::Answer(answer) && answer.status == 412
            } else {
                match write.located.member_id {
                    None => step == task_write::StepView::Archive(id),
                    Some(me) => step matches task_write::StepView::Leave(from, patch) && from == id
                        && patch.name is None && patch.done is None && patch.scheduled is None
                        && patch.deadline is None && patch.tags is None && (
                    patch.assignees matches Some(people) && (people.contains(other) <==> other
                        != me && text::texts(task.assignees@).contains(other))),
                }
            }
        }),
{
    let current = text::texts(task.assignees@);
    if let Some(me) = write.located.member_id {
        let people = tasks::others(current, Some(me), None);
        if people.contains(other) {
            let i = choose|i: int| 0 <= i < people.len() && people[i] == other;
            tasks::lemma_others(current, Some(me), None, i);
        }
        if other != me && current.contains(other) {
            let k = choose|k: int| 0 <= k < current.len() && current[k] == other;
            tasks::lemma_others_keeps(current, Some(me), None, k);
        }
    }
}

/// A DELETE concerns only a task that the calendar serves: one that is served elsewhere is
/// left alone, and one that is nowhere is not found.
pub proof fn law_a_delete_concerns_what_is_served_here(located: LocatedView)
    ensures
        match task_write::first_of_delete(located) {
            task_write::StepView::Read(id) => located.here && located.object_id == Some(id),
            task_write::StepView::Answer(answer) => if located.object_id is Some {
                !located.here && answer.status == 204
            } else {
                answer.status == 404
            },
            _ => false,
        },
{
}

/// A PUT reads the task that stands behind its name, and makes one where there is none. A
/// task that is gone by then is made anew, unless the client expects it to be there; a
/// DELETE of it is not found.
pub proof fn law_what_is_gone_is_made_anew(
    write: TaskWriteView,
    id: Text,
    tag: Text,
    sent: Wire,
    config: CalendarConfig,
)
    requires
        write.step == task_write::StepView::Read(id),
    ensures
        ({
            let step = task_write::after(
                write,
                task_write::Outcome::Read(None),
                tag,
                sent,
                config,
            ).0;
            match write.incoming {
                None => step matches task_write::StepView::Answer(answer) && answer.status == 404,
                Some(incoming) => if write.expected is Some {
                    step matches task_write::StepView::Answer(answer) && answer.status == 412
                } else {
                    step == task_write::first_of_put(
                        write.name,
                        (LocatedView { object_id: None, ..write.located }),
                        incoming,
                        None,
                        config,
                    )
                },
            }
        }),
{
}

/// A new task is made exactly where the client sent a UID and put it under the name that is
/// made of it, and expects nothing to be there. It is made under that UID, has the name, the
/// state and the tags that were sent, and belongs to the person whose calendar it was put
/// into, or to nobody.
pub proof fn law_a_new_task_is_made_as_sent(
    name: Text,
    located: LocatedView,
    incoming: IncomingView,
    expected: Option<Text>,
    config: CalendarConfig,
)
    requires
        located.object_id is None,
    ensures
        ({
            let step = task_write::first_of_put(name, located, incoming, expected, config);
            if expected is None && incoming.uid is Some && feed::filename_of(incoming.uid->0)
                == name {
                step matches task_write::StepView::Create(uid, patch) && Some(uid) == incoming.uid
                    && patch.name == Some(edited::text_after("(unnamed)"@, incoming.summary))
                    && patch.done == Some(incoming.done) && edited::list_after(
                    Seq::empty(),
                    patch.tags,
                ) == incoming.categories && patch.assignees == (match located.member_id {
                    Some(person) => Some(seq![person]),
                    None => None,
                })
            } else {
                step matches task_write::StepView::Answer(answer) && (answer.status == 412
                    || answer.status == 400 || answer.status == 403)
            }
        }),
{
    edited::law_a_new_task_holds_what_was_sent(incoming, config);
}

/// A write that the space took is answered with success, and with the new tag where the
/// object could be read back; one that it did not take is answered with a failure, whatever
/// else the write was to do.
pub proof fn law_a_task_write_is_answered_by_what_became_of_it(
    write: TaskWriteView,
    outcome: task_write::Outcome,
    tag: Text,
    sent: Wire,
    config: CalendarConfig,
)
    requires
        task_write::fits(write.step, outcome),
    ensures
        ({
            let step = task_write::after(write, outcome, tag, sent, config).0;
            &&& write.step is Update || write.step is Create || write.step is Archive
                || write.step is Leave ==> (outcome matches task_write::Outcome::Failed(err) ==> (
            step matches task_write::StepView::Answer(answer) && answer == super::failure_answer(
                err,
            ) && answer.status >= 500))
            &&& (write.step is Archive || write.step is Leave) && outcome is Stored ==> (
            step matches task_write::StepView::Answer(answer) && answer.status == 204)
            &&& (write.step matches task_write::StepView::Update(id, _, code) && outcome is Stored)
                ==> (step matches task_write::StepView::ReadBack(to, status) && write.step
                == task_write::StepView::Update(to, write.step->Update_1, status))
            &&& write.step is Create ==> (outcome matches task_write::Outcome::Created(id) ==> step
                == task_write::StepView::ReadBack(id@, 201))
            &&& (write.step matches task_write::StepView::ReadBack(_, code) ==> (
            step matches task_write::StepView::Answer(answer) && answer.status == code && (
            outcome matches task_write::Outcome::Read(Some(_)) ==> answer.headers.contains(
                ("etag"@, tag),
            ))))
        }),
{
    if let task_write::StepView::ReadBack(_, code) = write.step {
        assert(tasks::written_answer(code, Some(tag)).headers[0] == ("etag"@, tag));
    }
}

/// A name leads to the object that is served under it; one that is not served leads to the
/// object of the UID, and to none where that is not known either. It is here exactly where
/// the calendar shows it.
pub proof fn law_a_name_leads_to_its_object(
    snapshot: SnapshotView,
    person: Option<Text>,
    key: Text,
    name: Text,
    uid: Option<Text>,
)
    requires
        tasks::view_of(snapshot, key, person) is Some,
    ensures
        tasks::located_in(snapshot, person, key, name, uid) matches Some(located) && {
            let view = tasks::view_of(snapshot, key, person)->0;
            &&& table::at(snapshot.objects, name) matches Some(resource) ==> located.object_id
                == Some(resource.object_id) && located.here == (table::at(
                view.objects,
                name,
            ) is Some)
            &&& table::at(snapshot.objects, name) is None && uid is None
                ==> located.object_id is None && !located.here
            &&& table::at(snapshot.objects, name) is None ==> (uid matches Some(uid) ==> match
                table::at(snapshot.names_by_uid, uid) {
                Some(other) => located.object_id == (match table::at(snapshot.objects, other) {
                    Some(resource) => Some(resource.object_id),
                    None => None,
                }) && located.here == (table::at(view.objects, other) is Some),
                None => located.object_id is None && !located.here,
            })
            &&& table::at(snapshot.collections, key) matches Some(collection)
                ==> located.member_id == collection.member_id
        },
{
}

/// A task is served by the person whose calendar lists it first: the one that is found lists
/// it, and none before it does.
pub proof fn law_who_serves_a_task(collections: Seq<(Text, CollectionView)>, name: Text)
    ensures
        match tasks::serving(collections, name) {
            Some(person) => exists|i: int|
                0 <= i < collections.len() && (#[trigger] collections[i]).1.member_id == Some(
                    person,
                ) && table::at(collections[i].1.objects, name) is Some && forall|j: int|
                    0 <= j < i ==> table::at((#[trigger] collections[j]).1.objects, name) is None,
            None => (forall|i: int|
                0 <= i < collections.len() ==> table::at(
                    (#[trigger] collections[i]).1.objects,
                    name,
                ) is None) || exists|i: int|
                0 <= i < collections.len() && (#[trigger] collections[i]).1.member_id is None
                    && table::at(collections[i].1.objects, name) is Some,
        },
    decreases collections.len(),
{
    if collections.len() > 0 {
        let rest = collections.drop_first();
        if table::at(collections[0].1.objects, name) is Some {
            assert(collections[0].1.member_id == tasks::serving(collections, name));
        } else {
            law_who_serves_a_task(rest, name);
            match tasks::serving(rest, name) {
                Some(person) => {
                    let i = choose|i: int|
                        0 <= i < rest.len() && (#[trigger] rest[i]).1.member_id == Some(person)
                            && table::at(rest[i].1.objects, name) is Some && forall|j: int|
                            0 <= j < i ==> table::at((#[trigger] rest[j]).1.objects, name) is None;
                    assert(collections[i + 1] == rest[i]);
                    assert forall|j: int| 0 <= j < i + 1 implies table::at(
                        (#[trigger] collections[j]).1.objects,
                        name,
                    ) is None by {
                        if j > 0 {
                            assert(rest[j - 1] == collections[j]);
                        }
                    }
                },
                None => {
                    if forall|i: int|
                        0 <= i < rest.len() ==> table::at(
                            (#[trigger] rest[i]).1.objects,
                            name,
                        ) is None {
                        assert forall|i: int| 0 <= i < collections.len() implies table::at(
                            (#[trigger] collections[i]).1.objects,
                            name,
                        ) is None by {
                            if i > 0 {
                                assert(rest[i - 1] == collections[i]);
                            }
                        }
                    } else {
                        let i = choose|i: int|
                            0 <= i < rest.len() && (#[trigger] rest[i]).1.member_id is None
                                && table::at(rest[i].1.objects, name) is Some;
                        assert(collections[i + 1] == rest[i]);
                    }
                },
            }
        }
    }
}

// ------------------------------------------------------------------ events

/// A plan is written whole and in order: the series first where it changes, every changed
/// object, every new one and every one that is archived, and nothing else.
pub proof fn law_a_plan_is_written_whole(master_id: Text, plan: SeriesPlanView)
    ensures
        ({
            let writes = events::plan_writes(master_id, plan);
            &&& plan.master != event_changes::no_event_change() ==> writes.len() > 0 && writes[0]
                == events::WriteView::Update(master_id, plan.master)
            &&& forall|i: int|
                0 <= i < plan.update.len() ==> writes.contains(
                    events::WriteView::Update(
                        (#[trigger] plan.update[i]).0,
                        plan.update[i].1,
                    ),
                )
            &&& forall|i: int|
                0 <= i < plan.create.len() ==> writes.contains(
                    events::WriteView::CreateReplacement(#[trigger] plan.create[i]),
                )
            &&& forall|i: int|
                0 <= i < plan.archive.len() ==> writes.contains(
                    events::WriteView::Archive(#[trigger] plan.archive[i]),
                )
            &&& writes.len() == (if plan.master == event_changes::no_event_change() {
                0int
            } else {
                1
            }) + plan.update.len() + plan.create.len() + plan.archive.len()
        }),
{
    let writes = events::plan_writes(master_id, plan);
    let first: int = if plan.master == event_changes::no_event_change() {
        0
    } else {
        1
    };
    assert forall|i: int| 0 <= i < plan.update.len() implies writes.contains(
        events::WriteView::Update((#[trigger] plan.update[i]).0, plan.update[i].1),
    ) by {
        assert(writes[first + i] == events::WriteView::Update(
            plan.update[i].0,
            plan.update[i].1,
        ));
    }
    assert forall|i: int| 0 <= i < plan.create.len() implies writes.contains(
        events::WriteView::CreateReplacement(#[trigger] plan.create[i]),
    ) by {
        assert(writes[first + plan.update.len() + i] == events::WriteView::CreateReplacement(
            plan.create[i],
        ));
    }
    assert forall|i: int| 0 <= i < plan.archive.len() implies writes.contains(
        events::WriteView::Archive(#[trigger] plan.archive[i]),
    ) by {
        assert(writes[first + plan.update.len() + plan.create.len() + i]
            == events::WriteView::Archive(plan.archive[i]));
    }
}

/// A PUT to an event is answered that its condition failed exactly where it expects nothing
/// there, or another tag than the event has; otherwise what was sent is planned.
pub proof fn law_a_stale_event_write_changes_nothing(
    current: EventView,
    replacements: Seq<Event>,
    incoming: IncomingSeriesView,
    expected: Option<Text>,
    none: bool,
    config: CalendarConfig,
    fallback: Instant,
)
    ensures
        match events::event_put(
            current,
            replacements,
            incoming,
            expected,
            none,
            config,
            fallback,
        ) {
            Err(answer) => answer.status == 412 && (none || expected is Some && expected
                != events::event_tag(current, replacements, config, fallback)),
            Ok(plan) => !none && (expected is None || expected == events::event_tag(
                current,
                replacements,
                config,
                fallback,
            )) && plan == event_changes::series_update(current, replacements, incoming, config),
        },
{
}

/// A DELETE of an event archives every object that replaces one of its occurrences, and the
/// event itself after them, unless it expects another tag than the event has.
pub proof fn law_a_deleted_series_goes_whole(
    current: EventView,
    replacements: Seq<Event>,
    expected: Option<Text>,
    config: CalendarConfig,
    fallback: Instant,
)
    ensures
        match events::event_deletion(current, replacements, expected, config, fallback) {
            Err(answer) => answer.status == 412 && expected is Some && expected
                != events::event_tag(current, replacements, config, fallback),
            Ok(ids) => (expected is None || expected == events::event_tag(
                current,
                replacements,
                config,
                fallback,
            )) && ids.len() == replacements.len() + 1 && ids.last() == current.object_id && forall|
                i: int,
            |
                0 <= i < replacements.len() ==> ids.contains(
                    (#[trigger] replacements[i])@.object_id,
                ),
        },
{
    if let Ok(ids) = events::event_deletion(current, replacements, expected, config, fallback) {
        assert forall|i: int| 0 <= i < replacements.len() implies ids.contains(
            (#[trigger] replacements[i])@.object_id,
        ) by {
            assert(ids[i] == replacements[i]@.object_id);
        }
    }
}

/// A new event is made exactly where the client sent a UID and a start, put it under the
/// name that is made of the UID, and expects nothing to be there.
pub proof fn law_a_new_event_needs_a_uid_and_a_start(
    name: Text,
    expected: Option<Text>,
    incoming: IncomingSeriesView,
)
    ensures
        (events::creation_refusal(name, expected, incoming) is None) <==> (expected is None
            && incoming.master.start is Some && (incoming.master.uid matches Some(uid)
            && feed::filename_of(uid) == name)),
        events::creation_refusal(name, expected, incoming) matches Some(answer) ==> answer.status
            == 412 || answer.status == 400 || answer.status == 403,
{
}

/// What replaces occurrences of a new series is made after it, and each is linked to it,
/// with what was planned for it.
pub proof fn law_replacements_are_linked_to_the_new_series(write: EventWriteView, id: Text)
    ensures
        ({
            let made = event_write::once_made(write, id);
            &&& made.object_id == id
            &&& made.plan.create.len() == write.plan.create.len()
            &&& forall|i: int|
                0 <= i < write.plan.create.len() ==> (#[trigger] made.plan.create[i]).series
                    == Some(id) && made.plan.create[i].occurrence == write.plan.create[i].occurrence
                    && made.plan.create[i].name == write.plan.create[i].name
                    && made.plan.create[i].start == write.plan.create[i].start
                    && made.plan.create[i].end == write.plan.create[i].end
                    && made.plan.create[i].location == write.plan.create[i].location
            &&& made.step == event_write::StepView::Write(0) || made.step
                == event_write::StepView::ReadBack(id)
            &&& write.plan.create.len() > 0 ==> made.step is Write
        }),
{
    let made = event_write::once_made(write, id);
    law_a_plan_is_written_whole(id, made.plan);
}

/// A write to an event is answered with success only after all of its plan was written: the
/// writes are made one after the other, and a failure of one ends it with that failure.
pub proof fn law_an_event_write_succeeds_after_its_last_write(
    write: EventWriteView,
    outcome: event_write::Outcome,
    config: CalendarConfig,
    fallback: Instant,
    at: int,
)
    requires
        write.step == event_write::StepView::Write(at),
        event_write::fits(write.step, outcome),
        0 <= at < events::plan_writes(write.object_id, write.plan).len(),
    ensures
        ({
            let step = event_write::after(write, outcome, config, fallback).step;
            let all = events::plan_writes(write.object_id, write.plan).len();
            match outcome {
                event_write::Outcome::Failed(err) => step matches event_write::StepView::Answer(
                    answer,
                ) && answer == super::failure_answer(err) && answer.status >= 500,
                _ => if at + 1 < all {
                    step == event_write::StepView::Write(at + 1)
                } else if write.incoming is Some {
                    step == event_write::StepView::ReadBack(write.object_id)
                } else {
                    step matches event_write::StepView::Answer(answer) && answer.status == 204
                },
            }
        }),
{
}

// ------------------------------------------------------------------ deadlines

/// Moving a deadline's entry moves the deadline of the event to where the entry now starts,
/// and nothing else; an entry without a start is refused.
pub proof fn law_a_moved_entry_moves_the_deadline(
    event: EventView,
    incoming: IncomingEvent,
    config: CalendarConfig,
)
    requires
        edited::representable(
            ical::moment_in(incoming@.start, config.timezone@),
            config.date_only_timezone@,
        ),
        event_changes::moment_kept(ical::moment_in(incoming@.start, config.timezone@), config),
    ensures
        match events::deadline_put(Ok::<IncomingEvent, EventWriteError>(incoming), config) {
            Ok(patch) => {
                let after = edited::event_after(event, patch);
                &&& after.deadline is Some && Some(
                    model::classified_date(after.deadline->0, config.date_only_timezone@),
                ) == ical::moment_in(incoming@.start, config.timezone@)
                &&& after == (EventView { deadline: after.deadline, ..event })
            },
            Err(answer) => answer.status == 400 && ical::moment_in(
                incoming@.start,
                config.timezone@,
            ) is None,
        },
{
    if let Some(value) = ical::moment_in(incoming@.start, config.timezone@) {
        edited::lemma_stored_is_read(value, config);
    }
}

/// Deleting a deadline's entry clears the deadline of the event, and nothing else.
pub proof fn law_a_deleted_entry_clears_the_deadline(event: EventView)
    ensures
        event_write::deadline_change(None) matches Ok(patch) && edited::event_after(event, patch)
            == (EventView { deadline: None, ..event }),
{
}

/// A write to a deadline's entry that expects another tag than the entry has changes
/// nothing.
pub proof fn law_a_stale_deadline_write_changes_nothing(
    event: Event,
    moved: Option<Result<EventPatchView, AnswerView>>,
    expected: Text,
    config: CalendarConfig,
    fallback: Instant,
)
    requires
        events::deadline_tag(event@, config, fallback) != Some(expected),
    ensures
        event_write::once_owner_read(event, moved, Some(expected), config, fallback) matches
        event_write::DeadlineStepView::Answer(answer) && answer.status == 412,
{
}

// ------------------------------------------------------------------ an event, step by step

/// What a client sends under a new name is made as it was sent: under the UID, with the rule
/// and what it leaves out, and what replaces occurrences is made behind it. Where that is
/// refused nothing is made.
pub proof fn law_a_new_event_is_made_as_sent(
    write: EventWriteView,
    incoming: IncomingSeriesView,
    expected: Option<Text>,
    config: CalendarConfig,
)
    ensures
        ({
            let made = event_write::creating(write, incoming, expected, config);
            match made.step {
                event_write::StepView::Create(uid, patch) => {
                    &&& incoming.master.uid == Some(uid) && expected is None
                    &&& patch.rrule == (match incoming.master.rrule {
                        Some(rule) => Some(Some(rule)),
                        None => None,
                    })
                    &&& patch.exdates == event_changes::excluded_change(
                        Seq::empty(),
                        incoming.master.exdates,
                        config,
                    )
                    &&& patch.deadline is None && patch.series is None && patch.occurrence is None
                    &&& ({
                        let plain = event_changes::event_creation(incoming.master, config);
                        &&& patch.name == plain.name
                        &&& patch.start == plain.start
                        &&& patch.end == plain.end
                        &&& patch.location == plain.location
                        &&& patch.tags == plain.tags
                        &&& patch.reminders == plain.reminders
                    })
                    &&& made.made && made.plan.update.len() == 0 && made.plan.archive.len() == 0
                    &&& made.plan.create == event_changes::new_replacements(
                        incoming.replacements,
                        config,
                    )
                },
                event_write::StepView::Answer(answer) => Some(answer) == events::creation_refusal(
                    write.name,
                    expected,
                    incoming,
                ) && made.plan == write.plan,
                _ => false,
            }
        }),
{
}

/// Once the event of a write is read, a PUT plans what takes the event and what replaces
/// its occurrences to what was sent, and a DELETE archives them all; each is begun with its
/// first write, and a PUT with nothing to write is over. A write whose condition does not
/// hold writes nothing.
pub proof fn law_what_was_read_decides_the_plan(
    write: EventWriteView,
    id: Text,
    event: Event,
    replacements: Vec<Event>,
    config: CalendarConfig,
    fallback: Instant,
)
    requires
        write.step == event_write::StepView::Read(id),
    ensures
        ({
            let after = event_write::after(
                write,
                event_write::Outcome::Read(Some((event, replacements))),
                config,
                fallback,
            );
            let tag = events::event_tag(event@, replacements@, config, fallback);
            let stale = write.expected is Some && write.expected != tag || write.none
                && write.incoming is Some;
            &&& stale ==> (after.step matches event_write::StepView::Answer(answer)
                && answer.status == 412)
            &&& !stale ==> after.object_id == id && match write.incoming {
                Some(incoming) => {
                    &&& after.plan == event_changes::series_update(
                        event@,
                        replacements@,
                        incoming,
                        config,
                    )
                    &&& after.step == (if events::plan_writes(id, after.plan).len() > 0 {
                        event_write::StepView::Write(0)
                    } else {
                        event_write::StepView::ReadBack(id)
                    })
                },
                None => {
                    &&& after.step == event_write::StepView::Write(0)
                    &&& after.plan.update.len() == 0 && after.plan.create.len() == 0
                    &&& after.plan.archive.last() == event@.object_id
                    &&& after.plan.archive.len() == replacements@.len() + 1
                },
            }
        }),
{
}

/// Where the event of a write is gone there is nothing to delete, and nothing to put to for
/// a client that expects what it was; any other PUT makes it anew.
pub proof fn law_a_gone_event_is_made_anew(
    write: EventWriteView,
    id: Text,
    config: CalendarConfig,
    fallback: Instant,
)
    requires
        write.step == event_write::StepView::Read(id),
    ensures
        ({
            let after = event_write::after(
                write,
                event_write::Outcome::Read(None),
                config,
                fallback,
            );
            match write.incoming {
                None => after.step matches event_write::StepView::Answer(answer) && answer.status
                    == 404,
                Some(incoming) => if write.expected is Some {
                    after.step matches event_write::StepView::Answer(answer) && answer.status
                        == 412
                } else {
                    after == event_write::creating(write, incoming, None, config)
                },
            }
        }),
{
}

/// A PUT of an event is answered that it was made exactly where it was, and with the tag of
/// what is served from there on.
pub proof fn law_an_event_put_is_answered_by_what_became_of_it(
    write: EventWriteView,
    id: Text,
    event: Event,
    replacements: Vec<Event>,
    config: CalendarConfig,
    fallback: Instant,
)
    requires
        write.step == event_write::StepView::ReadBack(id),
    ensures
        event_write::after(
            write,
            event_write::Outcome::Read(Some((event, replacements))),
            config,
            fallback,
        ).step matches event_write::StepView::Answer(answer) && answer.status == (if write.made {
            201int
        } else {
            204int
        }) && (events::event_tag(event@, replacements@, config, fallback) matches Some(tag)
            ==> answer.headers.contains(("etag"@, tag))),
        event_write::after(
            write,
            event_write::Outcome::Read(None),
            config,
            fallback,
        ).step matches event_write::StepView::Answer(answer) && answer.headers.len() == 0,
{
    let answer = tasks::written_answer(
        event_write::status_of(write),
        events::event_tag(event@, replacements@, config, fallback),
    );
    if let Some(tag) = events::event_tag(event@, replacements@, config, fallback) {
        assert(answer.headers[0] == ("etag"@, tag));
    }
}

/// A task that is known is served by its reader where they share it, and by the first
/// calendar that lists it otherwise; one that is not known is served by nobody.
pub proof fn law_who_serves_what_a_write_is_for(
    snapshot: SnapshotView,
    person: Option<Text>,
    key: Text,
    name: Text,
    uid: Option<Text>,
)
    requires
        table::at(snapshot.objects, name) is Some,
    ensures
        tasks::located_in(snapshot, person, key, name, uid) matches Some(located) ==> {
            let shared = person is Some && (table::at(snapshot.shared, name) matches Some(people)
                && text::texts(people).contains(person->0));
            &&& shared ==> located.served_by == person
            &&& !shared ==> located.served_by == tasks::serving(snapshot.collections, name)
        },
        tasks::located_in(snapshot, person, key, name, uid) is None <==> tasks::view_of(
            snapshot,
            key,
            person,
        ) is None,
{
}

} // verus!
