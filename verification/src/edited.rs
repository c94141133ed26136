//! What a task or an event is once the changes that a client sent are stored.
//!
//! A change is worth something only through what is read afterwards: the laws here say
//! what the object holds then, and how the calendar shows it.
use vstd::prelude::*;

use crate::capture;
use crate::config::CalendarConfig;
use crate::event_changes;
use crate::event_changes::{EventPatchView, IncomingEventView, IncomingSeriesView, Planning};
use crate::event_source;
use crate::events;
use crate::events::{Event, EventView};
use crate::ical;
use crate::ical::{LineView, WireView};
use crate::model;
use crate::model::{DateView, Task};
use crate::object;
use crate::object::{Object, Property, SettingView};
use crate::order;
use crate::reminder::ReminderMoment;
use crate::render;
use crate::series;
use crate::text;
use crate::text::Text;
use crate::time;
use crate::time::{Instant, When};
use crate::writeback;
use crate::writeback::{IncomingView, Origin, PatchView, Wire};

verus! {

// ---------------------------------------------------------------- stored dates

/// How a stored text is shown in calendars whose days are those of a zone.
pub open spec fn read_as(stored: Text, zone: Text) -> Option<When> {
    match time::rfc3339(stored) {
        Some((second, nano, _)) => Some(model::classified(second, nano, zone)),
        None => None,
    }
}

/// What a date of an object is after a change of it.
pub open spec fn date_after(
    now: Option<When>,
    change: Option<Option<Text>>,
    zone: Text,
) -> Option<When> {
    match change {
        None => now,
        Some(None) => None,
        Some(Some(stored)) => read_as(stored, zone),
    }
}

/// Whether a store that keeps whole seconds of four-digit years, and takes midnight for
/// the whole day, can tell this value from every other.
pub open spec fn representable(value: Option<When>, zone: Text) -> bool {
    match value {
        None => true,
        Some(When::Day(day)) => time::first_moment(zone, day * 86_400) matches Some(at)
            && writeback::in_four_digit_years(at),
        Some(When::At(second, nano)) => nano == 0 && writeback::in_four_digit_years(second)
            && time::clock_of(time::local_at(zone, second)) != 0,
    }
}

/// Whether a value is an instant at the first or last second of a day.
pub open spec fn at_the_edge(value: Option<When>, zone: Text) -> bool {
    value matches Some(When::At(second, _)) && {
        let clock = time::clock_of(time::local_at(zone, second));
        clock == 0 || clock == 86_399
    }
}

/// Whether a value is written into a property as it stands: it can be stored, and is not
/// an edge of a day beside a property that holds a whole day.
pub open spec fn storable(value: Option<When>, property: Option<When>, config: CalendarConfig)
    -> bool {
    &&& representable(value, config.date_only_timezone@)
    &&& (property matches Some(When::Day(_))) ==> !at_the_edge(value, config.timezone@)
}

/// What is written into a property for a storable value is read as that value.
proof fn lemma_written(value: Option<When>, property: Option<When>, config: CalendarConfig)
    requires
        storable(value, property, config),
        writeback::written_kept(value, property, config),
    ensures
        date_after(
            property,
            Some(writeback::written(value, property, config)),
            config.date_only_timezone@,
        ) == value,
{
}

// ----------------------------------------------------------------------- tasks

/// The plan of a task after a patch.
pub open spec fn plan_after(task: Task, patch: PatchView, config: CalendarConfig) -> Option<When> {
    date_after(
        writeback::property_value(task.scheduled, config.date_only_timezone@),
        patch.scheduled,
        config.date_only_timezone@,
    )
}

/// The deadline of a task after a patch.
pub open spec fn deadline_after(task: Task, patch: PatchView, config: CalendarConfig) -> Option<
    When,
> {
    date_after(
        writeback::property_value(task.deadline, config.date_only_timezone@),
        patch.deadline,
        config.date_only_timezone@,
    )
}

/// The moment or day that a date is, which a task is shown with.
pub open spec fn shown_date(date: Option<(WireView, Origin)>, zone: Text) -> Option<When> {
    match date {
        Some((date, _)) => ical::moment_of(date, zone),
        None => None,
    }
}

/// Whether one value lies before another of its kind.
pub open spec fn before(a: When, b: When) -> bool {
    match (a, b) {
        (When::Day(a), When::Day(b)) => a < b,
        (When::At(a, x), When::At(b, y)) => a * 1_000_000_000 + x < b * 1_000_000_000 + y,
        _ => false,
    }
}

/// Where a client sends a start that the task was not shown with, beside a due date other
/// than it, the plan is the start that was sent and the deadline is the due date that was
/// sent. A due date that is missing clears the deadline.
pub proof fn law_a_new_start_is_the_plan_and_the_due_date_the_deadline(
    current: Task,
    wire: Wire,
    incoming: IncomingView,
    config: CalendarConfig,
)
    requires
        ical::moment_in(incoming.start, config.timezone@) is Some,
        ical::moment_in(incoming.start, config.timezone@) != ical::moment_in(
            incoming.due,
            config.timezone@,
        ),
        ical::moment_in(writeback::sent_date(wire.start), config.timezone@) is None,
        storable(
            ical::moment_in(incoming.start, config.timezone@),
            writeback::property_value(current.scheduled, config.date_only_timezone@),
            config,
        ),
        storable(
            ical::moment_in(incoming.due, config.timezone@),
            writeback::property_value(current.deadline, config.date_only_timezone@),
            config,
        ),
        writeback::update_kept(current, wire, incoming, config),
    ensures
        ({
            let patch = writeback::update_of(current, wire, incoming, config);
            &&& plan_after(current, patch, config) == ical::moment_in(
                incoming.start,
                config.timezone@,
            )
            &&& deadline_after(current, patch, config) == ical::moment_in(
                incoming.due,
                config.timezone@,
            )
        }),
{
    let start = ical::moment_in(incoming.start, config.timezone@);
    let due = ical::moment_in(incoming.due, config.timezone@);
    lemma_written(
        start,
        writeback::property_value(current.scheduled, config.date_only_timezone@),
        config,
    );
    lemma_written(
        due,
        writeback::property_value(current.deadline, config.date_only_timezone@),
        config,
    );
}

/// Whether a task is shown with all of its dates, in one kind: a plan before a deadline,
/// both on one date, or one of them alone.
pub open spec fn shown_in_full(plan: Option<When>, deadline: Option<When>) -> bool {
    match (plan, deadline) {
        (Some(plan), Some(deadline)) => plan == deadline || before(plan, deadline),
        _ => true,
    }
}

/// A task is shown as the client last sent it: after the patch for what a client sent, the
/// due date is the one that was sent, and the start is the one that was sent, or none where
/// the client sent none or one equal to the due date. This holds of a task whose dates are
/// all shown, for a start that lies before the due date and for dates that can be stored.
#[verifier::spinoff_prover]
pub proof fn law_a_patched_task_is_shown_as_it_was_sent(
    current: Task,
    wire: Wire,
    incoming: IncomingView,
    config: CalendarConfig,
)
    requires
        render::sent_view(wire.start) == render::sent_of(current, config).start,
        render::sent_view(wire.due) == render::sent_of(current, config).due,
        shown_in_full(
            writeback::property_value(current.scheduled, config.date_only_timezone@),
            writeback::property_value(current.deadline, config.date_only_timezone@),
        ),
        match (
            ical::moment_in(incoming.start, config.timezone@),
            ical::moment_in(incoming.due, config.timezone@),
        ) {
            (Some(start), Some(due)) => start == due || before(start, due),
            (Some(_), None) => false,
            (None, _) => true,
        },
        storable(
            ical::moment_in(incoming.start, config.timezone@),
            writeback::property_value(current.scheduled, config.date_only_timezone@),
            config,
        ),
        storable(
            ical::moment_in(incoming.due, config.timezone@),
            writeback::property_value(current.scheduled, config.date_only_timezone@),
            config,
        ),
        storable(
            ical::moment_in(incoming.due, config.timezone@),
            writeback::property_value(current.deadline, config.date_only_timezone@),
            config,
        ),
        writeback::update_kept(current, wire, incoming, config),
    ensures
        ({
            let patch = writeback::update_of(current, wire, incoming, config);
            let shown = render::sent(
                plan_after(current, patch, config),
                deadline_after(current, patch, config),
                config.timezone@,
            );
            let start = ical::moment_in(incoming.start, config.timezone@);
            let due = ical::moment_in(incoming.due, config.timezone@);
            &&& shown_date(shown.due, config.timezone@) == due
            &&& shown_date(shown.start, config.timezone@) == if start == due {
                None
            } else {
                start
            }
            &&& !shown.described
        }),
{
    let zone = config.timezone@;
    let plan = writeback::property_value(current.scheduled, config.date_only_timezone@);
    let deadline = writeback::property_value(current.deadline, config.date_only_timezone@);
    let start = writeback::new_start(incoming, zone);
    let due = ical::moment_in(incoming.due, zone);
    let now = render::sent(plan, deadline, zone);
    assert(writeback::sent_date(wire.start) == match now.start {
        Some((date, _)) => Some(date),
        None => None,
    });
    assert(writeback::sent_date(wire.due) == match now.due {
        Some((date, _)) => Some(date),
        None => None,
    });
    assert(writeback::sent_from(wire.due) == match now.due {
        Some((_, origin)) => Some(origin),
        None => None,
    });
    if writeback::written_kept(start, plan, config) {
        lemma_written(start, plan, config);
    }
    if writeback::written_kept(due, plan, config) {
        lemma_written(due, plan, config);
    }
    if writeback::written_kept(due, deadline, config) {
        lemma_written(due, deadline, config);
    }
}

/// A deadline that cannot be shown as a date is not touched by a client that never saw it:
/// whatever due date is sent for such a task becomes its plan, as long as no start is sent.
pub proof fn law_a_deadline_in_words_is_left_alone(
    current: Task,
    wire: Wire,
    incoming: IncomingView,
    config: CalendarConfig,
)
    requires
        render::sent_view(wire.start) == render::sent_of(current, config).start,
        render::sent_view(wire.due) == render::sent_of(current, config).due,
        render::sent_of(current, config).described,
        incoming.start is None,
        storable(
            ical::moment_in(incoming.due, config.timezone@),
            writeback::property_value(current.scheduled, config.date_only_timezone@),
            config,
        ),
        writeback::update_kept(current, wire, incoming, config),
    ensures
        ({
            let patch = writeback::update_of(current, wire, incoming, config);
            &&& plan_after(current, patch, config) == ical::moment_in(
                incoming.due,
                config.timezone@,
            )
            &&& deadline_after(current, patch, config) == writeback::property_value(
                current.deadline,
                config.date_only_timezone@,
            )
        }),
{
    let plan = writeback::property_value(current.scheduled, config.date_only_timezone@);
    let due = ical::moment_in(incoming.due, config.timezone@);
    assert(writeback::sent_date(wire.due) == Some(render::plain(plan->0)));
    assert(writeback::sent_from(wire.due) == Some(Origin::Scheduled));
    assert(writeback::sent_date(wire.start) is None);
    if writeback::written_kept(due, plan, config) {
        lemma_written(due, plan, config);
    }
}

/// A plan for a whole day stays one where a client moves it to the first or last second of
/// a day, as a client does that knows no whole days: it is then that day.
pub proof fn law_an_edge_of_a_day_is_the_day(
    current: Task,
    wire: Wire,
    incoming: IncomingView,
    config: CalendarConfig,
    second: int,
)
    requires
        writeback::property_value(current.scheduled, config.date_only_timezone@) matches Some(
            When::Day(_),
        ),
        current.deadline is None,
        render::sent_view(wire.start) == render::sent_of(current, config).start,
        render::sent_view(wire.due) == render::sent_of(current, config).due,
        incoming.start is None,
        ical::moment_in(incoming.due, config.timezone@) == Some(When::At(second, 0)),
        at_the_edge(Some(When::At(second, 0)), config.timezone@),
        representable(
            Some(When::Day(time::day_of(time::local_at(config.timezone@, second)))),
            config.date_only_timezone@,
        ),
        writeback::update_kept(current, wire, incoming, config),
    ensures
        plan_after(current, writeback::update_of(current, wire, incoming, config), config) == Some(
            When::Day(time::day_of(time::local_at(config.timezone@, second))),
        ),
{
    let plan = writeback::property_value(current.scheduled, config.date_only_timezone@);
    assert(writeback::sent_date(wire.due) == Some(render::plain(plan->0)));
    assert(writeback::sent_from(wire.due) == Some(Origin::Scheduled));
    assert(writeback::sent_date(wire.start) is None);
}

/// What a text of an object is after a change of it.
pub open spec fn text_after(now: Text, change: Option<Text>) -> Text {
    match change {
        Some(text) => text,
        None => now,
    }
}

/// What a list of an object is after a change of it.
pub open spec fn list_after(now: Seq<Text>, change: Option<Seq<Text>>) -> Seq<Text> {
    match change {
        Some(list) => list,
        None => now,
    }
}

/// After the patch the task has the name that was sent, or its own where none was sent; it
/// is done as it was sent, and has the tags that were sent, each as often. The people it is
/// assigned to stay. Nothing is written that the task holds already.
pub proof fn law_a_patched_task_holds_what_was_sent(
    current: Task,
    wire: Wire,
    incoming: IncomingView,
    config: CalendarConfig,
)
    ensures
        ({
            let patch = writeback::update_of(current, wire, incoming, config);
            &&& text_after(current.name@, patch.name) == text_after(
                current.name@,
                incoming.summary,
            )
            &&& (match patch.done {
                Some(done) => done,
                None => current.done,
            }) == incoming.done
            &&& list_after(text::texts(current.tags@), patch.tags).to_multiset()
                == incoming.categories.to_multiset()
            &&& patch.assignees is None
            &&& patch.name != Some(current.name@)
            &&& patch.done != Some(current.done)
            &&& patch.tags matches Some(tags) ==> tags.to_multiset() != text::texts(
                current.tags@,
            ).to_multiset()
        }),
{
}

/// A task that a client made is shown as it was sent: with its due date, and with its start
/// where one was sent before the due date. A start without a due date is the date that the
/// task is shown at.
#[verifier::spinoff_prover]
pub proof fn law_a_new_task_is_shown_as_it_was_sent(incoming: IncomingView, config: CalendarConfig)
    requires
        match (
            ical::moment_in(incoming.start, config.timezone@),
            ical::moment_in(incoming.due, config.timezone@),
        ) {
            (Some(start), Some(due)) => start == due || before(start, due),
            _ => true,
        },
        representable(
            ical::moment_in(incoming.start, config.timezone@),
            config.date_only_timezone@,
        ),
        representable(
            ical::moment_in(incoming.due, config.timezone@),
            config.date_only_timezone@,
        ),
        writeback::creation_kept(incoming, config),
    ensures
        ({
            let fields = writeback::creation_of(incoming, config);
            let days = config.date_only_timezone@;
            let shown = render::sent(
                date_after(None, fields.scheduled, days),
                date_after(None, fields.deadline, days),
                config.timezone@,
            );
            let start = ical::moment_in(incoming.start, config.timezone@);
            let due = ical::moment_in(incoming.due, config.timezone@);
            &&& shown_date(shown.due, config.timezone@) == if due is Some {
                due
            } else {
                start
            }
            &&& shown_date(shown.start, config.timezone@) == if start == due || due is None {
                None
            } else {
                start
            }
            &&& !shown.described
        }),
{
}

/// A task that a client made has the name, the state and the tags that were sent; without a
/// name it says so, and it is not assigned to anybody.
pub proof fn law_a_new_task_holds_what_was_sent(incoming: IncomingView, config: CalendarConfig)
    ensures
        ({
            let fields = writeback::creation_of(incoming, config);
            &&& fields.name == Some(text_after("(unnamed)"@, incoming.summary))
            &&& fields.done == Some(incoming.done)
            &&& list_after(Seq::empty(), fields.tags) == incoming.categories
            &&& fields.assignees is None
        }),
{
    assert(incoming.categories.len() == 0 ==> incoming.categories == Seq::<Text>::empty());
}

// ---------------------------------------------------------------------- events

/// A date of an event after a change of it.
pub open spec fn stored_after(
    now: Option<DateView>,
    change: Option<Option<Text>>,
) -> Option<DateView> {
    match change {
        None => now,
        Some(None) => None,
        Some(Some(stored)) => model::date_of(stored),
    }
}

/// An event after a patch. What only a new event gets stays as it is.
pub open spec fn event_after(current: EventView, patch: EventPatchView) -> EventView {
    EventView {
        name: text_after(current.name, patch.name),
        start: stored_after(current.start, patch.start),
        end: stored_after(current.end, patch.end),
        deadline: stored_after(current.deadline, patch.deadline),
        location: match patch.location {
            Some(location) => location,
            None => current.location,
        },
        tags: list_after(current.tags, patch.tags),
        reminder_names: list_after(current.reminder_names, patch.reminders),
        rrule: match patch.rrule {
            Some(rule) => rule,
            None => current.rrule,
        },
        exdates: match patch.exdates {
            Some(stored) => event_source::dates_on(stored),
            None => current.exdates,
        },
        ..current
    }
}

/// After the patch the event has the location that was sent, none where none was sent; it
/// has the name that was sent, or its own where none was sent, and the tags that were sent,
/// each as often. Its rule, its excluded dates, its deadline and what it is known by stay.
/// Nothing is written that the event holds already.
pub proof fn law_a_patched_event_holds_what_was_sent(
    current: EventView,
    incoming: IncomingEventView,
    config: CalendarConfig,
)
    ensures
        ({
            let patch = event_changes::event_update(current, incoming, config);
            let after = event_after(current, patch);
            &&& after.location == incoming.location
            &&& after.name == text_after(current.name, incoming.summary)
            &&& after.tags.to_multiset() == incoming.categories.to_multiset()
            &&& after.rrule == current.rrule && after.exdates == current.exdates
            &&& after.deadline == current.deadline && after.series == current.series
            &&& after.occurrence == current.occurrence && after.object_id == current.object_id
            &&& patch.series is None && patch.occurrence is None
            &&& patch.location != Some(current.location)
            &&& patch.name != Some(current.name)
            &&& patch.tags matches Some(tags) ==> tags.to_multiset() != current.tags.to_multiset()
        }),
{
}

/// The reminders of a patched event are those that were sent: the names that are written are
/// those of the leads that were sent, each as often, and nothing is written where the event
/// has leads of these names already.
pub proof fn law_a_patched_event_reminds_as_was_sent(
    current: EventView,
    incoming: IncomingEventView,
    config: CalendarConfig,
)
    ensures
        ({
            let patch = event_changes::event_update(current, incoming, config);
            let sent = event_changes::names_of_leads(incoming.leads);
            let held = event_changes::names_of_leads(
                event_changes::seconds_of(events::leads_of(current.reminder_names)),
            );
            match patch.reminders {
                Some(names) => names.to_multiset() == sent.to_multiset() && sent.to_multiset()
                    != held.to_multiset(),
                None => sent.to_multiset() == held.to_multiset(),
            }
        }),
{
    let sent = event_changes::names_of_leads(incoming.leads);
    let held = event_changes::names_of_leads(
        event_changes::seconds_of(events::leads_of(current.reminder_names)),
    );
    text::law_sorted(sent);
    text::law_sorted(held);
    if sent.to_multiset() == held.to_multiset() {
        text::law_sorting_forgets_the_order(sent, held);
    }
}

/// A lead is named by its length: the number and the unit of its name make up its whole
/// minutes.
pub proof fn law_a_lead_is_named_by_its_length(seconds: int) -> (r: (nat, Text, int))
    requires
        seconds >= 0,
    ensures
        event_changes::name_of_lead(seconds) == text::decimal(r.0) + r.1,
        r.0 * r.2 == seconds / 60,
        r.1 == "m"@ && r.2 == 1 || r.1 == "h"@ && r.2 == 60 || r.1 == "d"@ && r.2 == 1_440 || r.1
            == "w"@ && r.2 == 10_080,
{
    let minutes = seconds / 60;
    if minutes == 0 {
        reveal_strlit("0m");
        reveal_strlit("m");
        assert(text::decimal(0) == seq!['0']) by {
            reveal_with_fuel(text::decimal, 2);
        }
        assert("0m"@ =~= text::decimal(0) + "m"@);
        (0, "m"@, 1)
    } else if minutes % 10_080 == 0 {
        ((minutes / 10_080) as nat, "w"@, 10_080)
    } else if minutes % 1_440 == 0 {
        ((minutes / 1_440) as nat, "d"@, 1_440)
    } else if minutes % 60 == 0 {
        ((minutes / 60) as nat, "h"@, 60)
    } else {
        (minutes as nat, "m"@, 1)
    }
}

/// Whether a date holds what its text says.
pub open spec fn well_read(date: Option<DateView>) -> bool {
    date matches Some(date) ==> model::date_of(date.raw) == Some(date)
}

/// Whether a client sent the two ends of an event as it sends them: of one kind, and the end
/// behind the start where it is sent.
pub open spec fn sent_in_order(start: Option<When>, end: Option<When>) -> bool {
    match (start, end) {
        (Some(When::Day(first)), Some(When::Day(behind))) => time::FIRST_DAY <= first < behind
            <= time::LAST_DAY,
        (Some(When::At(a, x)), Some(When::At(b, y))) => before(When::At(a, x), When::At(b, y)),
        (Some(When::At(_, _)), None) => true,
        _ => false,
    }
}

/// What is stored of a value that can be represented is read as that value.
pub proof fn lemma_stored_is_read(value: When, config: CalendarConfig)
    requires
        representable(Some(value), config.date_only_timezone@),
        writeback::text_kept(value, config.date_only_timezone@),
    ensures
        ({
            let stored = writeback::stored(value, config.date_only_timezone@);
            stored is Some && model::date_of(stored->0) is Some && model::classified_date(
                model::date_of(stored->0)->0,
                config.date_only_timezone@,
            ) == value
        }),
{
    match value {
        When::Day(day) => {
            event_changes::lemma_stored_is_trimmed(
                time::first_moment(config.date_only_timezone@, day * 86_400)->0,
            );
        },
        When::At(second, _) => {
            event_changes::lemma_stored_is_trimmed(second);
        },
    }
}

/// An event is shown as the client last sent it: after the patch for what a client sent,
/// DTSTART and DTEND are the ones that were sent. This holds of dates that can be stored,
/// sent in order; the last day of a whole-day event lies before its DTEND.
#[verifier::spinoff_prover]
pub proof fn law_a_patched_event_is_shown_as_it_was_sent(
    current: EventView,
    incoming: IncomingEventView,
    config: CalendarConfig,
)
    requires
        well_read(current.end),
        sent_in_order(
            ical::moment_in(incoming.start, config.timezone@),
            ical::moment_in(incoming.end, config.timezone@),
        ),
        representable(
            ical::moment_in(incoming.start, config.timezone@),
            config.date_only_timezone@,
        ),
        representable(
            event_changes::last_value(
                ical::moment_in(incoming.start, config.timezone@),
                ical::moment_in(incoming.end, config.timezone@),
            ),
            config.date_only_timezone@,
        ),
        event_changes::update_kept(current, incoming, config),
    ensures
        ({
            let patch = event_changes::event_update(current, incoming, config);
            let shown = events::event_dates(
                event_after(current, patch),
                config.date_only_timezone@,
                None,
            );
            shown matches Some((start, end)) && ical::moment_of(start, config.timezone@)
                == ical::moment_in(incoming.start, config.timezone@) && ical::moment_in(
                end,
                config.timezone@,
            ) == ical::moment_in(incoming.end, config.timezone@)
        }),
{
    let tz = config.timezone@;
    let days = config.date_only_timezone@;
    let start = ical::moment_in(incoming.start, tz);
    let end = ical::moment_in(incoming.end, tz);
    let last = event_changes::last_value(start, end);
    let patch = event_changes::event_update(current, incoming, config);
    let after = event_after(current, patch);
    if event_changes::moment_kept(start, config) {
        lemma_stored_is_read(start->0, config);
    }
    if last is Some && event_changes::moment_kept(last, config) {
        lemma_stored_is_read(last->0, config);
    }
    assert(event_changes::stored_end(incoming.start, incoming.end, config) == match last {
        Some(last) => writeback::stored(last, days),
        None => None,
    });
    let now = events::event_dates(current, days, None);
    let (now_start, now_end) = match now {
        Some((start, end)) => (ical::moment_of(start, tz), ical::moment_in(end, tz)),
        None => (None, None),
    };
    assert(after.start is Some && model::classified_date(after.start->0, days) == start->0);
    if start == now_start && end == now_end {
        assert(patch.start is None && patch.end is None);
        assert(after.end == current.end && after.start == current.start);
    } else {
        assert(last is Some ==> after.end is Some && model::classified_date(after.end->0, days)
            == last->0);
        assert(last is None ==> after.end is None);
    }
}

/// An event that a client made is shown as it was sent: DTSTART and DTEND are the ones that
/// were sent.
#[verifier::spinoff_prover]
pub proof fn law_a_new_event_is_shown_as_it_was_sent(
    blank: EventView,
    incoming: IncomingEventView,
    config: CalendarConfig,
)
    requires
        blank.start is None && blank.end is None,
        sent_in_order(
            ical::moment_in(incoming.start, config.timezone@),
            ical::moment_in(incoming.end, config.timezone@),
        ),
        representable(
            ical::moment_in(incoming.start, config.timezone@),
            config.date_only_timezone@,
        ),
        representable(
            event_changes::last_value(
                ical::moment_in(incoming.start, config.timezone@),
                ical::moment_in(incoming.end, config.timezone@),
            ),
            config.date_only_timezone@,
        ),
        event_changes::creation_kept(incoming, config),
    ensures
        ({
            let fields = event_changes::event_creation(incoming, config);
            let shown = events::event_dates(
                event_after(blank, fields),
                config.date_only_timezone@,
                None,
            );
            shown matches Some((start, end)) && ical::moment_of(start, config.timezone@)
                == ical::moment_in(incoming.start, config.timezone@) && ical::moment_in(
                end,
                config.timezone@,
            ) == ical::moment_in(incoming.end, config.timezone@)
        }),
{
    let tz = config.timezone@;
    let days = config.date_only_timezone@;
    let start = ical::moment_in(incoming.start, tz);
    let end = ical::moment_in(incoming.end, tz);
    let last = event_changes::last_value(start, end);
    lemma_stored_is_read(start->0, config);
    if last is Some {
        lemma_stored_is_read(last->0, config);
    }
    assert(event_changes::stored_end(incoming.start, incoming.end, config) == match last {
        Some(last) => writeback::stored(last, days),
        None => None,
    });
}

/// An event that a client made has the name, the location, the tags and the reminders that
/// were sent; without a name it says so.
pub proof fn law_a_new_event_holds_what_was_sent(
    blank: EventView,
    incoming: IncomingEventView,
    config: CalendarConfig,
)
    requires
        blank.location is None && blank.tags.len() == 0 && blank.reminder_names.len() == 0,
    ensures
        ({
            let fields = event_changes::event_creation(incoming, config);
            let made = event_after(blank, fields);
            &&& made.name == text_after("(unnamed)"@, incoming.summary)
            &&& made.location == incoming.location
            &&& made.tags == incoming.categories
            &&& made.reminder_names == event_changes::names_of_leads(incoming.leads)
            &&& fields.rrule is None && fields.exdates is None && fields.deadline is None
            &&& fields.series is None && fields.occurrence is None
        }),
{
    assert(incoming.categories.len() == 0 ==> incoming.categories == blank.tags);
    let names = event_changes::names_of_leads(incoming.leads);
    assert(names.len() == 0 ==> names == blank.reminder_names);
}

// ------------------------------------------------------------- what is shown

#[verifier::spinoff_prover]
proof fn lemma_only_line_behind(lines: Seq<LineView>, line: LineView, key: Text)
    ensures
        ical::only_line(lines.push(line), key) == (match ical::only_line(lines, key) {
            Some(found) => Some(found),
            None => if line.part.len() == 0 && !line.multi && line.key == key {
                Some(line)
            } else {
                None
            },
        }),
    decreases lines.len(),
{
    let all = lines.push(line);
    reveal_with_fuel(ical::only_line, 2);
    if lines.len() == 0 {
        assert(all.drop_first() == Seq::<LineView>::empty());
        assert(all[0] == line);
    } else {
        assert(all[0] == lines[0]);
        assert(all.drop_first() == lines.drop_first().push(line));
        lemma_only_line_behind(lines.drop_first(), line, key);
    }
}

proof fn lemma_only_line_with(lines: Seq<LineView>, line: Option<LineView>, key: Text)
    ensures
        ical::only_line(ical::with_line(lines, line), key) == (match ical::only_line(lines, key) {
            Some(found) => Some(found),
            None => match line {
                Some(line) => if line.part.len() == 0 && !line.multi && line.key == key {
                    Some(line)
                } else {
                    None
                },
                None => None,
            },
        }),
{
    if let Some(line) = line {
        lemma_only_line_behind(lines, line, key);
    }
}

proof fn lemma_head_lines(uid: Text, name: Text, modified: int, key: Text)
    ensures
        ical::only_line(events::head_of(uid, name, modified), key) == (if key == "UID"@ {
            Some(ical::line_of("UID"@, uid, Seq::empty()))
        } else if key == "SUMMARY"@ {
            Some(ical::line_of("SUMMARY"@, name, Seq::empty()))
        } else if key == "DTSTAMP"@ {
            Some(ical::line_of("DTSTAMP"@, events::stamp_text(modified), Seq::empty()))
        } else if key == "SEQUENCE"@ {
            Some(
                ical::line_of(
                    "SEQUENCE"@,
                    text::decimal(events::revision(modified) as nat),
                    Seq::empty(),
                ),
            )
        } else {
            None
        }),
{
    let none = Seq::<LineView>::empty();
    let one = none.push(ical::line_of("UID"@, uid, Seq::empty()));
    let two = one.push(ical::line_of("SUMMARY"@, name, Seq::empty()));
    let three = two.push(
        ical::line_of("DTSTAMP"@, events::stamp_text(modified), Seq::empty()),
    );
    let last = ical::line_of(
        "SEQUENCE"@,
        text::decimal(events::revision(modified) as nat),
        Seq::empty(),
    );
    lemma_only_line_behind(none, one[0], key);
    lemma_only_line_behind(one, two[1], key);
    lemma_only_line_behind(two, three[2], key);
    lemma_only_line_behind(three, last, key);
}

proof fn lemma_keys_differ()
    ensures
        "UID"@ != "SUMMARY"@,
        "LOCATION"@ != "UID"@,
        "LOCATION"@ != "SUMMARY"@,
        "LOCATION"@ != "DTSTAMP"@,
        "LOCATION"@ != "SEQUENCE"@,
        "LOCATION"@ != "DTSTART"@,
        "LOCATION"@ != "DTEND"@,
        "DTSTART"@ != "UID"@,
        "DTSTART"@ != "SUMMARY"@,
        "DTSTART"@ != "DTSTAMP"@,
        "DTSTART"@ != "SEQUENCE"@,
        "DTSTART"@ != "STATUS"@,
        "DTSTART"@ != "PERCENT-COMPLETE"@,
        "DTEND"@ != "UID"@,
        "DTEND"@ != "SUMMARY"@,
        "DTEND"@ != "DTSTAMP"@,
        "DTEND"@ != "SEQUENCE"@,
        "DTEND"@ != "DTSTART"@,
        "DUE"@ != "UID"@,
        "DUE"@ != "SUMMARY"@,
        "DUE"@ != "DTSTAMP"@,
        "DUE"@ != "SEQUENCE"@,
        "DUE"@ != "DTSTART"@,
        "DUE"@ != "STATUS"@,
        "DUE"@ != "PERCENT-COMPLETE"@,
        "STATUS"@ != "UID"@,
        "STATUS"@ != "SUMMARY"@,
        "STATUS"@ != "DTSTAMP"@,
        "STATUS"@ != "SEQUENCE"@,
        "URL"@ != "UID"@,
        "URL"@ != "SUMMARY"@,
        "URL"@ != "DTSTAMP"@,
        "URL"@ != "SEQUENCE"@,
        "URL"@ != "DTSTART"@,
        "URL"@ != "DTEND"@,
        "URL"@ != "DUE"@,
        "URL"@ != "STATUS"@,
        "URL"@ != "PERCENT-COMPLETE"@,
        "URL"@ != "LOCATION"@,
        "URL"@ != "DESCRIPTION"@,
        "LOCATION"@ != "DESCRIPTION"@,
        "DTEND"@ != "DESCRIPTION"@,
        "DUE"@ != "DESCRIPTION"@,
        "DTSTART"@ != "DESCRIPTION"@,
        "STATUS"@ != "DESCRIPTION"@,
        "LOCATION"@ != "URL"@,
        "UID"@ != "DESCRIPTION"@,
        "SUMMARY"@ != "DESCRIPTION"@,
{
    reveal_strlit("UID");
    reveal_strlit("DUE");
    reveal_strlit("URL");
    reveal_strlit("DTEND");
    reveal_strlit("STATUS");
    reveal_strlit("SUMMARY");
    reveal_strlit("DTSTAMP");
    reveal_strlit("DTSTART");
    reveal_strlit("SEQUENCE");
    reveal_strlit("LOCATION");
    reveal_strlit("DESCRIPTION");
    reveal_strlit("PERCENT-COMPLETE");
    assert("UID"@.len() == 3 && "DUE"@.len() == 3 && "URL"@.len() == 3);
    assert("UID"@[0] == 'U' && "DUE"@[0] == 'D' && "URL"@[1] == 'R' && "UID"@[1] == 'I');
    assert("URL"@[0] == 'U');
    assert("DTEND"@.len() == 5 && "STATUS"@.len() == 6);
    assert("SUMMARY"@.len() == 7 && "DTSTAMP"@.len() == 7 && "DTSTART"@.len() == 7);
    assert("SUMMARY"@[0] == 'S' && "DTSTAMP"@[5] == 'M' && "DTSTART"@[5] == 'R');
    assert("DTSTART"@[0] == 'D');
    assert("SEQUENCE"@.len() == 8 && "LOCATION"@.len() == 8);
    assert("SEQUENCE"@[0] == 'S' && "LOCATION"@[0] == 'L');
    assert("DESCRIPTION"@.len() == 11 && "PERCENT-COMPLETE"@.len() == 16);
}

/// The VEVENT of an event says what the event holds: its LOCATION is the event's location,
/// and there is none where the event has none; its SUMMARY is the name, its URL the event's,
/// its DTSTART and DTEND the event's dates. It has a CATEGORIES line for each tag and an
/// alarm for each lead.
#[verifier::spinoff_prover]
pub proof fn law_a_vevent_says_what_the_event_holds(
    event: EventView,
    uid: Text,
    days: Text,
    fallback: Instant,
    zone: Option<Text>,
)
    requires
        events::event_dates(event, days, zone) is Some,
    ensures
        ({
            let shown = events::vevent_of(event, uid, days, fallback, zone);
            let (start, end) = events::event_dates(event, days, zone)->0;
            shown matches Some(part) && {
                &&& ical::only_value(part.once, "LOCATION"@) == event.location
                &&& ical::only_value(part.once, "SUMMARY"@) == Some(event.name)
                &&& ical::only_value(part.once, "UID"@) == Some(uid)
                &&& ical::only_value(part.once, "URL"@) == event.object_url
                &&& ical::only_line(part.once, "DTSTART"@) == ical::date_under(
                    "DTSTART"@,
                    Some(start),
                )
                &&& ical::only_line(part.once, "DTEND"@) == ical::date_under("DTEND"@, end)
                &&& part.many.len() == event.tags.len()
                &&& forall|i: int|
                    0 <= i < event.tags.len() ==> (#[trigger] part.many[i]).key == "CATEGORIES"@
                        && part.many[i].value == event.tags[i]
                &&& part.alarms.len() == events::leads_of(event.reminder_names).len()
            }
        }),
{
    lemma_keys_differ();
    let (start, end) = events::event_dates(event, days, zone)->0;
    let modified = events::modified_at(event, fallback);
    let head = events::head_of(uid, event.name, modified);
    let a = ical::date_under("DTSTART"@, Some(start));
    let b = ical::date_under("DTEND"@, end);
    let c = ical::text_under("LOCATION"@, event.location);
    let d = ical::text_under("URL"@, event.object_url);
    let e = ical::text_under("DESCRIPTION"@, event.object_url);
    let started = ical::with_line(head, a);
    let ended = ical::with_line(started, b);
    let located = ical::with_line(ended, c);
    let linked = ical::with_line(located, d);
    assert forall|key: Text|
        ical::only_line(#[trigger] ical::with_line(linked, e), key) == (match ical::only_line(
            head,
            key,
        ) {
            Some(found) => Some(found),
            None => if key == "DTSTART"@ {
                a
            } else if key == "DTEND"@ && b is Some {
                b
            } else if key == "LOCATION"@ && c is Some {
                c
            } else if key == "URL"@ && d is Some {
                d
            } else if key == "DESCRIPTION"@ {
                e
            } else {
                None
            },
        }) by {
        lemma_only_line_with(head, a, key);
        lemma_only_line_with(started, b, key);
        lemma_only_line_with(ended, c, key);
        lemma_only_line_with(located, d, key);
        lemma_only_line_with(linked, e, key);
    }
    let once = ical::with_line(linked, e);
    lemma_head_lines(uid, event.name, modified, "LOCATION"@);
    lemma_head_lines(uid, event.name, modified, "SUMMARY"@);
    lemma_head_lines(uid, event.name, modified, "UID"@);
    lemma_head_lines(uid, event.name, modified, "URL"@);
    lemma_head_lines(uid, event.name, modified, "DTSTART"@);
    lemma_head_lines(uid, event.name, modified, "DTEND"@);
    assert(ical::only_line(once, "LOCATION"@) == c);
    assert(ical::only_line(once, "URL"@) == d);
}

/// An event that a client changed is shown with the LOCATION and the name that the client
/// sent.
pub proof fn law_a_patched_event_is_shown_with_the_location_sent(
    current: EventView,
    incoming: IncomingEventView,
    config: CalendarConfig,
    uid: Text,
    fallback: Instant,
    zone: Option<Text>,
)
    ensures
        ({
            let after = event_after(
                current,
                event_changes::event_update(current, incoming, config),
            );
            events::vevent_of(after, uid, config.date_only_timezone@, fallback, zone) matches Some(
                part,
            ) ==> ical::only_value(part.once, "LOCATION"@) == incoming.location
                && ical::only_value(part.once, "SUMMARY"@) == Some(
                text_after(current.name, incoming.summary),
            )
        }),
{
    let after = event_after(current, event_changes::event_update(current, incoming, config));
    if events::event_dates(after, config.date_only_timezone@, zone) is Some {
        law_a_vevent_says_what_the_event_holds(
            after,
            uid,
            config.date_only_timezone@,
            fallback,
            zone,
        );
        law_a_patched_event_holds_what_was_sent(current, incoming, config);
    }
}

// ---------------------------------------------------------------------- series

proof fn lemma_insert_holds<T>(s: Seq<(int, T)>, key: int, value: T, i: int)
    requires
        0 <= i < order::insert_keyed(s, key, value).len(),
    ensures
        order::insert_keyed(s, key, value)[i] == (key, value) || s.contains(
            order::insert_keyed(s, key, value)[i],
        ),
    decreases s.len(),
{
    let all = order::insert_keyed(s, key, value);
    if s.len() == 0 || s.last().0 < key {
        if i < s.len() {
            assert(s[i] == all[i]);
        }
    } else if s.last().0 == key {
        assert(s[i] == all[i]);
    } else {
        let front = s.drop_last();
        let inner = order::insert_keyed(front, key, value);
        if i < inner.len() {
            lemma_insert_holds(front, key, value, i);
            if front.contains(inner[i]) {
                let j = choose|j: int| 0 <= j < front.len() && front[j] == inner[i];
                assert(s[j] == inner[i]);
            }
        } else {
            assert(s[s.len() - 1] == all[i]);
        }
    }
}

/// Whether a moment is among some dates, by the nanoseconds since 1970.
pub open spec fn holds_moment(dates: Seq<DateView>, total: int) -> bool {
    exists|i: int| 0 <= i < dates.len() && events::total_of(#[trigger] dates[i]) == total
}

/// Whether a client left out the occurrence at a moment.
pub open spec fn sends_moment(sent: Seq<WireView>, total: int, config: CalendarConfig) -> bool {
    exists|i: int|
        0 <= i < sent.len() && (event_changes::stored_instant(
            #[trigger] sent[i],
            config,
        ) matches Some((_, date)) && events::total_of(date) == total)
}

proof fn lemma_wanted(sent: Seq<WireView>, config: CalendarConfig)
    ensures
        ({
            let wanted = event_changes::wanted_dates(sent, config);
            &&& order::growing(wanted)
            &&& forall|i: int|
                0 <= i < wanted.len() ==> (model::date_of(
                    (#[trigger] wanted[i]).1,
                ) matches Some(date) && events::total_of(date) == wanted[i].0)
            &&& forall|total: int| #[trigger]
                order::has_key(wanted, total) <==> sends_moment(sent, total, config)
        }),
    decreases sent.len(),
{
    let wanted = event_changes::wanted_dates(sent, config);
    if sent.len() > 0 {
        let front = sent.drop_last();
        let before = event_changes::wanted_dates(front, config);
        lemma_wanted(front, config);
        let last = event_changes::stored_instant(sent.last(), config);
        assert(sent[sent.len() - 1] == sent.last());
        if let Some((stored, date)) = last {
            order::lemma_insert_keyed(before, events::total_of(date), stored);
            assert forall|i: int| 0 <= i < wanted.len() implies (model::date_of(
                (#[trigger] wanted[i]).1,
            ) matches Some(date) && events::total_of(date) == wanted[i].0) by {
                lemma_insert_holds(before, events::total_of(date), stored, i);
                if before.contains(wanted[i]) {
                    let j = choose|j: int| 0 <= j < before.len() && before[j] == wanted[i];
                    assert(model::date_of(before[j].1) is Some);
                }
            }
        }
        assert forall|total: int| #[trigger]
            order::has_key(wanted, total) <==> sends_moment(sent, total, config) by {
            assert(order::has_key(before, total) <==> sends_moment(front, total, config));
            if sends_moment(front, total, config) {
                let i = choose|i: int|
                    0 <= i < front.len() && (event_changes::stored_instant(
                        #[trigger] front[i],
                        config,
                    ) matches Some((_, date)) && events::total_of(date) == total);
                assert(sent[i] == front[i]);
            }
            if sends_moment(sent, total, config) {
                let i = choose|i: int|
                    0 <= i < sent.len() && (event_changes::stored_instant(
                        #[trigger] sent[i],
                        config,
                    ) matches Some((_, date)) && events::total_of(date) == total);
                if i < front.len() {
                    assert(front[i] == sent[i]);
                }
            }
        }
    } else {
        assert forall|total: int| !order::has_key(wanted, total) by {}
    }
}

proof fn lemma_held(current: Seq<DateView>)
    ensures
        order::growing(event_changes::held_dates(current)),
        forall|total: int| #[trigger]
            order::has_key(event_changes::held_dates(current), total) <==> holds_moment(
                current,
                total,
            ),
    decreases current.len(),
{
    let held = event_changes::held_dates(current);
    if current.len() > 0 {
        let front = current.drop_last();
        lemma_held(front);
        order::lemma_insert_keyed(
            event_changes::held_dates(front),
            events::total_of(current.last()),
            (),
        );
        assert(current[current.len() - 1] == current.last());
        assert forall|total: int| #[trigger]
            order::has_key(held, total) <==> holds_moment(current, total) by {
            assert(order::has_key(event_changes::held_dates(front), total) <==> holds_moment(
                front,
                total,
            ));
            if holds_moment(front, total) {
                let i = choose|i: int|
                    0 <= i < front.len() && events::total_of(#[trigger] front[i]) == total;
                assert(current[i] == front[i]);
            }
            if holds_moment(current, total) {
                let i = choose|i: int|
                    0 <= i < current.len() && events::total_of(#[trigger] current[i]) == total;
                if i < front.len() {
                    assert(front[i] == current[i]);
                }
            }
        }
    } else {
        assert forall|total: int| !order::has_key(held, total) by {}
    }
}

proof fn lemma_dates_on(lines: Seq<Text>)
    requires
        forall|i: int| 0 <= i < lines.len() ==> model::date_of(#[trigger] lines[i]) is Some,
    ensures
        event_source::dates_on(lines).len() == lines.len(),
        forall|i: int|
            0 <= i < lines.len() ==> (#[trigger] event_source::dates_on(lines)[i])
                == model::date_of(lines[i])->0,
    decreases lines.len(),
{
    if lines.len() > 0 {
        let front = lines.drop_last();
        assert forall|i: int| 0 <= i < front.len() implies model::date_of(
            #[trigger] front[i],
        ) is Some by {
            assert(front[i] == lines[i]);
        }
        lemma_dates_on(front);
        assert(lines[lines.len() - 1] == lines.last());
    }
}

/// After the patch for a series its excluded dates are those that were sent, moment by
/// moment: an occurrence is left out exactly where the client left it out.
pub proof fn law_a_patched_series_leaves_out_what_was_sent(
    current: EventView,
    replacements: Seq<Event>,
    incoming: IncomingSeriesView,
    config: CalendarConfig,
    total: int,
)
    ensures
        holds_moment(
            event_after(
                current,
                event_changes::series_update(current, replacements, incoming, config).master,
            ).exdates,
            total,
        ) <==> sends_moment(incoming.master.exdates, total, config),
{
    let sent = incoming.master.exdates;
    let wanted = event_changes::wanted_dates(sent, config);
    let held = event_changes::held_dates(current.exdates);
    lemma_wanted(sent, config);
    lemma_held(current.exdates);
    let change = event_changes::excluded_change(current.exdates, sent, config);
    let patch = event_changes::series_update(current, replacements, incoming, config).master;
    assert(patch.exdates == change);
    assert(order::has_key(wanted, total) <==> sends_moment(sent, total, config));
    assert(order::has_key(held, total) <==> holds_moment(current.exdates, total));
    if change is None {
        let a = event_changes::numbers(wanted);
        let b = event_changes::numbers(held);
        assert(a.len() == wanted.len() && b.len() == held.len() && a == b);
        if order::has_key(wanted, total) {
            let i = choose|i: int| 0 <= i < wanted.len() && (#[trigger] wanted[i]).0 == total;
            assert(a[i] == wanted[i].0 && b[i] == held[i].0);
            assert(held[i].0 == total);
        }
        if order::has_key(held, total) {
            let i = choose|i: int| 0 <= i < held.len() && (#[trigger] held[i]).0 == total;
            assert(a[i] == wanted[i].0 && b[i] == held[i].0);
            assert(wanted[i].0 == total);
        }
    } else {
        let stored = event_changes::values(wanted);
        assert forall|i: int| 0 <= i < stored.len() implies model::date_of(
            #[trigger] stored[i],
        ) is Some by {
            assert(model::date_of(wanted[i].1) is Some);
        }
        lemma_dates_on(stored);
        let after = event_source::dates_on(stored);
        if order::has_key(wanted, total) {
            let i = choose|i: int| 0 <= i < wanted.len() && (#[trigger] wanted[i]).0 == total;
            assert(stored[i] == wanted[i].1);
            assert(events::total_of(after[i]) == total);
        }
        if holds_moment(after, total) {
            let i = choose|i: int|
                0 <= i < after.len() && events::total_of(#[trigger] after[i]) == total;
            assert(stored[i] == wanted[i].1);
            assert(wanted[i].0 == total);
        }
    }
}

/// After the patch for a series its rule is the one that was sent, up to the order of its
/// parts and their case; without one the series no longer recurs. Otherwise the series is
/// patched as an event is.
pub proof fn law_a_patched_series_recurs_as_was_sent(
    current: EventView,
    replacements: Seq<Event>,
    incoming: IncomingSeriesView,
    config: CalendarConfig,
)
    ensures
        ({
            let patch = event_changes::series_update(
                current,
                replacements,
                incoming,
                config,
            ).master;
            let after = event_after(current, patch);
            &&& event_changes::rules_agree(after.rrule, incoming.master.rrule)
            &&& patch.rrule is Some ==> after.rrule == incoming.master.rrule
            &&& after.location == incoming.master.location
            &&& after.name == text_after(current.name, incoming.master.summary)
            &&& after.tags.to_multiset() == incoming.master.categories.to_multiset()
            &&& patch.start == event_changes::event_update(current, incoming.master, config).start
            &&& patch.end == event_changes::event_update(current, incoming.master, config).end
            &&& after.deadline == current.deadline
        }),
{
}

/// Whether an object stands for the occurrence at a moment.
pub open spec fn stands_at(event: EventView, date: DateView) -> bool {
    event.occurrence is Some && event.occurrence->0.second == date.second
        && event.occurrence->0.nano == date.nano
}

/// The occurrence that a component replaces, as it is stored.
pub open spec fn replaces(one: IncomingEventView, config: CalendarConfig) -> Option<
    (Text, DateView),
> {
    match one.recurrence_id {
        Some(value) => event_changes::stored_instant(value, config),
        None => None,
    }
}

/// What is stored of an occurrence.
pub open spec fn stored_of(occurrence: Option<(Text, DateView)>) -> Text {
    match occurrence {
        Some((stored, _)) => stored,
        None => Seq::empty(),
    }
}

proof fn lemma_match_found(
    replacements: Seq<Event>,
    from: int,
    at: DateView,
    matched: Seq<Text>,
)
    requires
        0 <= from,
    ensures
        match event_changes::match_from(replacements, from, at, matched) {
            Some(i) => from <= i < replacements.len() && stands_at(replacements[i]@, at)
                && !matched.contains(replacements[i]@.object_id),
            None => forall|j: int|
                from <= j < replacements.len() && stands_at((#[trigger] replacements[j])@, at)
                    ==> matched.contains(replacements[j]@.object_id),
        },
    decreases replacements.len() - from,
{
    if from < replacements.len() {
        lemma_match_found(replacements, from + 1, at, matched);
    }
}

/// Whether a component that replaces an occurrence has been taken in: an object that stands
/// for the occurrence gets what was sent, or a new one is made for it.
pub open spec fn taken_in(
    plan: Planning,
    one: IncomingEventView,
    master: Text,
    replacements: Seq<Event>,
    config: CalendarConfig,
) -> bool {
    replaces(one, config) matches Some((stored, date)) ==> {
        ||| exists|j: int|
            {
                &&& 0 <= j < replacements.len()
                &&& stands_at((#[trigger] replacements[j])@, date)
                &&& plan.matched.contains(replacements[j]@.object_id)
                &&& {
                    let patch = event_changes::event_update(replacements[j]@, one, config);
                    patch == event_changes::no_event_change() || plan.update.contains(
                        (replacements[j]@.object_id, patch),
                    )
                }
            }
        ||| exists|k: int|
            {
                &&& 0 <= k < plan.create.len()
                &&& (#[trigger] plan.create[k]).series == Some(master)
                &&& plan.create[k].occurrence == Some(stored)
                &&& plan.create[k] == (EventPatchView {
                    series: Some(master),
                    occurrence: Some(stored),
                    ..event_changes::event_creation(one, config)
                })
            }
    }
}

/// Whether one plan holds all that another does.
pub open spec fn holds_plan(more: Planning, less: Planning) -> bool {
    &&& less.matched.len() <= more.matched.len() && forall|i: int|
        0 <= i < less.matched.len() ==> more.matched[i] == #[trigger] less.matched[i]
    &&& less.update.len() <= more.update.len() && forall|i: int|
        0 <= i < less.update.len() ==> more.update[i] == #[trigger] less.update[i]
    &&& less.create.len() <= more.create.len() && forall|i: int|
        0 <= i < less.create.len() ==> more.create[i] == #[trigger] less.create[i]
}

proof fn lemma_taken_in_stays(
    less: Planning,
    more: Planning,
    one: IncomingEventView,
    master: Text,
    replacements: Seq<Event>,
    config: CalendarConfig,
)
    requires
        holds_plan(more, less),
        taken_in(less, one, master, replacements, config),
    ensures
        taken_in(more, one, master, replacements, config),
{
    if let Some((stored, date)) = replaces(one, config) {
        if exists|j: int|
            {
                &&& 0 <= j < replacements.len()
                &&& stands_at((#[trigger] replacements[j])@, date)
                &&& less.matched.contains(replacements[j]@.object_id)
                &&& {
                    let patch = event_changes::event_update(replacements[j]@, one, config);
                    patch == event_changes::no_event_change() || less.update.contains(
                        (replacements[j]@.object_id, patch),
                    )
                }
            } {
            let j = choose|j: int|
                {
                    &&& 0 <= j < replacements.len()
                    &&& stands_at((#[trigger] replacements[j])@, date)
                    &&& less.matched.contains(replacements[j]@.object_id)
                    &&& {
                        let patch = event_changes::event_update(replacements[j]@, one, config);
                        patch == event_changes::no_event_change() || less.update.contains(
                            (replacements[j]@.object_id, patch),
                        )
                    }
                };
            let id = replacements[j]@.object_id;
            let i = choose|i: int| 0 <= i < less.matched.len() && less.matched[i] == id;
            assert(more.matched[i] == id);
            let patch = event_changes::event_update(replacements[j]@, one, config);
            if less.update.contains((id, patch)) {
                let k = choose|k: int| 0 <= k < less.update.len() && less.update[k] == (id, patch);
                assert(more.update[k] == (id, patch));
            }
            assert(stands_at(replacements[j]@, date));
        } else {
            let k = choose|k: int|
                {
                    &&& 0 <= k < less.create.len()
                    &&& (#[trigger] less.create[k]).series == Some(master)
                    &&& less.create[k].occurrence == Some(stored)
                    &&& less.create[k] == (EventPatchView {
                        series: Some(master),
                        occurrence: Some(stored),
                        ..event_changes::event_creation(one, config)
                    })
                };
            assert(more.create[k] == less.create[k]);
        }
    }
}

/// Every component that replaces an occurrence is taken in: the object that stands for that
/// occurrence is changed into what was sent, or one is made, linked to the series and to the
/// occurrence.
pub proof fn law_every_replaced_occurrence_is_taken_in(
    wanted: Seq<IncomingEventView>,
    master: Text,
    replacements: Seq<Event>,
    config: CalendarConfig,
    i: int,
)
    requires
        0 <= i < wanted.len(),
    ensures
        taken_in(
            event_changes::planned(wanted, master, replacements, config),
            wanted[i],
            master,
            replacements,
            config,
        ),
    decreases wanted.len(),
{
    let front = wanted.drop_last();
    let before = event_changes::planned(front, master, replacements, config);
    let after = event_changes::planned(wanted, master, replacements, config);
    assert(holds_plan(after, before));
    if i < front.len() {
        law_every_replaced_occurrence_is_taken_in(front, master, replacements, config, i);
        lemma_taken_in_stays(before, after, wanted[i], master, replacements, config);
    } else if let Some((stored, date)) = replaces(wanted[i], config) {
        lemma_match_found(replacements, 0, date, before.matched);
        match event_changes::match_from(replacements, 0, date, before.matched) {
            Some(j) => {
                let id = replacements[j]@.object_id;
                assert(after.matched[after.matched.len() - 1] == id);
                let patch = event_changes::event_update(replacements[j]@, wanted[i], config);
                if patch != event_changes::no_event_change() {
                    assert(after.update[after.update.len() - 1] == (id, patch));
                }
                assert(stands_at(replacements[j]@, date));
            },
            None => {
                assert(after.create[after.create.len() - 1].series == Some(master));
            },
        }
    }
}

proof fn lemma_matched_was_sent(
    wanted: Seq<IncomingEventView>,
    master: Text,
    replacements: Seq<Event>,
    config: CalendarConfig,
    id: Text,
)
    requires
        event_changes::planned(wanted, master, replacements, config).matched.contains(id),
    ensures
        exists|i: int, j: int|
            0 <= i < wanted.len() && 0 <= j < replacements.len() && (
            #[trigger] replacements[j])@.object_id == id && (replaces(
                #[trigger] wanted[i],
                config,
            ) matches Some((_, date)) && stands_at(replacements[j]@, date)),
    decreases wanted.len(),
{
    let after = event_changes::planned(wanted, master, replacements, config);
    if wanted.len() > 0 {
        let front = wanted.drop_last();
        let before = event_changes::planned(front, master, replacements, config);
        if before.matched.contains(id) {
            lemma_matched_was_sent(front, master, replacements, config, id);
            let (i, j) = choose|i: int, j: int|
                0 <= i < front.len() && 0 <= j < replacements.len() && (
                #[trigger] replacements[j])@.object_id == id && (replaces(
                    #[trigger] front[i],
                    config,
                ) matches Some((_, date)) && stands_at(replacements[j]@, date));
            assert(wanted[i] == front[i]);
        } else {
            let k = choose|k: int| 0 <= k < after.matched.len() && after.matched[k] == id;
            if k < before.matched.len() {
                assert(before.matched[k] == id);
            }
            let (stored, date) = replaces(wanted.last(), config)->0;
            lemma_match_found(replacements, 0, date, before.matched);
            let j = event_changes::match_from(replacements, 0, date, before.matched)->0;
            assert(replacements[j]@.object_id == id);
            assert(wanted[wanted.len() - 1] == wanted.last());
        }
    }
}

proof fn lemma_unmatched_are_archived(replacements: Seq<Event>, matched: Seq<Text>, id: Text)
    ensures
        event_changes::unmatched(replacements, matched).contains(id) <==> !matched.contains(id)
            && exists|j: int|
            0 <= j < replacements.len() && (#[trigger] replacements[j])@.object_id == id,
    decreases replacements.len(),
{
    let all = event_changes::unmatched(replacements, matched);
    if replacements.len() > 0 {
        let front = replacements.drop_last();
        let before = event_changes::unmatched(front, matched);
        lemma_unmatched_are_archived(front, matched, id);
        assert(replacements[replacements.len() - 1] == replacements.last());
        if all.contains(id) {
            let k = choose|k: int| 0 <= k < all.len() && all[k] == id;
            if k < before.len() {
                assert(before[k] == id);
                let j = choose|j: int|
                    0 <= j < front.len() && (#[trigger] front[j])@.object_id == id;
                assert(replacements[j] == front[j]);
            }
        }
        if !matched.contains(id) && exists|j: int|
            0 <= j < replacements.len() && (#[trigger] replacements[j])@.object_id == id {
            let j = choose|j: int|
                0 <= j < replacements.len() && (#[trigger] replacements[j])@.object_id == id;
            if j < front.len() {
                assert(front[j] == replacements[j]);
                let k = choose|k: int| 0 <= k < before.len() && before[k] == id;
                assert(all[k] == id);
            } else {
                assert(all[all.len() - 1] == id);
            }
        }
    }
}

/// An object whose occurrence the client no longer replaces is archived: one that stands for
/// no occurrence of the components that were sent. Nothing but objects of the series is
/// archived.
pub proof fn law_what_is_no_longer_replaced_is_archived(
    current: EventView,
    replacements: Seq<Event>,
    incoming: IncomingSeriesView,
    config: CalendarConfig,
    id: Text,
)
    ensures
        ({
            let archive = event_changes::series_update(
                current,
                replacements,
                incoming,
                config,
            ).archive;
            let known = exists|j: int|
                0 <= j < replacements.len() && (#[trigger] replacements[j])@.object_id == id;
            let sent = exists|i: int, j: int|
                0 <= i < incoming.replacements.len() && 0 <= j < replacements.len() && (
                #[trigger] replacements[j])@.object_id == id && (replaces(
                    #[trigger] incoming.replacements[i],
                    config,
                ) matches Some((_, date)) && stands_at(replacements[j]@, date));
            &&& known && !sent ==> archive.contains(id)
            &&& archive.contains(id) ==> known
        }),
{
    let rest = event_changes::planned(
        incoming.replacements,
        current.object_id,
        replacements,
        config,
    );
    lemma_unmatched_are_archived(replacements, rest.matched, id);
    if rest.matched.contains(id) {
        lemma_matched_was_sent(
            incoming.replacements,
            current.object_id,
            replacements,
            config,
            id,
        );
    }
}

/// A new series makes one object for each component that replaces an occurrence, with what
/// was sent and for that occurrence, in the order in which they were sent.
pub proof fn law_a_new_series_makes_every_replacement(
    wanted: Seq<IncomingEventView>,
    config: CalendarConfig,
    i: int,
)
    requires
        0 <= i < wanted.len(),
        replaces(wanted[i], config) is Some,
    ensures
        event_changes::new_replacements(wanted, config).contains(
            (EventPatchView {
                occurrence: Some(stored_of(replaces(wanted[i], config))),
                ..event_changes::event_creation(wanted[i], config)
            }),
        ),
        event_changes::new_replacements(wanted, config).len() <= wanted.len(),
    decreases wanted.len(),
{
    let front = wanted.drop_last();
    let before = event_changes::new_replacements(front, config);
    let all = event_changes::new_replacements(wanted, config);
    let one = EventPatchView {
        occurrence: Some(stored_of(replaces(wanted[i], config))),
        ..event_changes::event_creation(wanted[i], config)
    };
    lemma_few_replacements(front, config);
    if i < front.len() {
        law_a_new_series_makes_every_replacement(front, config, i);
        let k = choose|k: int| 0 <= k < before.len() && before[k] == one;
        assert(all[k] == one);
    } else {
        assert(all[all.len() - 1] == one);
    }
}

proof fn lemma_few_replacements(wanted: Seq<IncomingEventView>, config: CalendarConfig)
    ensures
        event_changes::new_replacements(wanted, config).len() <= wanted.len(),
    decreases wanted.len(),
{
    if wanted.len() > 0 {
        lemma_few_replacements(wanted.drop_last(), config);
    }
}

// --------------------------------------------------------------------- storing

/// Whether an object's properties hold what a setting says.
pub open spec fn holds_setting(p: Seq<Property>, setting: SettingView) -> bool {
    match setting {
        SettingView::Date { key, date } => object::date_in(p, key) == (match date {
            Some(date) => model::date_of(date),
            None => None,
        }),
        SettingView::Text { key, text } => object::text_in(p, key) == (if text::trimmed(
            text,
        ).len() > 0 {
            Some(text)
        } else {
            None
        }),
        SettingView::Options { key, names } => object::names_in(p, key) == names,
        SettingView::Objects { key, objects } => object::links_in(p, key) == objects,
        _ => true,
    }
}

/// Whether a key stands for the same in two lists of properties.
pub open spec fn same_under(p: Seq<Property>, q: Seq<Property>, key: Text) -> bool {
    &&& object::date_in(p, key) == object::date_in(q, key)
    &&& object::text_in(p, key) == object::text_in(q, key)
    &&& object::names_in(p, key) == object::names_in(q, key)
    &&& object::links_in(p, key) == object::links_in(q, key)
}

/// Whether an object is what it was, with some settings stored: it holds each of them, and
/// what they do not touch is as before.
pub open spec fn stored_in(
    before: Seq<Property>,
    after: Seq<Property>,
    settings: Seq<SettingView>,
) -> bool {
    &&& forall|i: int| 0 <= i < settings.len() ==> holds_setting(after, #[trigger] settings[i])
    &&& forall|key: Text|
        (forall|i: int| 0 <= i < settings.len() ==> series::key_of(#[trigger] settings[i]) != key)
            ==> #[trigger] same_under(before, after, key)
}

proof fn lemma_event_keys()
    ensures
        "start_date"@.len() == 10,
        "end_date"@.len() == 8,
        "deadline"@.len() == 8,
        "address"@.len() == 7,
        "reminder_lead"@.len() == 13,
        "tag"@.len() == 3,
        "rrule"@.len() == 5,
        "exdate"@.len() == 6,
        "series"@.len() == 6,
        "occurrence"@.len() == 10,
        "end_date"@ != "deadline"@,
        "start_date"@ != "occurrence"@,
        "exdate"@ != "series"@,
        "ical_uid"@.len() == 8,
        "ical_uid"@ != "end_date"@,
        "ical_uid"@ != "deadline"@,
{
    reveal_strlit("start_date");
    reveal_strlit("end_date");
    reveal_strlit("deadline");
    reveal_strlit("address");
    reveal_strlit("reminder_lead");
    reveal_strlit("tag");
    reveal_strlit("rrule");
    reveal_strlit("exdate");
    reveal_strlit("series");
    reveal_strlit("occurrence");
    reveal_strlit("ical_uid");
    assert("end_date"@[0] == 'e' && "deadline"@[0] == 'd' && "ical_uid"@[0] == 'i');
    assert("start_date"@[0] == 's' && "occurrence"@[0] == 'o');
    assert("exdate"@[0] == 'e' && "series"@[0] == 's');
}

/// The settings of a patch, one for each field that it may have.
spec fn setting_list(patch: EventPatchView) -> Seq<Option<SettingView>> {
    seq![
        match patch.start {
            Some(date) => Some(SettingView::Date { key: "start_date"@, date }),
            None => None,
        },
        match patch.end {
            Some(date) => Some(SettingView::Date { key: "end_date"@, date }),
            None => None,
        },
        match patch.deadline {
            Some(date) => Some(SettingView::Date { key: "deadline"@, date }),
            None => None,
        },
        match patch.location {
            Some(Some(text)) => Some(SettingView::Text { key: "address"@, text }),
            Some(None) => Some(SettingView::Text { key: "address"@, text: Seq::empty() }),
            None => None,
        },
        match patch.reminders {
            Some(names) => Some(SettingView::Options { key: "reminder_lead"@, names }),
            None => None,
        },
        match patch.tags {
            Some(names) => Some(SettingView::Options { key: "tag"@, names }),
            None => None,
        },
        match patch.rrule {
            Some(Some(text)) => Some(SettingView::Text { key: "rrule"@, text }),
            Some(None) => Some(SettingView::Text { key: "rrule"@, text: Seq::empty() }),
            None => None,
        },
        match patch.exdates {
            Some(dates) => Some(
                SettingView::Text { key: "exdate"@, text: text::join(dates, "\n"@) },
            ),
            None => None,
        },
        match patch.series {
            Some(id) => Some(SettingView::Objects { key: "series"@, objects: seq![id] }),
            None => None,
        },
        match patch.occurrence {
            Some(date) => Some(SettingView::Date { key: "occurrence"@, date: Some(date) }),
            None => None,
        },
    ]
}

/// The settings that are there, in order.
spec fn settings_there(list: Seq<Option<SettingView>>) -> Seq<SettingView>
    decreases list.len(),
{
    if list.len() == 0 {
        Seq::empty()
    } else {
        match list.last() {
            Some(one) => settings_there(list.drop_last()).push(one),
            None => settings_there(list.drop_last()),
        }
    }
}

proof fn lemma_settings_there(list: Seq<Option<SettingView>>, one: SettingView)
    ensures
        settings_there(list).contains(one) <==> list.contains(Some(one)),
    decreases list.len(),
{
    let all = settings_there(list);
    if list.len() > 0 {
        let front = list.drop_last();
        let before = settings_there(front);
        lemma_settings_there(front, one);
        assert(list[list.len() - 1] == list.last());
        if all.contains(one) {
            let i = choose|i: int| 0 <= i < all.len() && all[i] == one;
            if i < before.len() {
                assert(before[i] == one);
                let j = choose|j: int| 0 <= j < front.len() && front[j] == Some(one);
                assert(list[j] == Some(one));
            }
        }
        if list.contains(Some(one)) {
            let j = choose|j: int| 0 <= j < list.len() && list[j] == Some(one);
            if j < front.len() {
                assert(front[j] == Some(one));
                let i = choose|i: int| 0 <= i < before.len() && before[i] == one;
                assert(all[i] == one);
            } else {
                assert(all[all.len() - 1] == one);
            }
        }
    }
}

#[verifier::spinoff_prover]
proof fn lemma_event_settings(patch: EventPatchView)
    ensures
        event_source::event_settings(patch) == settings_there(setting_list(patch)),
{
    let list = setting_list(patch);
    reveal_with_fuel(settings_there, 12);
    assert(list.drop_last() == list.take(9));
    assert(list.take(9).drop_last() == list.take(8));
    assert(list.take(8).drop_last() == list.take(7));
    assert(list.take(7).drop_last() == list.take(6));
    assert(list.take(6).drop_last() == list.take(5));
    assert(list.take(5).drop_last() == list.take(4));
    assert(list.take(4).drop_last() == list.take(3));
    assert(list.take(3).drop_last() == list.take(2));
    assert(list.take(2).drop_last() == list.take(1));
    assert(list.take(1).drop_last() == list.take(0));
}

/// The keys of these settings, and the key that none of them has.
spec fn setting_key(k: int) -> Text {
    if k == 0 {
        "start_date"@
    } else if k == 1 {
        "end_date"@
    } else if k == 2 {
        "deadline"@
    } else if k == 3 {
        "address"@
    } else if k == 4 {
        "reminder_lead"@
    } else if k == 5 {
        "tag"@
    } else if k == 6 {
        "rrule"@
    } else if k == 7 {
        "exdate"@
    } else if k == 8 {
        "series"@
    } else if k == 9 {
        "occurrence"@
    } else {
        "ical_uid"@
    }
}

proof fn lemma_setting_keys()
    ensures
        forall|i: int, j: int|
            0 <= i < j <= 10 ==> #[trigger] setting_key(i) != #[trigger] setting_key(j),
{
    lemma_event_keys();
}

/// What is stored under the key of a setting is what the setting says, or what was there
/// where there is no such setting.
#[verifier::spinoff_prover]
proof fn lemma_one_setting(p: Seq<Property>, q: Seq<Property>, patch: EventPatchView, k: int)
    requires
        stored_in(p, q, event_source::event_settings(patch)),
        0 <= k <= 10,
    ensures
        k < 10 ==> (setting_list(patch)[k] matches Some(one) ==> holds_setting(q, one)),
        k == 10 || setting_list(patch)[k] is None ==> same_under(p, q, setting_key(k)),
{
    let list = setting_list(patch);
    let settings = event_source::event_settings(patch);
    let key = setting_key(k);
    lemma_setting_keys();
    lemma_event_settings(patch);
    assert forall|j: int| 0 <= j < 10 && (#[trigger] list[j]) is Some implies series::key_of(
        list[j]->0,
    ) == setting_key(j) by {}
    if k < 10 && list[k] is Some {
        let one = list[k]->0;
        lemma_settings_there(list, one);
        assert(list.contains(Some(one)));
        let i = choose|i: int| 0 <= i < settings.len() && settings[i] == one;
        assert(holds_setting(q, settings[i]));
    } else {
        assert forall|i: int| 0 <= i < settings.len() implies series::key_of(
            #[trigger] settings[i],
        ) != key by {
            lemma_settings_there(list, settings[i]);
            assert(settings.contains(settings[i]));
            let j = choose|j: int| 0 <= j < list.len() && list[j] == Some(settings[i]);
            assert(list[j] is Some);
            assert(setting_key(j) != setting_key(k));
        }
    }
}

/// What a patch writes is what is read of the event afterwards: where an object's properties
/// are stored as the patch says, the event that the object then stands for is the event
/// before, changed by the patch: its dates, its location, its tags and its reminders; and a
/// new object is linked to its series and its occurrence.
#[verifier::spinoff_prover]
#[verifier::rlimit(40)]
pub proof fn law_a_stored_patch_is_read_back(
    before: Object,
    after: Object,
    patch: EventPatchView,
    modified: Option<Instant>,
)
    requires
        stored_in(
            before.properties@,
            after.properties@,
            event_source::event_settings(patch),
        ),
        patch.location matches Some(Some(location)) ==> text::trimmed(location).len() > 0,
    ensures
        ({
            let was = event_source::event_of(before, modified);
            let is = event_source::event_of(after, modified);
            let wanted = event_after(was, patch);
            &&& is.start == wanted.start && is.end == wanted.end
            &&& is.deadline == wanted.deadline
            &&& is.location == wanted.location
            &&& is.tags == wanted.tags
            &&& is.reminder_names == wanted.reminder_names
            &&& patch.rrule is None ==> is.rrule == was.rrule
            &&& patch.rrule == Some(None::<Text>) ==> is.rrule is None
            &&& patch.exdates is None ==> is.exdates == was.exdates
            &&& patch.series matches Some(id) ==> is.series == Some(id)
            &&& patch.series is None ==> is.series == was.series
            &&& patch.occurrence matches Some(stored) ==> is.occurrence == model::date_of(stored)
            &&& patch.occurrence is None ==> is.occurrence == was.occurrence
            &&& is.ical_uid == was.ical_uid
        }),
{
    let p = before.properties@;
    let q = after.properties@;
    lemma_one_setting(p, q, patch, 0);
    lemma_one_setting(p, q, patch, 1);
    lemma_one_setting(p, q, patch, 2);
    lemma_one_setting(p, q, patch, 3);
    lemma_one_setting(p, q, patch, 4);
    lemma_one_setting(p, q, patch, 5);
    lemma_one_setting(p, q, patch, 6);
    lemma_one_setting(p, q, patch, 7);
    lemma_one_setting(p, q, patch, 8);
    lemma_one_setting(p, q, patch, 9);
    lemma_one_setting(p, q, patch, 10);
    assert(text::trimmed(Seq::<char>::empty()).len() == 0) by {
        reveal_with_fuel(text::trimmed_start, 2);
        reveal_with_fuel(text::trimmed_end, 2);
    }
}

// --------------------------------------------------------------------- capture

/// A captured thought is planned for what its sender meant: what is stored of the date that
/// was sent is read as that moment, or as that day.
pub proof fn law_a_captured_date_is_read_as_meant(value: Text, config: CalendarConfig)
    requires
        capture::meant(value) is Some,
        representable(capture::meant(value), config.date_only_timezone@),
        writeback::text_kept(capture::meant(value)->0, config.date_only_timezone@),
    ensures
        capture::captured_date(value, config.date_only_timezone@) matches Some(stored) && read_as(
            stored,
            config.date_only_timezone@,
        ) == capture::meant(value),
{
    lemma_stored_is_read(capture::meant(value)->0, config);
}

// ------------------------------------------------------------- tasks as shown

/// The VTODO of a task says what the task holds: its SUMMARY is the name, its STATUS tells
/// whether it is done, its DTSTART and DUE are the dates that it is sent with, and it has a
/// CATEGORIES line for each tag.
#[verifier::spinoff_prover]
pub proof fn law_a_vtodo_says_what_the_task_holds(
    task: Task,
    moments: Seq<ReminderMoment>,
    config: CalendarConfig,
    fallback: Instant,
)
    ensures
        ({
            let part = render::todo_of(task, moments, config, fallback);
            let sent = render::sent_of(task, config);
            &&& ical::only_value(part.once, "SUMMARY"@) == Some(task.name@)
            &&& ical::only_value(part.once, "UID"@) == Some(task.spec_uid())
            &&& ical::only_value(part.once, "STATUS"@) == Some(
                if task.done {
                    "COMPLETED"@
                } else {
                    "NEEDS-ACTION"@
                },
            )
            &&& ical::only_line(part.once, "DTSTART"@) == (match sent.start {
                Some((date, _)) => ical::date_under("DTSTART"@, Some(date)),
                None => None,
            })
            &&& ical::only_line(part.once, "DUE"@) == (match sent.due {
                Some((date, _)) => ical::date_under("DUE"@, Some(date)),
                None => None,
            })
            &&& ical::only_value(part.once, "URL"@) == text::text_of(task.object_url)
            &&& part.many.len() == task.tags@.len()
            &&& forall|i: int|
                0 <= i < task.tags@.len() ==> (#[trigger] part.many[i]).key == "CATEGORIES"@
                    && part.many[i].value == task.tags@[i]@
        }),
{
    lemma_keys_differ();
    reveal_strlit("STATUS");
    reveal_strlit("PERCENT-COMPLETE");
    let modified = render::modified_at(task, fallback);
    let dates = render::sent_of(task, config);
    let (status, percent) = if task.done {
        ("COMPLETED"@, "100"@)
    } else {
        ("NEEDS-ACTION"@, "0"@)
    };
    let uid = task.spec_uid();
    let head = events::head_of(uid, task.name@, modified);
    let a = ical::text_under("STATUS"@, Some(status));
    let b = ical::text_under("PERCENT-COMPLETE"@, Some(percent));
    let c = ical::date_under("DTSTART"@, render::date_of(dates.start));
    let d = ical::date_under("DUE"@, render::date_of(dates.due));
    let e = ical::text_under("URL"@, text::text_of(task.object_url));
    let f = ical::text_under("DESCRIPTION"@, render::description_of(task, config));
    let stated = ical::with_line(head, a);
    let measured = ical::with_line(stated, b);
    let started = ical::with_line(measured, c);
    let due = ical::with_line(started, d);
    let linked = ical::with_line(due, e);
    let once = ical::with_line(linked, f);
    assert forall|key: Text|
        ical::only_line(once, key) == (match #[trigger] ical::only_line(head, key) {
            Some(found) => Some(found),
            None => if key == "STATUS"@ {
                a
            } else if key == "PERCENT-COMPLETE"@ {
                b
            } else if key == "DTSTART"@ && c is Some {
                c
            } else if key == "DUE"@ && d is Some {
                d
            } else if key == "URL"@ && e is Some {
                e
            } else if key == "DESCRIPTION"@ {
                f
            } else {
                None
            },
        }) by {
        lemma_only_line_with(head, a, key);
        lemma_only_line_with(stated, b, key);
        lemma_only_line_with(measured, c, key);
        lemma_only_line_with(started, d, key);
        lemma_only_line_with(due, e, key);
        lemma_only_line_with(linked, f, key);
    }
    lemma_head_lines(uid, task.name@, modified, "SUMMARY"@);
    lemma_head_lines(uid, task.name@, modified, "UID"@);
    lemma_head_lines(uid, task.name@, modified, "STATUS"@);
    lemma_head_lines(uid, task.name@, modified, "DTSTART"@);
    lemma_head_lines(uid, task.name@, modified, "DUE"@);
    lemma_head_lines(uid, task.name@, modified, "URL"@);
    let part = render::todo_of(task, moments, config, fallback);
    assert(part.once == once);
}

/// A task with a plan and a deadline of one kind is shown from its plan to its deadline
/// where the plan is first, on their one date where they are the same, and at its plan
/// alone otherwise, with the deadline in words. A single date is the one it is shown at.
pub proof fn law_how_the_dates_of_a_task_are_shown(
    plan: Option<When>,
    deadline: Option<When>,
    zone: Text,
)
    requires
        match (plan, deadline) {
            (Some(When::Day(_)), Some(When::At(_, _))) => false,
            (Some(When::At(_, _)), Some(When::Day(_))) => false,
            _ => true,
        },
    ensures
        ({
            let sent = render::sent(plan, deadline, zone);
            let start = shown_date(sent.start, zone);
            let due = shown_date(sent.due, zone);
            match (plan, deadline) {
                (Some(a), Some(b)) => if before(a, b) {
                    start == Some(a) && due == Some(b) && !sent.described
                } else if a == b {
                    start is None && due == Some(a) && !sent.described
                } else {
                    start is None && due == Some(a) && sent.described
                },
                (Some(a), None) => start is None && due == Some(a) && !sent.described,
                (None, Some(b)) => start is None && due == Some(b) && !sent.described,
                (None, None) => start is None && due is None && !sent.described,
            }
        }),
{
}

/// A whole day beside a moment is shown as its first second where it is the plan, and as
/// its last where it is the deadline; the two are moments then.
pub proof fn law_a_day_beside_a_moment_is_shown_as_a_moment(
    day: int,
    second: int,
    nano: int,
    zone: Text,
)
    ensures
        ({
            let last = time::first_moment(zone, day * 86_400 + 86_399);
            let sent = render::sent(Some(When::At(second, nano)), Some(When::Day(day)), zone);
            last matches Some(last) && time::day_of(time::local_at(zone, second)) < day
                ==> shown_date(sent.start, zone) == Some(When::At(second, nano)) && shown_date(
                sent.due,
                zone,
            ) == Some(When::At(time::first_moment(zone, day * 86_400 + 86_399)->0, 0))
        }),
        ({
            let first = time::first_moment(zone, day * 86_400);
            let sent = render::sent(Some(When::Day(day)), Some(When::At(second, nano)), zone);
            (first matches Some(at) && at * 1_000_000_000 < second * 1_000_000_000 + nano)
                ==> shown_date(sent.start, zone) == Some(
                When::At(time::first_moment(zone, day * 86_400)->0, 0),
            ) && shown_date(sent.due, zone) == Some(When::At(second, nano))
        }),
{
}

} // verus!
