//! What a client sends back as it was served changes nothing.
use vstd::prelude::*;

use crate::config::{CalendarConfig, RemindersConfig};
use crate::event_changes;
use crate::event_changes::{
    EventWriteError, IncomingEventView, IncomingSeries, Planning, SeriesPlanView,
};
use crate::events;
use crate::events::{Event, EventView};
use crate::ical;
use crate::ical::{LineView, PartView, WireView};
use crate::model;
use crate::model::{DateView, Task};
use crate::nesting;
use crate::order;
use crate::reminder::ReminderMoment;
use crate::render;
use crate::text;
use crate::text::Text;
use crate::time;
use crate::time::Instant;
use crate::writeback;
use crate::writeback::{Incoming, Wire, WriteError};

verus! {

/// The place of a key among the lines of a task or an event.
spec fn rank(key: Text) -> int {
    if key == "UID"@ {
        0
    } else if key == "SUMMARY"@ {
        1
    } else if key == "DTSTAMP"@ {
        2
    } else if key == "SEQUENCE"@ {
        3
    } else if key == "STATUS"@ {
        4
    } else if key == "PERCENT-COMPLETE"@ {
        5
    } else if key == "DTSTART"@ {
        6
    } else if key == "DTEND"@ {
        7
    } else if key == "DUE"@ {
        8
    } else if key == "LOCATION"@ {
        9
    } else if key == "URL"@ {
        10
    } else if key == "DESCRIPTION"@ {
        11
    } else if key == "RRULE"@ {
        12
    } else if key == "RECURRENCE-ID"@ {
        13
    } else {
        14
    }
}

proof fn lemma_ranks()
    ensures
        rank("UID"@) == 0,
        rank("SUMMARY"@) == 1,
        rank("DTSTAMP"@) == 2,
        rank("SEQUENCE"@) == 3,
        rank("STATUS"@) == 4,
        rank("PERCENT-COMPLETE"@) == 5,
        rank("DTSTART"@) == 6,
        rank("DTEND"@) == 7,
        rank("DUE"@) == 8,
        rank("LOCATION"@) == 9,
        rank("URL"@) == 10,
        rank("DESCRIPTION"@) == 11,
        rank("RRULE"@) == 12,
        rank("COMPLETED"@) == 14,
        rank("RDATE"@) == 14,
        rank("RECURRENCE-ID"@) == 13,
{
    reveal_strlit("UID");
    reveal_strlit("DUE");
    reveal_strlit("URL");
    assert("UID"@.len() == 3 && "DUE"@.len() == 3 && "URL"@.len() == 3);
    assert("UID"@[0] == 'U' && "DUE"@[0] == 'D' && "URL"@[1] == 'R' && "UID"@[1] == 'I');
    reveal_strlit("DTEND");
    reveal_strlit("RRULE");
    reveal_strlit("RDATE");
    assert("DTEND"@.len() == 5 && "RRULE"@.len() == 5 && "RDATE"@.len() == 5);
    assert("DTEND"@[0] == 'D' && "RRULE"@[1] == 'R' && "RDATE"@[1] == 'D' && "DTEND"@[1] == 'T');
    reveal_strlit("STATUS");
    assert("STATUS"@.len() == 6);
    reveal_strlit("SUMMARY");
    reveal_strlit("DTSTAMP");
    reveal_strlit("DTSTART");
    assert("SUMMARY"@.len() == 7 && "DTSTAMP"@.len() == 7 && "DTSTART"@.len() == 7);
    assert("SUMMARY"@[0] == 'S' && "DTSTAMP"@[0] == 'D' && "DTSTART"@[0] == 'D');
    assert("DTSTAMP"@[5] == 'M' && "DTSTART"@[5] == 'R');
    reveal_strlit("SEQUENCE");
    reveal_strlit("LOCATION");
    assert("SEQUENCE"@.len() == 8 && "LOCATION"@.len() == 8);
    assert("SEQUENCE"@[0] == 'S' && "LOCATION"@[0] == 'L');
    reveal_strlit("COMPLETED");
    reveal_strlit("DESCRIPTION");
    reveal_strlit("RECURRENCE-ID");
    reveal_strlit("PERCENT-COMPLETE");
    assert("COMPLETED"@.len() == 9 && "DESCRIPTION"@.len() == 11);
    assert("RECURRENCE-ID"@.len() == 13 && "PERCENT-COMPLETE"@.len() == 16);
}

/// Whether lines are plain and stand in the order of their keys, all below a place.
spec fn ordered(lines: Seq<LineView>, end: int) -> bool {
    &&& forall|i: int|
        0 <= i < lines.len() ==> ical::plain_line(#[trigger] lines[i]) && rank(lines[i].key) < end
    &&& forall|i: int, j: int|
        0 <= i < j < lines.len() ==> rank((#[trigger] lines[i]).key) < rank(
            (#[trigger] lines[j]).key,
        )
}

/// A line behind those before its place is the only one under its key, and the others are
/// found as before.
proof fn lemma_with_line(lines: Seq<LineView>, key: Text, line: Option<LineView>, end: int)
    requires
        ordered(lines, end),
        end <= rank(key),
        line matches Some(line) ==> ical::plain_line(line) && line.key == key,
    ensures
        ordered(ical::with_line(lines, line), rank(key) + 1),
        forall|k: Text| #[trigger]
            ical::only_line(ical::with_line(lines, line), k) == if k == key {
                line
            } else {
                ical::only_line(lines, k)
            },
{
    ical::lemma_no_line(lines, key);
    if let Some(one) = line {
        assert forall|k: Text| #[trigger]
            ical::only_line(lines.push(one), k) == if k == key {
                line
            } else {
                ical::only_line(lines, k)
            } by {
            ical::lemma_only_push(lines, one, k);
        }
    }
}

/// Days and moments stay on their lines.
proof fn lemma_date_plain(key: Text, date: WireView)
    requires
        ical::single_key(key),
        date is Date || date is Utc || (date matches WireView::Zoned(_, tzid) && ical::bare_zone(
            tzid,
        )),
    ensures
        ical::plain_line(ical::date_under(key, Some(date))->0),
{
    ical::lemma_date_figures(date);
    ical::lemma_figures(ical::date_text(date).0);
}

/// A stamp stays on its line.
proof fn lemma_stamp_unbroken(second: int)
    ensures
        ical::unbroken(events::stamp_text(second)),
{
    ical::lemma_compact_figures(0, second);
    ical::lemma_figures(events::stamp_text(second));
}

/// The lines at the head of a component.
proof fn lemma_head(uid: Text, name: Text, modified: int)
    ensures
        ordered(events::head_of(uid, name, modified), 4),
        ical::only_line(events::head_of(uid, name, modified), "SUMMARY"@) == ical::text_under(
            "SUMMARY"@,
            Some(name),
        ),
        forall|k: Text|
            rank(k) >= 4 ==> #[trigger] ical::only_line(
                events::head_of(uid, name, modified),
                k,
            ) is None,
{
    let head = events::head_of(uid, name, modified);
    lemma_ranks();
    lemma_stamp_unbroken(modified);
    ical::lemma_decimal_figures(events::revision(modified) as nat);
    ical::lemma_figures(text::decimal(events::revision(modified) as nat));
    assert(head.len() == 4);
    assert(head[0].key == "UID"@ && head[1].key == "SUMMARY"@);
    assert(head[2].key == "DTSTAMP"@ && head[3].key == "SEQUENCE"@);
    assert(ical::plain_line(head[0]) && ical::plain_line(head[1]));
    assert(ical::plain_line(head[2]) && ical::plain_line(head[3]));
    ical::lemma_only_line(head, 1);
    assert forall|k: Text| rank(k) >= 4 implies #[trigger] ical::only_line(head, k) is None by {
        ical::lemma_no_line(head, k);
    }
}

// ------------------------------------------------------------------- tasks

/// Whether a task is served in full: its texts stay on their lines, its name and tags have
/// no white space around them, no tag is a comma list or there twice, and its dates have
/// years of four digits and no fraction of a second.
pub open spec fn task_in_full(task: Task, config: CalendarConfig) -> bool {
    let tags = text::texts(task.tags@);
    &&& ical::unbroken(config.name@)
    &&& ical::unbroken(config.timezone@)
    &&& text::trimmed(task.name@) == task.name@
    &&& forall|i: int|
        0 <= i < tags.len() ==> ical::one_category(#[trigger] tags[i]) && ical::unbroken(tags[i])
    &&& tags.no_duplicates()
    &&& task.object_url matches Some(url) ==> ical::unbroken(url@)
    &&& render::date_of(render::sent_of(task, config).start) matches Some(date) ==> ical::in_full(
        date,
    )
    &&& render::date_of(render::sent_of(task, config).due) matches Some(date) ==> ical::in_full(
        date,
    )
}

proof fn lemma_dates_of_tasks(task: Task, config: CalendarConfig)
    ensures
        render::date_of(render::sent_of(task, config).start) matches Some(date) ==> date is Date
            || date is Utc,
        render::date_of(render::sent_of(task, config).due) matches Some(date) ==> date is Date
            || date is Utc,
{
}

proof fn lemma_task_alarms(name: Text, owner: Text, moments: Seq<ReminderMoment>, modified: int)
    ensures
        ({
            let all = render::alarms_at(name, owner, moments, modified);
            forall|i: int| 0 <= i < all.len() ==> ical::plain_lines(#[trigger] all[i])
        }),
    decreases moments.len(),
{
    if moments.len() > 0 {
        lemma_task_alarms(name, owner, moments.drop_last(), modified);
        reveal_strlit("DISPLAY");
        let at = moments.last().trigger_at as int;
        lemma_stamp_unbroken(at / 1_000_000_000);
        lemma_stamp_unbroken(modified);
        let last = render::alarm_at(name, owner, moments.len() - 1, at / 1_000_000_000, modified);
        ical::lemma_plain_alarm(last);
        let before = render::alarms_at(name, owner, moments.drop_last(), modified);
        let all = render::alarms_at(name, owner, moments, modified);
        assert forall|i: int| 0 <= i < all.len() implies ical::plain_lines(#[trigger] all[i]) by {
            if i < before.len() {
                assert(all[i] == before[i]);
            }
        }
    }
}

/// A task that is served in full is written in plain lines, and these are found under
/// their keys.
#[verifier::rlimit(40)]
#[verifier::spinoff_prover]
proof fn lemma_task_lines(
    task: Task,
    moments: Seq<ReminderMoment>,
    config: CalendarConfig,
    fallback: Instant,
)
    requires
        task_in_full(task, config),
    ensures
        ({
            let todo = render::todo_of(task, moments, config, fallback);
            let dates = render::sent_of(task, config);
            let status = if task.done {
                "COMPLETED"@
            } else {
                "NEEDS-ACTION"@
            };
            &&& ical::plain_part(todo)
            &&& ical::only_value(todo.once, "SUMMARY"@) == Some(task.name@)
            &&& ical::only_value(todo.once, "STATUS"@) == Some(status)
            &&& !task.done ==> ical::only_value(todo.once, "PERCENT-COMPLETE"@) == Some("0"@)
            &&& ical::only_line(todo.once, "COMPLETED"@) is None
            &&& ical::only_line(todo.once, "DTSTART"@) == ical::date_under(
                "DTSTART"@,
                render::date_of(dates.start),
            )
            &&& ical::only_line(todo.once, "DUE"@) == ical::date_under(
                "DUE"@,
                render::date_of(dates.due),
            )
        }),
{
    let todo = render::todo_of(task, moments, config, fallback);
    let dates = render::sent_of(task, config);
    let modified = render::modified_at(task, fallback);
    let (status, percent) = if task.done {
        ("COMPLETED"@, "100"@)
    } else {
        ("NEEDS-ACTION"@, "0"@)
    };
    reveal_strlit("COMPLETED");
    reveal_strlit("NEEDS-ACTION");
    reveal_strlit("100");
    reveal_strlit("0");
    lemma_ranks();
    lemma_dates_of_tasks(task, config);
    lemma_head(task.spec_uid(), task.name@, modified);
    let head = events::head_of(task.spec_uid(), task.name@, modified);
    let line = ical::text_under("STATUS"@, Some(status));
    lemma_with_line(head, "STATUS"@, line, 4);
    let stated = ical::with_line(head, line);
    let line = ical::text_under("PERCENT-COMPLETE"@, Some(percent));
    lemma_with_line(stated, "PERCENT-COMPLETE"@, line, 5);
    let measured = ical::with_line(stated, line);
    let start = render::date_of(dates.start);
    if let Some(date) = start {
        lemma_date_plain("DTSTART"@, date);
    }
    let line = ical::date_under("DTSTART"@, start);
    lemma_with_line(measured, "DTSTART"@, line, 6);
    let started = ical::with_line(measured, line);
    let end = render::date_of(dates.due);
    if let Some(date) = end {
        lemma_date_plain("DUE"@, date);
    }
    let line = ical::date_under("DUE"@, end);
    lemma_with_line(started, "DUE"@, line, 7);
    let due = ical::with_line(started, line);
    let line = ical::text_under("URL"@, text::text_of(task.object_url));
    lemma_with_line(due, "URL"@, line, 9);
    let linked = ical::with_line(due, line);
    let line = ical::text_under("DESCRIPTION"@, render::description_of(task, config));
    lemma_with_line(linked, "DESCRIPTION"@, line, 11);
    assert(todo.once == ical::with_line(linked, line));
    lemma_task_alarms(task.name@, task.spec_uid(), moments, modified);
    assert forall|i: int| 0 <= i < todo.many.len() implies ical::plain_several(
        #[trigger] todo.many[i],
    ) by {
        assert(ical::unbroken(text::texts(task.tags@)[i]));
    }
}

/// A client that sends a task back as it was served changes nothing: what `parse` reads of
/// the text of `render_one` makes an empty patch. The task is one that is served in full.
#[verifier::rlimit(60)]
#[verifier::spinoff_prover]
pub proof fn law_a_task_comes_back_unchanged(
    task: Task,
    sent: Wire,
    body: Text,
    read: Result<Incoming, WriteError>,
    config: CalendarConfig,
    reminders: RemindersConfig,
    fallback: Instant,
)
    requires
        task_in_full(task, config),
        render::sent_view(sent.start) == render::sent_of(task, config).start,
        render::sent_view(sent.due) == render::sent_of(task, config).due,
        render::apart(sent),
        render::rendered(seq![task], body, config, reminders, fallback),
        writeback::single_todo(ical::todos_in(ical::terminated_text(body)), read),
    ensures
        read matches Ok(incoming) && writeback::update_of(task, sent, incoming@, config)
            == writeback::no_change(),
{
    let moments = choose|moments: Seq<Seq<ReminderMoment>>|
        render::rendered_with(seq![task], moments, body, config, reminders, fallback);
    let todos = render::todos_of(seq![task], moments, config, fallback);
    let todo = render::todo_of(task, moments[0], config, fallback);
    assert(todos == seq![todo]);
    lemma_task_lines(task, moments[0], config, fallback);
    assert(ical::plain_document(config.name@, config.timezone@, todos));
    let lines = ical::todos_in(body)->Ok_0[0];
    let incoming = read->Ok_0;
    assert(ical::only_line(lines, "SUMMARY"@) == ical::only_line(todo.once, "SUMMARY"@));
    assert(ical::only_line(lines, "STATUS"@) == ical::only_line(todo.once, "STATUS"@));
    assert(ical::only_line(lines, "PERCENT-COMPLETE"@) == ical::only_line(
        todo.once,
        "PERCENT-COMPLETE"@,
    ));
    assert(ical::only_line(lines, "COMPLETED"@) == ical::only_line(todo.once, "COMPLETED"@));
    assert(ical::only_line(lines, "DTSTART"@) == ical::only_line(todo.once, "DTSTART"@));
    assert(ical::only_line(lines, "DUE"@) == ical::only_line(todo.once, "DUE"@));
    assert(incoming@.done == task.done) by {
        reveal_strlit("COMPLETED");
        reveal_strlit("CANCELLED");
        reveal_strlit("NEEDS-ACTION");
        reveal_strlit("0");
        assert("NEEDS-ACTION"@.len() == 12);
    }
    ical::lemma_categories_are_several(lines);
    ical::lemma_categories_kept(text::texts(task.tags@));
    assert(ical::several(lines) == todo.many);
    assert(incoming@.start == writeback::sent_date(sent.start));
    assert(incoming@.due == writeback::sent_date(sent.due));
    writeback::law_unchanged_changes_nothing(task, sent, incoming@, config);
}

// ------------------------------------------------------------------ alarms

/// Digits are read as the number that they were written for.
proof fn lemma_digits_read(n: nat)
    ensures
        text::digits_value(text::decimal(n)) == Some(n),
        event_changes::trigger_after(Some((0, Seq::empty())), text::decimal(n), true) == Some(
            (0int, text::decimal(n)),
        ),
    decreases n,
{
    let all = text::decimal(n);
    let start = Some((0int, Seq::<char>::empty()));
    if n >= 10 {
        let front = text::decimal(n / 10);
        lemma_digits_read(n / 10);
        assert(all.drop_last() == front);
    } else {
        assert(all.drop_last() == Seq::<char>::empty());
        assert(event_changes::trigger_after(start, all.drop_last(), true) == start);
        assert(Seq::<char>::empty().push(all.last()) == all);
    }
}

/// What an alarm some minutes before the start is triggered by.
spec fn trigger_of(minutes: nat) -> Text {
    "-PT"@ + text::decimal(minutes) + "M"@
}

proof fn lemma_trigger_read(minutes: nat)
    requires
        minutes * 60 <= time::LONGEST,
    ensures
        event_changes::before_seconds(trigger_of(minutes)) == Some(minutes as int * 60),
        ical::unbroken(trigger_of(minutes)),
{
    let digits = text::decimal(minutes);
    let all = trigger_of(minutes);
    reveal_strlit("-PT");
    reveal_strlit("-");
    reveal_strlit("P");
    reveal_strlit("M");
    lemma_digits_read(minutes);
    ical::lemma_decimal_figures(minutes);
    assert(ical::figures(all)) by {
        assert forall|i: int| 0 <= i < all.len() implies text::alphanumeric(#[trigger] all[i])
            || all[i] == '+' || all[i] == '-' by {
            if 3 <= i < 3 + digits.len() {
                assert(all[i] == digits[i - 3]);
            }
        }
    }
    ical::lemma_figures(all);
    assert(all[0] == '-' && all[1] == 'P' && all[2] == 'T' && all.last() == 'M');
    assert(all.subrange(0, 1) == "-"@);
    let unsigned = all.subrange(1, all.len() as int);
    assert(unsigned.subrange(0, 1) == "P"@);
    let duration = unsigned.subrange(1, unsigned.len() as int);
    assert(duration == seq!['T'] + digits + "M"@);
    text::lemma_index_of(duration, 'T', 0);
    let clock = duration.skip(1);
    assert(clock == digits.push('M'));
    assert(clock.drop_last() == digits);
    assert(duration.take(0) == Seq::<char>::empty());
}

/// The lines of triggers.
spec fn trigger_lines(leads: Seq<(int, int)>) -> Seq<LineView> {
    Seq::new(
        leads.len(),
        |i: int|
            LineView {
                part: "VALARM"@,
                ..ical::line_of("TRIGGER"@, trigger_of((leads[i].0 / 60) as nat), Seq::empty())
            },
    )
}

/// Whether no two leads are the same number of whole minutes.
pub open spec fn distinct_minutes(leads: Seq<(int, int)>) -> bool {
    &&& forall|i: int| 0 <= i < leads.len() ==> 0 <= (#[trigger] leads[i]).0 <= time::LONGEST
    &&& forall|i: int, j: int|
        0 <= i < j < leads.len() ==> (#[trigger] leads[i]).0 / 60 != (#[trigger] leads[j]).0 / 60
}

/// The seconds of the whole minutes of leads.
spec fn told_seconds(leads: Seq<(int, int)>) -> Seq<int> {
    Seq::new(leads.len(), |i: int| leads[i].0 / 60 * 60)
}

/// What a lead has beyond whole minutes changes nothing of its name.
proof fn lemma_told_names(leads: Seq<(int, int)>)
    ensures
        event_changes::names_of_leads(told_seconds(leads)) == event_changes::names_of_leads(
            event_changes::seconds_of(leads),
        ),
{
    let told = event_changes::names_of_leads(told_seconds(leads));
    let held = event_changes::names_of_leads(event_changes::seconds_of(leads));
    assert forall|i: int| 0 <= i < leads.len() implies #[trigger] told[i] == held[i] by {
        let seconds = leads[i].0;
        assert(seconds / 60 * 60 / 60 == seconds / 60);
    }
    assert(told =~= held);
}

proof fn lemma_leads_read(leads: Seq<(int, int)>)
    requires
        distinct_minutes(leads),
    ensures
        event_changes::numbers(event_changes::triggers(trigger_lines(leads)))
            == told_seconds(leads),
    decreases leads.len(),
{
    let lines = trigger_lines(leads);
    if leads.len() > 0 {
        let front = leads.drop_last();
        assert(distinct_minutes(front)) by {
            assert forall|i: int| 0 <= i < front.len() implies 0 <= (#[trigger] front[i]).0
                <= time::LONGEST by {
                assert(front[i] == leads[i]);
            }
            assert forall|i: int, j: int| 0 <= i < j < front.len() implies (
            #[trigger] front[i]).0 / 60 != (#[trigger] front[j]).0 / 60 by {
                assert(leads[i].0 / 60 != leads[j].0 / 60);
            }
        }
        lemma_leads_read(front);
        assert(lines.drop_last() == trigger_lines(front));
        let last = leads[leads.len() - 1];
        let told = last.0 / 60 * 60;
        lemma_trigger_read((last.0 / 60) as nat);
        let before = event_changes::triggers(trigger_lines(front));
        assert(event_changes::triggers(lines) == before.push((told, ())));
        assert(event_changes::numbers(before.push((told, ()))) == event_changes::numbers(
            before,
        ).push(told));
        assert(told_seconds(leads) == told_seconds(front).push(told));
    } else {
        assert(event_changes::triggers(lines) == Seq::<(int, ())>::empty());
    }
}

/// Triggers are told by the lines under their key.
proof fn lemma_triggers_under(lines: Seq<LineView>)
    ensures
        event_changes::triggers(lines) == event_changes::triggers(
            ical::under(lines, "TRIGGER"@),
        ),
    decreases lines.len(),
{
    if lines.len() > 0 {
        lemma_triggers_under(lines.drop_last());
        let front = ical::under(lines.drop_last(), "TRIGGER"@);
        assert(front.push(lines.last()).drop_last() == front);
    }
}

/// Triggers are told by the lines of parts.
proof fn lemma_triggers_aside(own: Seq<LineView>, inner: Seq<LineView>)
    requires
        forall|j: int| 0 <= j < own.len() ==> (#[trigger] own[j]).part.len() == 0,
    ensures
        event_changes::triggers(own + inner) == event_changes::triggers(inner),
    decreases own.len() + inner.len(),
{
    let all = own + inner;
    if inner.len() > 0 {
        assert(all.drop_last() == own + inner.drop_last());
        lemma_triggers_aside(own, inner.drop_last());
    } else if own.len() > 0 {
        let front = own.drop_last();
        assert forall|j: int| 0 <= j < front.len() implies (#[trigger] front[j]).part.len()
            == 0 by {
            assert(front[j] == own[j]);
        }
        assert(own[own.len() - 1].part.len() == 0);
        reveal_strlit("VALARM");
        assert(all.drop_last() == front + inner);
        lemma_triggers_aside(front, inner);
    }
}

/// One more number adds its name.
proof fn lemma_insert_adds_a_name(s: Seq<(int, ())>, key: int)
    requires
        !order::has_key(s, key),
    ensures
        event_changes::names_of_leads(
            event_changes::numbers(order::insert_keyed(s, key, ())),
        ).to_multiset() == event_changes::names_of_leads(
            event_changes::numbers(s),
        ).to_multiset().insert(event_changes::name_of_lead(key)),
    decreases s.len(),
{
    broadcast use vstd::seq_lib::group_to_multiset_ensures;

    let names = event_changes::names_of_leads(event_changes::numbers(s));
    let name = event_changes::name_of_lead(key);
    let r = order::insert_keyed(s, key, ());
    let all = event_changes::names_of_leads(event_changes::numbers(r));
    if s.len() == 0 || s.last().0 < key {
        assert(all == names.push(name));
    } else {
        assert(s[s.len() - 1].0 != key);
        let front = s.drop_last();
        assert(!order::has_key(front, key)) by {
            if order::has_key(front, key) {
                let i = choose|i: int| 0 <= i < front.len() && (#[trigger] front[i]).0 == key;
                assert(s[i].0 == key);
            }
        }
        lemma_insert_adds_a_name(front, key);
        let last = event_changes::name_of_lead(s.last().0);
        let before = event_changes::names_of_leads(event_changes::numbers(front));
        let inner = event_changes::names_of_leads(
            event_changes::numbers(order::insert_keyed(front, key, ())),
        );
        assert(names == before.push(last));
        assert(all == inner.push(last));
        assert(before.to_multiset().insert(name).insert(last) == before.to_multiset().insert(
            last,
        ).insert(name));
    }
}

/// Sorting numbers that are all different keeps their names.
proof fn lemma_sorting_keeps_names(s: Seq<(int, ())>)
    requires
        forall|i: int, j: int|
            0 <= i < j < s.len() ==> (#[trigger] s[i]).0 != (#[trigger] s[j]).0,
    ensures
        event_changes::names_of_leads(
            event_changes::numbers(order::sorted_keyed(s)),
        ).to_multiset() == event_changes::names_of_leads(event_changes::numbers(s)).to_multiset(),
    decreases s.len(),
{
    broadcast use vstd::seq_lib::group_to_multiset_ensures;

    if s.len() > 0 {
        let front = s.drop_last();
        assert forall|i: int, j: int| 0 <= i < j < front.len() implies (#[trigger] front[i]).0
            != (#[trigger] front[j]).0 by {
            assert(s[i].0 != s[j].0);
        }
        lemma_sorting_keeps_names(front);
        order::law_sorted_keyed(front);
        let last = s[s.len() - 1];
        assert(!order::has_key(order::sorted_keyed(front), last.0)) by {
            if order::has_key(front, last.0) {
                let i = choose|i: int| 0 <= i < front.len() && (#[trigger] front[i]).0 == last.0;
                assert(s[i].0 != last.0);
            }
        }
        assert(last.1 == ());
        lemma_insert_adds_a_name(order::sorted_keyed(front), last.0);
        assert(event_changes::names_of_leads(event_changes::numbers(s))
            == event_changes::names_of_leads(event_changes::numbers(front)).push(
            event_changes::name_of_lead(last.0),
        ));
    }
}

// ------------------------------------------------------------------ events

/// Whether the dates of an event are served in full: their years have four digits, they
/// have no fraction of a second, and the clock of the zone that they are told in shows
/// them for the first time.
pub open spec fn dates_in_full(
    event: EventView,
    zone: Option<Text>,
    config: CalendarConfig,
) -> bool {
    let tz = config.timezone@;
    let days = config.date_only_timezone@;
    &&& events::event_dates(event, days, zone) matches Some((start, end))
    &&& ical::in_full(start)
    &&& end matches Some(end) ==> ical::in_full(end)
    &&& events::event_dates(event, days, None) matches Some((first, last))
    &&& ical::moment_in(Some(start), tz) == ical::moment_in(Some(first), tz)
    &&& ical::moment_in(end, tz) == ical::moment_in(last, tz)
}

/// Whether an event is served in full: its texts stay on their lines, its name, place and
/// tags have no white space around them, no tag is a comma list or there twice, no two of
/// its leads are the same number of whole minutes, and its dates are served in full.
pub open spec fn event_in_full(
    event: EventView,
    zone: Option<Text>,
    config: CalendarConfig,
) -> bool {
    &&& text::trimmed(event.name) == event.name
    &&& event.location matches Some(place) ==> place.len() > 0 && text::trimmed(place) == place
    &&& forall|i: int|
        0 <= i < event.tags.len() ==> ical::one_category(#[trigger] event.tags[i])
            && ical::unbroken(event.tags[i])
    &&& event.tags.no_duplicates()
    &&& event.object_url matches Some(url) ==> ical::unbroken(url)
    &&& zone matches Some(name) ==> ical::bare_zone(name)
    &&& distinct_minutes(events::leads_of(event.reminder_names))
    &&& dates_in_full(event, zone, config)
}

/// What a date of a series is told as.
pub open spec fn told(date: DateView, zone: Option<Text>, config: CalendarConfig) -> WireView {
    events::wired(model::classified_date(date, config.date_only_timezone@), zone)
}

/// Whether a date of a series is served in full, and what is stored of it is its moment.
pub open spec fn date_in_full(date: DateView, zone: Option<Text>, config: CalendarConfig) -> bool {
    &&& ical::in_full(told(date, zone, config))
    &&& date.nano == 0
    &&& writeback::in_four_digit_years(date.second)
    &&& event_changes::stored_second(told(date, zone, config), config) == Some(date.second)
}

/// The zone that the dates of a series are told in; those of a plain event are in UTC.
pub open spec fn zone_of(master: EventView, config: CalendarConfig) -> Option<Text> {
    if master.rrule is Some {
        Some(config.timezone@)
    } else {
        None
    }
}

pub open spec fn replacement_in_full(
    event: EventView,
    zone: Option<Text>,
    config: CalendarConfig,
) -> bool {
    &&& event_in_full(event, zone, config)
    &&& event.occurrence matches Some(date) && date_in_full(date, zone, config)
}

/// Whether a series is served in full: its master, the dates that are left out and the
/// objects that replace occurrences are, no two of these replace the same occurrence, and
/// the rule is one line without white space around it. A plain event has none of these.
pub open spec fn series_in_full(
    master: EventView,
    replacements: Seq<Event>,
    config: CalendarConfig,
) -> bool {
    let zone = zone_of(master, config);
    &&& ical::unbroken(config.name@)
    &&& ical::unbroken(config.timezone@)
    &&& event_in_full(master, zone, config)
    &&& master.rrule matches Some(rule) ==> rule.len() > 0 && text::trimmed(rule) == rule
        && ical::unbroken(rule)
    &&& master.rrule is None ==> master.exdates.len() == 0 && replacements.len() == 0
    &&& forall|i: int|
        0 <= i < master.exdates.len() ==> date_in_full(#[trigger] master.exdates[i], zone, config)
    &&& forall|i: int|
        0 <= i < replacements.len() ==> replacement_in_full(
            (#[trigger] replacements[i])@,
            zone,
            config,
        )
    &&& forall|i: int, j: int|
        0 <= i < j < replacements.len() ==> (#[trigger] replacements[i])@.object_id != (
        #[trigger] replacements[j])@.object_id && replacements[i]@.occurrence->0.second
            != replacements[j]@.occurrence->0.second
}

proof fn lemma_event_alarms(name: Text, owner: Text, leads: Seq<(int, int)>, modified: int)
    requires
        distinct_minutes(leads),
    ensures
        ({
            let all = events::alarms_of(name, owner, leads, modified);
            &&& forall|i: int|
                0 <= i < all.len() ==> ical::plain_lines(#[trigger] all[i]) && ical::only_line(
                    all[i],
                    "TRIGGER"@,
                ) is Some
            &&& ical::of_alarms(all, "TRIGGER"@) == trigger_lines(leads)
        }),
{
    let all = events::alarms_of(name, owner, leads, modified);
    reveal_strlit("DISPLAY");
    lemma_stamp_unbroken(modified);
    assert forall|i: int| 0 <= i < all.len() implies ical::plain_lines(#[trigger] all[i])
        && ical::only_line(all[i], "TRIGGER"@) == Some(
        ical::line_of("TRIGGER"@, trigger_of((leads[i].0 / 60) as nat), Seq::empty()),
    ) by {
        lemma_trigger_read((leads[i].0 / 60) as nat);
        ical::lemma_plain_alarm(all[i]);
    }
}

/// An event that is served in full is written in plain lines, and these are found under
/// their keys.
#[verifier::rlimit(40)]
#[verifier::spinoff_prover]
proof fn lemma_event_lines(
    event: EventView,
    uid: Text,
    zone: Option<Text>,
    config: CalendarConfig,
    fallback: Instant,
)
    requires
        event_in_full(event, zone, config),
    ensures
        ({
            let days = config.date_only_timezone@;
            let (start, end) = events::event_dates(event, days, zone)->0;
            let part = events::vevent_of(event, uid, days, fallback, zone)->0;
            let key = "TRIGGER"@;
            &&& events::vevent_of(event, uid, days, fallback, zone) is Some
            &&& ordered(part.once, 12)
            &&& ical::only_value(part.once, "SUMMARY"@) == Some(event.name)
            &&& ical::only_value(part.once, "LOCATION"@) == event.location
            &&& ical::only_line(part.once, "DTSTART"@) == ical::date_under(
                "DTSTART"@,
                Some(start),
            )
            &&& ical::only_line(part.once, "DTEND"@) == ical::date_under("DTEND"@, end)
            &&& forall|k: Text|
                rank(k) >= 12 ==> #[trigger] ical::only_line(part.once, k) is None
            &&& part.many == ical::category_lines(event.tags)
            &&& forall|j: int|
                0 <= j < part.alarms.len() ==> ical::plain_lines(#[trigger] part.alarms[j])
                    && ical::only_line(part.alarms[j], key) is Some
            &&& ical::of_alarms(part.alarms, key) == trigger_lines(
                events::leads_of(event.reminder_names),
            )
        }),
{
    let days = config.date_only_timezone@;
    let (start, end) = events::event_dates(event, days, zone)->0;
    let part = events::vevent_of(event, uid, days, fallback, zone)->0;
    let modified = events::modified_at(event, fallback);
    lemma_ranks();
    lemma_head(uid, event.name, modified);
    let head = events::head_of(uid, event.name, modified);
    lemma_date_plain("DTSTART"@, start);
    let line = ical::date_under("DTSTART"@, Some(start));
    lemma_with_line(head, "DTSTART"@, line, 4);
    let started = ical::with_line(head, line);
    if let Some(date) = end {
        lemma_date_plain("DTEND"@, date);
    }
    let line = ical::date_under("DTEND"@, end);
    lemma_with_line(started, "DTEND"@, line, 7);
    let ended = ical::with_line(started, line);
    let line = ical::text_under("LOCATION"@, event.location);
    lemma_with_line(ended, "LOCATION"@, line, 8);
    let located = ical::with_line(ended, line);
    let line = ical::text_under("URL"@, event.object_url);
    lemma_with_line(located, "URL"@, line, 10);
    let linked = ical::with_line(located, line);
    let line = ical::text_under("DESCRIPTION"@, event.object_url);
    lemma_with_line(linked, "DESCRIPTION"@, line, 11);
    assert(part.once == ical::with_line(linked, line));
    let owner = uid + "-"@ + event.object_id;
    lemma_event_alarms(event.name, owner, events::leads_of(event.reminder_names), modified);
}

// ------------------------------------------------------------------ series

/// The VEVENT of a series itself, or of a plain event.
spec fn master_part(master: EventView, config: CalendarConfig, fallback: Instant) -> PartView {
    let zone = zone_of(master, config);
    let days = config.date_only_timezone@;
    let part = events::vevent_of(master, master.uid(), days, fallback, zone)->0;
    PartView {
        once: ical::with_line(part.once, ical::text_under("RRULE"@, master.rrule)),
        many: part.many + events::excluded_lines(master.exdates, days, zone),
        ..part
    }
}

/// The VEVENT of an object that replaces an occurrence.
spec fn replaced_part(
    event: EventView,
    uid: Text,
    zone: Option<Text>,
    config: CalendarConfig,
    fallback: Instant,
) -> PartView {
    let part = events::vevent_of(event, uid, config.date_only_timezone@, fallback, zone)->0;
    let at = told(event.occurrence->0, zone, config);
    PartView {
        once: ical::with_line(part.once, ical::date_under("RECURRENCE-ID"@, Some(at))),
        ..part
    }
}

/// The VEVENTs of objects that replace occurrences.
proof fn lemma_replaced_parts(
    replacements: Seq<(int, &Event)>,
    uid: Text,
    zone: Option<Text>,
    config: CalendarConfig,
    fallback: Instant,
)
    requires
        forall|i: int|
            0 <= i < replacements.len() ==> replacement_in_full(
                (#[trigger] replacements[i]).1@,
                zone,
                config,
            ),
    ensures
        events::replaced_parts(replacements, uid, config.date_only_timezone@, fallback, zone)
            == Seq::new(
            replacements.len(),
            |i: int| replaced_part(replacements[i].1@, uid, zone, config, fallback),
        ),
    decreases replacements.len(),
{
    let days = config.date_only_timezone@;
    let all = events::replaced_parts(replacements, uid, days, fallback, zone);
    let wanted = Seq::new(
        replacements.len(),
        |i: int| replaced_part(replacements[i].1@, uid, zone, config, fallback),
    );
    if replacements.len() > 0 {
        let front = replacements.drop_last();
        assert forall|i: int| 0 <= i < front.len() implies replacement_in_full(
            (#[trigger] front[i]).1@,
            zone,
            config,
        ) by {
            assert(front[i] == replacements[i]);
        }
        lemma_replaced_parts(front, uid, zone, config, fallback);
        let event = replacements[replacements.len() - 1].1@;
        assert(replacement_in_full(event, zone, config));
        assert(events::vevent_of(event, uid, days, fallback, zone) is Some);
        let before = events::replaced_parts(front, uid, days, fallback, zone);
        assert(all == before.push(replaced_part(event, uid, zone, config, fallback)));
        assert(all =~= wanted);
    } else {
        assert(all =~= wanted);
    }
}

/// The place at which an entry is put.
proof fn lemma_insert_place<T>(s: Seq<(int, T)>, key: int, value: T) -> (at: int)
    ensures
        0 <= at <= s.len(),
        order::insert_stable(s, key, value) == s.insert(at, (key, value)),
    decreases s.len(),
{
    if s.len() == 0 || s.last().0 <= key {
        assert(s.insert(s.len() as int, (key, value)) =~= s.push((key, value)));
        s.len() as int
    } else {
        let front = s.drop_last();
        let at = lemma_insert_place(front, key, value);
        assert(front.insert(at, (key, value)).push(s.last()) =~= s.insert(at, (key, value)));
        at
    }
}

pub open spec fn references<'a>(events: Seq<Event>) -> Seq<&'a Event> {
    Seq::new(events.len(), |i: int| &events[i])
}

/// Whether a list names every place below a number once.
spec fn every_place(found: Seq<int>, n: int) -> bool {
    &&& found.len() == n
    &&& forall|k: int| 0 <= k < n ==> 0 <= #[trigger] found[k] < n
    &&& forall|k: int, l: int| 0 <= k < l < n ==> #[trigger] found[k] != #[trigger] found[l]
    &&& forall|i: int| 0 <= i < n ==> found.contains(i)
}

/// Where the objects that replace occurrences stand in the order of those.
proof fn lemma_by_occurrence(replacements: Seq<Event>) -> (found: Seq<int>)
    requires
        forall|i: int|
            0 <= i < replacements.len() ==> (#[trigger] replacements[i])@.occurrence is Some,
    ensures
        every_place(found, replacements.len() as int),
        events::by_occurrence(references(replacements)).len() == replacements.len(),
        forall|k: int|
            0 <= k < found.len() ==> events::by_occurrence(references(replacements))[k].1
                == &replacements[#[trigger] found[k]],
    decreases replacements.len(),
{
    let refs = references(replacements);
    let n = replacements.len() as int;
    if n == 0 {
        Seq::empty()
    } else {
        let front = replacements.drop_last();
        assert forall|i: int| 0 <= i < front.len() implies (
        #[trigger] front[i])@.occurrence is Some by {
            assert(front[i] == replacements[i]);
        }
        let before = lemma_by_occurrence(front);
        assert(references(front) == refs.drop_last());
        let sorted = events::by_occurrence(references(front));
        let last = replacements[n - 1];
        assert(last@.occurrence is Some);
        let key = events::total_of(last@.occurrence->0);
        let at = lemma_insert_place(sorted, key, &last);
        let found = before.insert(at, n - 1);
        let all = events::by_occurrence(refs);
        assert(all == sorted.insert(at, (key, &last)));
        assert forall|k: int| 0 <= k < n implies 0 <= #[trigger] found[k] < n && all[k].1
            == &replacements[found[k]] by {
            if k < at {
                assert(found[k] == before[k]);
                assert(all[k] == sorted[k]);
            } else if k > at {
                assert(found[k] == before[k - 1]);
                assert(all[k] == sorted[k - 1]);
            }
        }
        assert forall|k: int, l: int| 0 <= k < l < n implies #[trigger] found[k]
            != #[trigger] found[l] by {
            let a = if k < at {
                before[k]
            } else if k > at {
                before[k - 1]
            } else {
                n - 1
            };
            let b = if l < at {
                before[l]
            } else if l > at {
                before[l - 1]
            } else {
                n - 1
            };
            assert(found[k] == a && found[l] == b);
        }
        assert forall|i: int| 0 <= i < n implies found.contains(i) by {
            if i == n - 1 {
                assert(found[at] == i);
            } else {
                assert(before.contains(i));
                let k = choose|k: int| 0 <= k < before.len() && before[k] == i;
                if k < at {
                    assert(found[k] == i);
                } else {
                    assert(found[k + 1] == i);
                }
            }
        }
        found
    }
}

// ------------------------------------------------------------------ reading

/// Lines of dates that are left out are no categories.
proof fn lemma_categories_aside(tags: Seq<Text>, left_out: Seq<LineView>)
    requires
        forall|j: int| 0 <= j < left_out.len() ==> (#[trigger] left_out[j]).key == "EXDATE"@,
    ensures
        ical::categories_in(ical::category_lines(tags) + left_out) == ical::categories_in(
            ical::category_lines(tags),
        ),
    decreases left_out.len(),
{
    let all = ical::category_lines(tags) + left_out;
    if left_out.len() > 0 {
        let front = left_out.drop_last();
        assert forall|j: int| 0 <= j < front.len() implies (#[trigger] front[j]).key
            == "EXDATE"@ by {
            assert(front[j] == left_out[j]);
        }
        lemma_categories_aside(tags, front);
        reveal_strlit("CATEGORIES");
        reveal_strlit("EXDATE");
        assert("CATEGORIES"@.len() == 10 && "EXDATE"@.len() == 6);
        assert(left_out[left_out.len() - 1].key == "EXDATE"@);
        assert(all.drop_last() == ical::category_lines(tags) + front);
    } else {
        assert(all == ical::category_lines(tags));
    }
}

/// A component that holds the lines of an event which is served in full changes nothing of
/// it.
#[verifier::rlimit(40)]
#[verifier::spinoff_prover]
proof fn lemma_component_read(
    event: EventView,
    uid: Text,
    zone: Option<Text>,
    part: PartView,
    left_out: Seq<LineView>,
    own: Seq<LineView>,
    inner: Seq<LineView>,
    config: CalendarConfig,
    fallback: Instant,
)
    requires
        event_in_full(event, zone, config),
        ({
            let days = config.date_only_timezone@;
            let base = events::vevent_of(event, uid, days, fallback, zone)->0;
            &&& part.alarms == base.alarms
            &&& part.many == base.many + left_out
            &&& forall|k: Text|
                rank(k) < 12 ==> #[trigger] ical::only_line(part.once, k) == ical::only_line(
                    base.once,
                    k,
                )
        }),
        forall|j: int| 0 <= j < left_out.len() ==> (#[trigger] left_out[j]).key == "EXDATE"@,
        forall|key: Text| #[trigger]
            ical::only_line(own, key) == ical::only_line(part.once, key),
        ical::several(own) == part.many,
        forall|j: int| 0 <= j < own.len() ==> (#[trigger] own[j]).part.len() == 0,
        forall|j: int|
            0 <= j < inner.len() ==> (#[trigger] inner[j]).part == "VALARM"@ && !inner[j].multi,
        ical::under(inner, "TRIGGER"@) == ical::of_alarms(part.alarms, "TRIGGER"@),
        event_changes::dates_kept(own + inner, event_changes::incoming_of(own + inner)),
    ensures
        forall|key: Text| #[trigger]
            ical::only_line(own + inner, key) == ical::only_line(part.once, key),
        ical::several(own + inner) == part.many,
        event_changes::event_update(event, event_changes::incoming_of(own + inner), config)
            == event_changes::no_event_change(),
{
    let days = config.date_only_timezone@;
    let base = events::vevent_of(event, uid, days, fallback, zone)->0;
    let lines = own + inner;
    let one = event_changes::incoming_of(lines);
    lemma_ranks();
    lemma_event_lines(event, uid, zone, config, fallback);
    reveal_strlit("VALARM");
    assert forall|j: int| 0 <= j < inner.len() implies (#[trigger] inner[j]).part.len() > 0 by {
        assert(inner[j].part == "VALARM"@);
    }
    assert forall|key: Text| #[trigger]
        ical::only_line(lines, key) == ical::only_line(part.once, key) by {
        ical::lemma_parts_aside(own, inner, key);
        assert(ical::only_line(own, key) == ical::only_line(part.once, key));
    }
    // The texts and the dates.
    let (start, end) = events::event_dates(event, days, zone)->0;
    assert(ical::only_line(part.once, "SUMMARY"@) == ical::only_line(base.once, "SUMMARY"@));
    assert(ical::only_line(part.once, "LOCATION"@) == ical::only_line(base.once, "LOCATION"@));
    assert(ical::only_line(part.once, "DTSTART"@) == ical::only_line(base.once, "DTSTART"@));
    assert(ical::only_line(part.once, "DTEND"@) == ical::only_line(base.once, "DTEND"@));
    assert(ical::only_line(lines, "SUMMARY"@) == ical::only_line(base.once, "SUMMARY"@));
    assert(ical::only_line(lines, "LOCATION"@) == ical::only_line(base.once, "LOCATION"@));
    assert(ical::only_line(lines, "DTSTART"@) == ical::date_under("DTSTART"@, Some(start)));
    assert(ical::only_line(lines, "DTEND"@) == ical::date_under("DTEND"@, end));
    assert(one.start == Some(start));
    assert(one.end == end);
    // The tags.
    ical::lemma_several_aside(own, inner);
    ical::lemma_categories_are_several(lines);
    lemma_categories_aside(event.tags, left_out);
    ical::lemma_categories_kept(event.tags);
    // The leads.
    let leads = events::leads_of(event.reminder_names);
    lemma_triggers_aside(own, inner);
    lemma_triggers_under(inner);
    lemma_leads_read(leads);
    let found = event_changes::triggers(lines);
    assert(event_changes::numbers(found) == told_seconds(leads));
    assert(found.len() == event_changes::numbers(found).len());
    assert forall|i: int, j: int| 0 <= i < j < found.len() implies (#[trigger] found[i]).0 != (
    #[trigger] found[j]).0 by {
        let seconds = told_seconds(leads);
        assert(event_changes::numbers(found)[i] == seconds[i]);
        assert(event_changes::numbers(found)[j] == seconds[j]);
        assert(leads[i].0 / 60 != leads[j].0 / 60);
    }
    lemma_told_names(leads);
    lemma_sorting_keeps_names(found);
    assert(one.leads == event_changes::numbers(order::sorted_keyed(found)));
    text::law_sorting_forgets_the_order(
        event_changes::names_of_leads(one.leads),
        event_changes::names_of_leads(event_changes::seconds_of(leads)),
    );
}

/// Dates are left out by the lines of which there may be several.
proof fn lemma_left_out_are_several(lines: Seq<LineView>)
    requires
        event_changes::excluded_kept(lines),
    ensures
        event_changes::excluded_in(lines) == event_changes::excluded_in(ical::several(lines)),
        event_changes::excluded_kept(ical::several(lines)),
    decreases lines.len(),
{
    if lines.len() > 0 {
        let front = lines.drop_last();
        assert(event_changes::excluded_kept(front)) by {
            assert forall|i: int| 0 <= i < front.len() && event_changes::leaves_out(
                #[trigger] front[i],
            ) implies event_changes::values_kept(
                text::split(front[i].value, ','),
                front[i].params,
            ) by {
                assert(event_changes::leaves_out(lines[i]));
            }
        }
        lemma_left_out_are_several(front);
        let last = lines[lines.len() - 1];
        if last.multi {
            let inner = ical::several(front);
            let all = inner.push(last);
            assert(all.drop_last() == inner);
            assert forall|i: int| 0 <= i < all.len() && event_changes::leaves_out(
                #[trigger] all[i],
            ) implies event_changes::values_kept(
                text::split(all[i].value, ','),
                all[i].params,
            ) by {
                if i < inner.len() {
                    assert(event_changes::leaves_out(inner[i]));
                } else {
                    assert(event_changes::leaves_out(lines[lines.len() - 1]));
                }
            }
        }
    }
}

proof fn lemma_no_date_left_out(tags: Seq<Text>)
    ensures
        event_changes::excluded_in(ical::category_lines(tags)) == Seq::<WireView>::empty(),
    decreases tags.len(),
{
    if tags.len() > 0 {
        lemma_no_date_left_out(tags.drop_last());
        reveal_strlit("CATEGORIES");
        reveal_strlit("EXDATE");
        assert("CATEGORIES"@.len() == 10 && "EXDATE"@.len() == 6);
        assert(ical::category_lines(tags).drop_last() == ical::category_lines(tags.drop_last()));
    }
}

/// What the dates of a series are told as.
spec fn all_told(
    dates: Seq<DateView>,
    zone: Option<Text>,
    config: CalendarConfig,
) -> Seq<WireView> {
    Seq::new(dates.len(), |i: int| told(dates[i], zone, config))
}

/// The dates that are left out are read as they were written.
proof fn lemma_left_out_read(
    tags: Seq<Text>,
    dates: Seq<DateView>,
    zone: Option<Text>,
    config: CalendarConfig,
)
    requires
        forall|i: int|
            0 <= i < dates.len() ==> date_in_full(#[trigger] dates[i], zone, config),
        event_changes::excluded_kept(
            ical::category_lines(tags) + events::excluded_lines(
                dates,
                config.date_only_timezone@,
                zone,
            ),
        ),
    ensures
        event_changes::excluded_in(
            ical::category_lines(tags) + events::excluded_lines(
                dates,
                config.date_only_timezone@,
                zone,
            ),
        ) == all_told(dates, zone, config),
    decreases dates.len(),
{
    let days = config.date_only_timezone@;
    let first = ical::category_lines(tags);
    let lines = events::excluded_lines(dates, days, zone);
    let all = first + lines;
    if dates.len() > 0 {
        let front = dates.drop_last();
        let before = events::excluded_lines(front, days, zone);
        assert(lines.drop_last() == before);
        assert(all.drop_last() == first + before);
        assert forall|i: int| 0 <= i < front.len() implies date_in_full(
            #[trigger] front[i],
            zone,
            config,
        ) by {
            assert(front[i] == dates[i]);
        }
        assert(event_changes::excluded_kept(first + before)) by {
            assert forall|i: int| 0 <= i < (first + before).len() && event_changes::leaves_out(
                #[trigger] (first + before)[i],
            ) implies event_changes::values_kept(
                text::split((first + before)[i].value, ','),
                (first + before)[i].params,
            ) by {
                assert((first + before)[i] == all[i]);
                assert(event_changes::leaves_out(all[i]));
            }
        }
        lemma_left_out_read(tags, front, zone, config);
        let date = told(dates[dates.len() - 1], zone, config);
        assert(date_in_full(dates[dates.len() - 1], zone, config));
        let line = all[all.len() - 1];
        let (value, params) = ical::date_text(date);
        assert(line == ical::multi_of("EXDATE"@, value, params));
        assert(event_changes::leaves_out(all[all.len() - 1]));
        ical::lemma_date_figures(date);
        ical::lemma_figures(value);
        let values = seq![value];
        assert(event_changes::value_kept(values[0], params));
        assert(values.drop_last() == Seq::<Text>::empty());
        let so_far = event_changes::excluded_in(first + before);
        assert(event_changes::with_dates(so_far, Seq::<Text>::empty(), params) == so_far);
        assert(event_changes::excluded_in(all) == so_far.push(date));
        assert(all_told(dates, zone, config) == all_told(front, zone, config).push(date));
    } else {
        lemma_no_date_left_out(tags);
        assert(all == first);
        assert(all_told(dates, zone, config) == Seq::<WireView>::empty());
    }
}

/// The same number is put in the same place.
proof fn lemma_insert_numbers<A, B>(a: Seq<(int, A)>, b: Seq<(int, B)>, key: int, x: A, y: B)
    requires
        event_changes::numbers(a) == event_changes::numbers(b),
    ensures
        event_changes::numbers(order::insert_keyed(a, key, x)) == event_changes::numbers(
            order::insert_keyed(b, key, y),
        ),
    decreases a.len(),
{
    let m = event_changes::numbers(a);
    let n = event_changes::numbers(b);
    assert(m.len() == a.len() && n.len() == b.len());
    let r = order::insert_keyed(a, key, x);
    let s = order::insert_keyed(b, key, y);
    if a.len() == 0 || a.last().0 < key {
        if a.len() > 0 {
            assert(m[a.len() - 1] == n[b.len() - 1]);
        }
        assert(event_changes::numbers(r) == m.push(key));
        assert(event_changes::numbers(s) == n.push(key));
    } else {
        assert(m[a.len() - 1] == n[b.len() - 1]);
        if a.last().0 != key {
            assert(event_changes::numbers(a.drop_last()) == m.drop_last());
            assert(event_changes::numbers(b.drop_last()) == n.drop_last());
            lemma_insert_numbers(a.drop_last(), b.drop_last(), key, x, y);
            let front = event_changes::numbers(order::insert_keyed(a.drop_last(), key, x));
            assert(event_changes::numbers(r) == front.push(a.last().0));
            assert(event_changes::numbers(s) == front.push(b.last().0));
        }
    }
}

/// The dates that are left out are those that were.
proof fn lemma_dates_held(dates: Seq<DateView>, zone: Option<Text>, config: CalendarConfig)
    requires
        forall|i: int|
            0 <= i < dates.len() ==> date_in_full(#[trigger] dates[i], zone, config),
        event_changes::instants_kept(all_told(dates, zone, config), config),
    ensures
        event_changes::numbers(
            event_changes::wanted_dates(all_told(dates, zone, config), config),
        ) == event_changes::numbers(event_changes::held_dates(dates)),
    decreases dates.len(),
{
    let values = all_told(dates, zone, config);
    if dates.len() > 0 {
        let front = dates.drop_last();
        let before = all_told(front, zone, config);
        assert(values.drop_last() == before);
        assert forall|i: int| 0 <= i < front.len() implies date_in_full(
            #[trigger] front[i],
            zone,
            config,
        ) by {
            assert(front[i] == dates[i]);
        }
        assert forall|i: int| 0 <= i < before.len() implies event_changes::instant_kept(
            #[trigger] before[i],
            config,
        ) by {
            assert(before[i] == values[i]);
        }
        lemma_dates_held(front, zone, config);
        let last = dates[dates.len() - 1];
        assert(date_in_full(last, zone, config));
        assert(event_changes::instant_kept(values[values.len() - 1], config));
        let (stored, date) = event_changes::stored_instant(values.last(), config)->0;
        assert(events::total_of(date) == events::total_of(last));
        lemma_insert_numbers(
            event_changes::wanted_dates(before, config),
            event_changes::held_dates(front),
            events::total_of(last),
            stored,
            (),
        );
    } else {
        assert(event_changes::numbers(event_changes::wanted_dates(values, config)) =~= Seq::empty());
        assert(event_changes::numbers(event_changes::held_dates(dates)) =~= Seq::empty());
    }
}

/// The first component is the master, and the others replace occurrences.
proof fn lemma_one_master(all: Seq<Seq<LineView>>)
    requires
        all.len() > 0,
        event_changes::incoming_of(all[0]).recurrence_id is None,
        forall|i: int|
            1 <= i < all.len() ==> event_changes::incoming_of(
                #[trigger] all[i],
            ).recurrence_id is Some,
    ensures
        event_changes::masters(all) == seq![event_changes::incoming_of(all[0])],
        event_changes::replacing(all) == Seq::new(
            (all.len() - 1) as nat,
            |i: int| event_changes::incoming_of(all[i + 1]),
        ),
    decreases all.len(),
{
    let front = all.drop_last();
    let wanted = Seq::new(
        (all.len() - 1) as nat,
        |i: int| event_changes::incoming_of(all[i + 1]),
    );
    if all.len() == 1 {
        assert(event_changes::masters(front).len() == 0);
        assert(event_changes::replacing(front).len() == 0);
        assert(event_changes::masters(all) =~= seq![event_changes::incoming_of(all[0])]);
        assert(event_changes::replacing(all) =~= wanted);
    } else {
        assert(front[0] == all[0]);
        assert forall|i: int| 1 <= i < front.len() implies event_changes::incoming_of(
            #[trigger] front[i],
        ).recurrence_id is Some by {
            assert(front[i] == all[i]);
        }
        lemma_one_master(front);
        assert(event_changes::incoming_of(all[all.len() - 1]).recurrence_id is Some);
        assert(event_changes::replacing(all) =~= wanted);
    }
}

/// The object that replaces the occurrence at a moment is found.
proof fn lemma_match(
    replacements: Seq<Event>,
    from: int,
    i: int,
    at: DateView,
    matched: Seq<Text>,
)
    requires
        0 <= from <= i < replacements.len(),
        replacements[i]@.occurrence is Some,
        replacements[i]@.occurrence->0.second == at.second,
        replacements[i]@.occurrence->0.nano == at.nano,
        !matched.contains(replacements[i]@.object_id),
        forall|j: int|
            from <= j < i ==> (#[trigger] replacements[j])@.occurrence->0.second != at.second,
    ensures
        event_changes::match_from(replacements, from, at, matched) == Some(i),
    decreases i - from,
{
    if from < i {
        assert(replacements[from]@.occurrence->0.second != at.second);
        lemma_match(replacements, from + 1, i, at, matched);
    }
}

/// Every object is matched.
proof fn lemma_all_matched(replacements: Seq<Event>, matched: Seq<Text>)
    requires
        forall|i: int|
            0 <= i < replacements.len() ==> matched.contains(
                (#[trigger] replacements[i])@.object_id,
            ),
    ensures
        event_changes::unmatched(replacements, matched) == Seq::<Text>::empty(),
    decreases replacements.len(),
{
    if replacements.len() > 0 {
        let front = replacements.drop_last();
        assert forall|i: int| 0 <= i < front.len() implies matched.contains(
            (#[trigger] front[i])@.object_id,
        ) by {
            assert(front[i] == replacements[i]);
        }
        lemma_all_matched(front, matched);
        assert(matched.contains(replacements[replacements.len() - 1]@.object_id));
    }
}

/// Whether a component is that of an object, unchanged.
spec fn is_of(one: IncomingEventView, event: EventView, config: CalendarConfig) -> bool {
    &&& event_changes::event_update(event, one, config) == event_changes::no_event_change()
    &&& one.recurrence_id matches Some(value)
    &&& event_changes::stored_instant(value, config) matches Some((_, date))
    &&& event.occurrence matches Some(at)
    &&& date.second == at.second && date.nano == at.nano
}

/// The ids of the objects at some places.
spec fn ids_at(replacements: Seq<Event>, found: Seq<int>) -> Seq<Text> {
    Seq::new(found.len(), |k: int| replacements[found[k]]@.object_id)
}

/// Components that are those of objects, unchanged, ask for nothing.
proof fn lemma_nothing_planned(
    wanted: Seq<IncomingEventView>,
    found: Seq<int>,
    master: Text,
    replacements: Seq<Event>,
    config: CalendarConfig,
)
    requires
        wanted.len() == found.len(),
        forall|k: int| 0 <= k < found.len() ==> 0 <= #[trigger] found[k] < replacements.len(),
        forall|k: int, l: int|
            0 <= k < l < found.len() ==> #[trigger] found[k] != #[trigger] found[l],
        forall|k: int|
            0 <= k < wanted.len() ==> is_of(
                #[trigger] wanted[k],
                replacements[found[k]]@,
                config,
            ),
        forall|i: int, j: int|
            0 <= i < j < replacements.len() ==> (#[trigger] replacements[i])@.object_id != (
            #[trigger] replacements[j])@.object_id && replacements[i]@.occurrence->0.second
                != replacements[j]@.occurrence->0.second,
    ensures
        event_changes::planned(wanted, master, replacements, config) == (Planning {
            update: Seq::empty(),
            create: Seq::empty(),
            matched: ids_at(replacements, found),
        }),
    decreases wanted.len(),
{
    let all = event_changes::planned(wanted, master, replacements, config);
    if wanted.len() > 0 {
        let n = wanted.len() - 1;
        let front = wanted.drop_last();
        let places = found.drop_last();
        assert forall|k: int| 0 <= k < places.len() implies 0 <= #[trigger] places[k]
            < replacements.len() by {
            assert(places[k] == found[k]);
        }
        assert forall|k: int, l: int| 0 <= k < l < places.len() implies #[trigger] places[k]
            != #[trigger] places[l] by {
            assert(found[k] != found[l]);
        }
        assert forall|k: int| 0 <= k < front.len() implies is_of(
            #[trigger] front[k],
            replacements[places[k]]@,
            config,
        ) by {
            assert(is_of(wanted[k], replacements[found[k]]@, config));
        }
        lemma_nothing_planned(front, places, master, replacements, config);
        let i = found[n];
        let one = wanted[n];
        assert(is_of(one, replacements[i]@, config));
        let matched = ids_at(replacements, places);
        let (stored, date) = event_changes::stored_instant(one.recurrence_id->0, config)->0;
        assert(!matched.contains(replacements[i]@.object_id)) by {
            if matched.contains(replacements[i]@.object_id) {
                let k = choose|k: int|
                    0 <= k < matched.len() && matched[k] == replacements[i]@.object_id;
                assert(found[k] != found[n]);
                assert(places[k] == found[k]);
            }
        }
        assert forall|j: int| 0 <= j < i implies (
        #[trigger] replacements[j])@.occurrence->0.second != date.second by {
            assert(replacements[i]@.occurrence->0.second == date.second);
        }
        lemma_match(replacements, 0, i, date, matched);
        assert(all.matched == matched.push(replacements[i]@.object_id));
        assert(ids_at(replacements, found) == matched.push(replacements[i]@.object_id));
    } else {
        assert(ids_at(replacements, found) == Seq::<Text>::empty());
    }
}

/// The VEVENTs of a series that is served in full.
#[verifier::rlimit(40)]
#[verifier::spinoff_prover]
proof fn lemma_series_parts(
    master: EventView,
    replacements: Seq<Event>,
    config: CalendarConfig,
    fallback: Instant,
) -> (found: Seq<int>)
    requires
        series_in_full(master, replacements, config),
    ensures
        every_place(found, replacements.len() as int),
        ({
            let parts = events::series_parts(
                master,
                references(replacements),
                config.date_only_timezone@,
                config.timezone@,
                fallback,
            )->0;
            let zone = zone_of(master, config);
            &&& parts.len() == replacements.len() + 1
            &&& parts[0] == master_part(master, config, fallback)
            &&& forall|k: int|
                0 <= k < found.len() ==> parts[k + 1] == replaced_part(
                    replacements[#[trigger] found[k]]@,
                    master.uid(),
                    zone,
                    config,
                    fallback,
                )
        }),
{
    let days = config.date_only_timezone@;
    let zone = zone_of(master, config);
    let refs = references(replacements);
    assert forall|i: int| 0 <= i < replacements.len() implies (
    #[trigger] replacements[i])@.occurrence is Some by {
        assert(replacement_in_full(replacements[i]@, zone, config));
    }
    let found = lemma_by_occurrence(replacements);
    let sorted = events::by_occurrence(refs);
    assert forall|k: int| 0 <= k < sorted.len() implies replacement_in_full(
        (#[trigger] sorted[k]).1@,
        zone,
        config,
    ) by {
        assert(sorted[k].1 == &replacements[found[k]]);
        assert(replacement_in_full(replacements[found[k]]@, zone, config));
    }
    lemma_replaced_parts(sorted, master.uid(), zone, config, fallback);
    lemma_event_lines(master, master.uid(), zone, config, fallback);
    let first = events::vevent_of(master, master.uid(), days, fallback, zone)->0;
    let parts = events::series_parts(master, refs, days, config.timezone@, fallback)->0;
    if master.rrule is None {
        assert(first.many + events::excluded_lines(master.exdates, days, zone) == first.many);
    }
    assert(parts[0] == master_part(master, config, fallback));
    assert forall|k: int| 0 <= k < found.len() implies parts[k + 1] == replaced_part(
        replacements[#[trigger] found[k]]@,
        master.uid(),
        zone,
        config,
        fallback,
    ) by {
        assert(sorted[k].1 == &replacements[found[k]]);
    }
    found
}

/// The VEVENT of a master is plain, and its rule is found.
#[verifier::rlimit(40)]
#[verifier::spinoff_prover]
proof fn lemma_master_plain(master: EventView, config: CalendarConfig, fallback: Instant)
    requires
        event_in_full(master, zone_of(master, config), config),
        master.rrule matches Some(rule) ==> ical::unbroken(rule),
        forall|i: int|
            0 <= i < master.exdates.len() ==> date_in_full(
                #[trigger] master.exdates[i],
                zone_of(master, config),
                config,
            ),
    ensures
        ({
            let part = master_part(master, config, fallback);
            let days = config.date_only_timezone@;
            let zone = zone_of(master, config);
            let base = events::vevent_of(master, master.uid(), days, fallback, zone)->0;
            &&& ical::plain_part(part)
            &&& ical::only_value(part.once, "RRULE"@) == master.rrule
            &&& ical::only_line(part.once, "RDATE"@) is None
            &&& ical::only_line(part.once, "RECURRENCE-ID"@) is None
            &&& forall|k: Text|
                rank(k) < 12 ==> #[trigger] ical::only_line(part.once, k) == ical::only_line(
                    base.once,
                    k,
                )
        }),
{
    let part = master_part(master, config, fallback);
    let days = config.date_only_timezone@;
    let zone = zone_of(master, config);
    let base = events::vevent_of(master, master.uid(), days, fallback, zone)->0;
    lemma_ranks();
    lemma_event_lines(master, master.uid(), zone, config, fallback);
    let line = ical::text_under("RRULE"@, master.rrule);
    lemma_with_line(base.once, "RRULE"@, line, 12);
    let left_out = events::excluded_lines(master.exdates, days, zone);
    assert forall|i: int| 0 <= i < part.many.len() implies ical::plain_several(
        #[trigger] part.many[i],
    ) by {
        if i < master.tags.len() {
            assert(part.many[i] == ical::category_lines(master.tags)[i]);
            assert(ical::unbroken(master.tags[i]));
        } else {
            let j = i - master.tags.len();
            assert(part.many[i] == left_out[j]);
            assert(date_in_full(master.exdates[j], zone, config));
            let date = told(master.exdates[j], zone, config);
            ical::lemma_date_figures(date);
            ical::lemma_figures(ical::date_text(date).0);
        }
    }
}

/// The VEVENT of an object that replaces an occurrence is plain, and its occurrence is
/// found.
proof fn lemma_replaced_plain(
    event: EventView,
    uid: Text,
    zone: Option<Text>,
    config: CalendarConfig,
    fallback: Instant,
)
    requires
        replacement_in_full(event, zone, config),
    ensures
        ({
            let part = replaced_part(event, uid, zone, config, fallback);
            let days = config.date_only_timezone@;
            let base = events::vevent_of(event, uid, days, fallback, zone)->0;
            let at = told(event.occurrence->0, zone, config);
            &&& ical::plain_part(part)
            &&& ical::only_line(part.once, "RDATE"@) is None
            &&& ical::only_line(part.once, "RECURRENCE-ID"@) == ical::date_under(
                "RECURRENCE-ID"@,
                Some(at),
            )
            &&& part.many == base.many + Seq::<LineView>::empty()
            &&& forall|k: Text|
                rank(k) < 12 ==> #[trigger] ical::only_line(part.once, k) == ical::only_line(
                    base.once,
                    k,
                )
        }),
{
    let part = replaced_part(event, uid, zone, config, fallback);
    let days = config.date_only_timezone@;
    let base = events::vevent_of(event, uid, days, fallback, zone)->0;
    let at = told(event.occurrence->0, zone, config);
    lemma_ranks();
    lemma_event_lines(event, uid, zone, config, fallback);
    lemma_date_plain("RECURRENCE-ID"@, at);
    let line = ical::date_under("RECURRENCE-ID"@, Some(at));
    lemma_with_line(base.once, "RECURRENCE-ID"@, line, 12);
    assert(part.many == base.many + Seq::<LineView>::empty());
    assert forall|i: int| 0 <= i < part.many.len() implies ical::plain_several(
        #[trigger] part.many[i],
    ) by {
        assert(ical::unbroken(event.tags[i]));
    }
}

/// What stands in the document at the place of a component.
proof fn lemma_lines_at(body: Text, parts: Seq<PartView>, i: int)
    requires
        ical::read_back(ical::event_lines_in(body), parts),
        ical::alarms_read_back(ical::inner_lines_in(body), parts),
        nesting::shallow(body),
        0 <= i < parts.len(),
        forall|j: int|
            0 <= j < parts[i].alarms.len() ==> ical::only_line(
                #[trigger] parts[i].alarms[j],
                "TRIGGER"@,
            ) is Some,
    ensures
        ({
            let own = ical::event_lines_in(body)->Ok_0[i];
            let inner = ical::inner_lines_in(body)->Ok_0[i];
            &&& ical::events_in(body) is Ok
            &&& ical::events_in(body)->Ok_0.len() == parts.len()
            &&& ical::events_in(body)->Ok_0[i] == own + inner
            &&& forall|key: Text| #[trigger]
                ical::only_line(own, key) == ical::only_line(parts[i].once, key)
            &&& ical::several(own) == parts[i].many
            &&& forall|j: int| 0 <= j < own.len() ==> (#[trigger] own[j]).part.len() == 0
            &&& forall|j: int|
                0 <= j < inner.len() ==> (#[trigger] inner[j]).part == "VALARM"@ && !inner[j].multi
            &&& ical::under(inner, "TRIGGER"@) == ical::of_alarms(parts[i].alarms, "TRIGGER"@)
            &&& forall|key: Text| #[trigger]
                ical::only_line(own + inner, key) == ical::only_line(parts[i].once, key)
        }),
{
    let own = ical::event_lines_in(body)->Ok_0[i];
    let inner = ical::inner_lines_in(body)->Ok_0[i];
    reveal_strlit("VALARM");
    assert forall|j: int| 0 <= j < own.len() implies (#[trigger] own[j]).part.len() == 0 by {
        assert(ical::event_lines_in(body)->Ok_0[i][j].part.len() == 0);
    }
    assert forall|j: int| 0 <= j < inner.len() implies (#[trigger] inner[j]).part == "VALARM"@
        && !inner[j].multi by {
        assert(ical::inner_lines_in(body)->Ok_0[i][j].part == "VALARM"@);
    }
    assert(ical::under(inner, "TRIGGER"@) == ical::of_alarms(parts[i].alarms, "TRIGGER"@));
    assert forall|key: Text| #[trigger]
        ical::only_line(own + inner, key) == ical::only_line(parts[i].once, key) by {
        ical::lemma_parts_aside(own, inner, key);
        assert(ical::only_line(own, key) == ical::only_line(parts[i].once, key));
    }
}

/// The component of an object that replaces an occurrence is told from a master.
proof fn lemma_replacement_found(
    event: EventView,
    uid: Text,
    zone: Option<Text>,
    parts: Seq<PartView>,
    i: int,
    body: Text,
    config: CalendarConfig,
    fallback: Instant,
)
    requires
        replacement_in_full(event, zone, config),
        0 <= i < parts.len(),
        parts[i] == replaced_part(event, uid, zone, config, fallback),
        ical::read_back(ical::event_lines_in(body), parts),
        ical::alarms_read_back(ical::inner_lines_in(body), parts),
        nesting::shallow(body),
    ensures
        ({
            let lines = ical::events_in(body)->Ok_0[i];
            let at = told(event.occurrence->0, zone, config);
            &&& ical::only_line(lines, "RDATE"@) is None
            &&& ical::only_line(lines, "RECURRENCE-ID"@) == ical::date_under(
                "RECURRENCE-ID"@,
                Some(at),
            )
            &&& event_changes::dates_kept(lines, event_changes::incoming_of(lines))
                ==> event_changes::incoming_of(lines).recurrence_id == Some(at)
        }),
{
    let lines = ical::events_in(body)->Ok_0[i];
    let once = parts[i].once;
    lemma_event_lines(event, uid, zone, config, fallback);
    lemma_replaced_plain(event, uid, zone, config, fallback);
    lemma_lines_at(body, parts, i);
    assert(ical::only_line(lines, "RDATE"@) == ical::only_line(once, "RDATE"@));
    assert(ical::only_line(lines, "RECURRENCE-ID"@) == ical::only_line(once, "RECURRENCE-ID"@));
}

/// The component of an object that replaces an occurrence is that of the object, unchanged.
#[verifier::rlimit(40)]
#[verifier::spinoff_prover]
proof fn lemma_replacement_read(
    event: EventView,
    uid: Text,
    zone: Option<Text>,
    parts: Seq<PartView>,
    i: int,
    body: Text,
    config: CalendarConfig,
    fallback: Instant,
)
    requires
        replacement_in_full(event, zone, config),
        0 <= i < parts.len(),
        parts[i] == replaced_part(event, uid, zone, config, fallback),
        ical::read_back(ical::event_lines_in(body), parts),
        ical::alarms_read_back(ical::inner_lines_in(body), parts),
        nesting::shallow(body),
        ({
            let lines = ical::events_in(body)->Ok_0[i];
            let one = event_changes::incoming_of(lines);
            event_changes::dates_kept(lines, one) && event_changes::replaced_kept(one, config)
        }),
    ensures
        is_of(event_changes::incoming_of(ical::events_in(body)->Ok_0[i]), event, config),
{
    lemma_replacement_found(event, uid, zone, parts, i, body, config, fallback);
    lemma_event_lines(event, uid, zone, config, fallback);
    lemma_replaced_plain(event, uid, zone, config, fallback);
    lemma_lines_at(body, parts, i);
    lemma_component_read(
        event,
        uid,
        zone,
        parts[i],
        Seq::empty(),
        ical::event_lines_in(body)->Ok_0[i],
        ical::inner_lines_in(body)->Ok_0[i],
        config,
        fallback,
    );
}

/// The component of the master changes nothing of it.
#[verifier::rlimit(40)]
#[verifier::spinoff_prover]
proof fn lemma_master_read(
    master: EventView,
    replacements: Seq<Event>,
    parts: Seq<PartView>,
    body: Text,
    config: CalendarConfig,
    fallback: Instant,
)
    requires
        series_in_full(master, replacements, config),
        0 < parts.len(),
        parts[0] == master_part(master, config, fallback),
        ical::read_back(ical::event_lines_in(body), parts),
        ical::alarms_read_back(ical::inner_lines_in(body), parts),
        nesting::shallow(body),
    ensures
        ({
            let lines = ical::events_in(body)->Ok_0[0];
            let one = event_changes::incoming_of(lines);
            &&& ical::events_in(body) is Ok
            &&& ical::events_in(body)->Ok_0.len() == parts.len()
            &&& ical::only_line(lines, "RDATE"@) is None
            &&& one.recurrence_id is None
            &&& one.rrule == master.rrule
            &&& event_changes::dates_kept(lines, one) ==> event_changes::event_update(
                master,
                one,
                config,
            ) == event_changes::no_event_change() && (event_changes::instants_kept(
                one.exdates,
                config,
            ) ==> event_changes::excluded_change(master.exdates, one.exdates, config) is None)
        }),
{
    let zone = zone_of(master, config);
    let uid = master.uid();
    let days = config.date_only_timezone@;
    let own = ical::event_lines_in(body)->Ok_0[0];
    let inner = ical::inner_lines_in(body)->Ok_0[0];
    let lines = own + inner;
    let once = parts[0].once;
    let one = event_changes::incoming_of(lines);
    let left_out = events::excluded_lines(master.exdates, days, zone);
    lemma_event_lines(master, uid, zone, config, fallback);
    lemma_master_plain(master, config, fallback);
    lemma_lines_at(body, parts, 0);
    assert(ical::only_line(lines, "RDATE"@) == ical::only_line(once, "RDATE"@));
    assert(ical::only_line(lines, "RECURRENCE-ID"@) == ical::only_line(once, "RECURRENCE-ID"@));
    assert(ical::only_line(lines, "RRULE"@) == ical::only_line(once, "RRULE"@));
    if event_changes::dates_kept(lines, one) {
        lemma_component_read(
            master,
            uid,
            zone,
            parts[0],
            left_out,
            own,
            inner,
            config,
            fallback,
        );
        lemma_left_out_are_several(lines);
        lemma_left_out_read(master.tags, master.exdates, zone, config);
        if event_changes::instants_kept(one.exdates, config) {
            lemma_dates_held(master.exdates, zone, config);
        }
    }
}

/// A client that sends an event or a series back as it was served changes nothing: what
/// `parse_series` reads of the text of `render_series` makes an empty plan. The series is
/// one that is served in full.
#[verifier::rlimit(60)]
#[verifier::spinoff_prover]
pub proof fn law_a_series_comes_back_unchanged(
    master: EventView,
    replacements: Seq<Event>,
    body: Text,
    read: Result<IncomingSeries, EventWriteError>,
    config: CalendarConfig,
    fallback: Instant,
)
    requires
        series_in_full(master, replacements, config),
        events::legible(body, master, references(replacements), config, fallback),
        event_changes::series_said(ical::events_in(ical::terminated_text(body)), read),
        read matches Ok(series) ==> event_changes::series_instants_kept(series@, config),
    ensures
        read matches Ok(series) && event_changes::series_update(
            master,
            replacements,
            series@,
            config,
        ) == (SeriesPlanView {
            master: event_changes::no_event_change(),
            update: Seq::empty(),
            create: Seq::empty(),
            archive: Seq::empty(),
        }),
{
    let zone = zone_of(master, config);
    let uid = master.uid();
    let n = replacements.len() as int;
    let found = lemma_series_parts(master, replacements, config, fallback);
    let parts = events::series_parts(
        master,
        references(replacements),
        config.date_only_timezone@,
        config.timezone@,
        fallback,
    )->0;
    lemma_master_plain(master, config, fallback);
    assert forall|i: int| 0 <= i < parts.len() implies ical::plain_part(#[trigger] parts[i]) by {
        if i > 0 {
            let event = replacements[found[i - 1]]@;
            assert(replacement_in_full(event, zone, config));
            lemma_replaced_plain(event, uid, zone, config, fallback);
        }
    }
    assert(ical::plain_document(config.name@, config.timezone@, parts));
    lemma_master_read(master, replacements, parts, body, config, fallback);
    let all = ical::events_in(body)->Ok_0;
    // Nothing is refused.
    assert forall|i: int| 0 <= i < all.len() implies ical::only_value(#[trigger] all[i], "RDATE"@)
        is None && (i > 0 && event_changes::dates_kept(
        all[i],
        event_changes::incoming_of(all[i]),
    ) ==> event_changes::incoming_of(all[i]).recurrence_id is Some) by {
        if i > 0 {
            let event = replacements[found[i - 1]]@;
            assert(replacement_in_full(event, zone, config));
            lemma_replacement_found(event, uid, zone, parts, i, body, config, fallback);
        }
    }
    assert(!event_changes::has_rdate(all));
    assert(event_changes::all_dates_kept(all));
    lemma_one_master(all);
    let first = event_changes::incoming_of(all[0]);
    let series = read->Ok_0;
    assert(series@.master == first);
    assert(event_changes::dates_kept(all[0], first));
    // The objects that replace occurrences.
    let wanted = event_changes::replacing(all);
    if master.rrule is Some {
        assert(series@.replacements == wanted);
    }
    assert forall|k: int| 0 <= k < n implies is_of(
        #[trigger] wanted[k],
        replacements[found[k]]@,
        config,
    ) by {
        assert(event_changes::replaced_kept(series@.replacements[k], config));
        assert(event_changes::dates_kept(all[k + 1], event_changes::incoming_of(all[k + 1])));
        let event = replacements[found[k]]@;
        assert(replacement_in_full(event, zone, config));
        lemma_replacement_read(event, uid, zone, parts, k + 1, body, config, fallback);
    }
    assert(series@.replacements == wanted);
    lemma_nothing_planned(wanted, found, master.object_id, replacements, config);
    let matched = ids_at(replacements, found);
    assert forall|i: int| 0 <= i < n implies matched.contains(
        (#[trigger] replacements[i])@.object_id,
    ) by {
        assert(found.contains(i));
        let k = choose|k: int| 0 <= k < found.len() && found[k] == i;
        assert(matched[k] == replacements[i]@.object_id);
    }
    lemma_all_matched(replacements, matched);
}

} // verus!
