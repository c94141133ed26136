//! Tasks as calendars show them.
//!
//! A calendar shows a task at one date, with a start before it where there are two. What
//! stands where is decided here, and is needed again when a client sends the task back.
use vstd::prelude::*;

use crate::config::{CalendarConfig, RemindersConfig};
use crate::events;
use crate::fold;
use crate::ical;
use crate::ical::{Line, LineView, Part, PartView, WireDate, WireView};
use crate::locale::Language;
use crate::model::{CalendarValue, Task};
use crate::reminder;
use crate::reminder::ReminderMoment;
use crate::text;
use crate::text::Text;
use crate::time;
use crate::time::{Instant, When, Zone};
use crate::writeback;
use crate::writeback::{Origin, Wire};

verus! {

/// The dates that a task is sent with, and whether its deadline is told in words
/// instead.
#[verifier::ext_equal]
pub struct SentView {
    pub start: Option<(WireView, Origin)>,
    pub due: Option<(WireView, Origin)>,
    pub described: bool,
}

pub open spec fn sent_view(sent: Option<(WireDate, Origin)>) -> Option<(WireView, Origin)> {
    match sent {
        Some((date, origin)) => Some((date@, origin)),
        None => None,
    }
}

/// A date of the calendar on the wire.
pub open spec fn plain(value: When) -> WireView {
    events::wired(value, None)
}

/// A task that is sent with its plan alone.
pub open spec fn plan_alone(scheduled: When) -> SentView {
    SentView { start: None, due: Some((plain(scheduled), Origin::Scheduled)), described: true }
}

/// A task that is sent with a start and a due date.
pub open spec fn plan_and_deadline(start: WireView, due: WireView) -> SentView {
    SentView {
        start: Some((start, Origin::Scheduled)),
        due: Some((due, Origin::Deadline)),
        described: false,
    }
}

/// What a plan and a deadline are sent as. The two are of one kind on the wire: a whole
/// day beside a moment is its first second as a plan, and its last as a deadline. A
/// deadline that is not behind the plan cannot be shown and is described.
pub open spec fn both_sent(scheduled: When, deadline: When, zone: Text) -> SentView {
    if scheduled == deadline {
        SentView { start: None, due: Some((plain(deadline), Origin::Both)), described: false }
    } else {
        match (scheduled, deadline) {
            (When::Day(a), When::Day(b)) => if a < b {
                plan_and_deadline(plain(scheduled), plain(deadline))
            } else {
                plan_alone(scheduled)
            },
            (When::At(a, x), When::At(b, y)) => if a * 1_000_000_000 + x < b * 1_000_000_000 + y {
                plan_and_deadline(plain(scheduled), plain(deadline))
            } else {
                plan_alone(scheduled)
            },
            (When::At(a, _), When::Day(b)) => match time::first_moment(zone, b * 86_400 + 86_399) {
                Some(last) => if time::day_of(time::local_at(zone, a)) < b {
                    plan_and_deadline(plain(scheduled), WireView::Utc(last, 0))
                } else {
                    plan_alone(scheduled)
                },
                None => plan_alone(scheduled),
            },
            (When::Day(a), When::At(b, y)) => match time::first_moment(zone, a * 86_400) {
                Some(first) => if first * 1_000_000_000 < b * 1_000_000_000 + y {
                    plan_and_deadline(WireView::Utc(first, 0), plain(deadline))
                } else {
                    plan_alone(scheduled)
                },
                None => plan_alone(scheduled),
            },
        }
    }
}

/// What the dates of a task are sent as.
pub open spec fn sent(scheduled: Option<When>, deadline: Option<When>, zone: Text) -> SentView {
    match (scheduled, deadline) {
        (None, None) => SentView { start: None, due: None, described: false },
        (Some(value), None) => SentView {
            start: None,
            due: Some((plain(value), Origin::Scheduled)),
            described: false,
        },
        (None, Some(value)) => SentView {
            start: None,
            due: Some((plain(value), Origin::Deadline)),
            described: false,
        },
        (Some(scheduled), Some(deadline)) => both_sent(scheduled, deadline, zone),
    }
}

/// What a task is sent as.
pub open spec fn sent_of(task: Task, config: CalendarConfig) -> SentView {
    sent(
        writeback::property_value(task.scheduled, config.date_only_timezone@),
        writeback::property_value(task.deadline, config.date_only_timezone@),
        config.timezone@,
    )
}

/// Whether a start that is sent is another moment than the due date beside it, so that
/// a client which sends both back changes nothing.
pub open spec fn apart(wire: Wire) -> bool {
    match (wire.start, wire.due) {
        (Some((start, _)), Some((due, _))) => match (start@, due@) {
            (WireView::Date(a), WireView::Date(b)) => a != b,
            (WireView::Utc(a, x), WireView::Utc(b, y)) => a != b || x != y,
            _ => false,
        },
        (Some(_), None) => false,
        (None, _) => true,
    }
}

fn alone(scheduled: CalendarValue) -> (r: (Wire, bool))
    ensures
        sent_view(r.0.start) is None,
        sent_view(r.0.due) == plan_alone(scheduled@).due,
        r.1,
        apart(r.0),
{
    let due = events::wire_value(scheduled, None);
    (Wire { start: None, due: Some((due, Origin::Scheduled)) }, true)
}

fn together(start: WireDate, due: WireDate) -> (r: (Wire, bool))
    ensures
        sent_view(r.0.start) == plan_and_deadline(start@, due@).start,
        sent_view(r.0.due) == plan_and_deadline(start@, due@).due,
        !r.1,
        r.0.start is Some && r.0.due is Some,
{
    (Wire { start: Some((start, Origin::Scheduled)), due: Some((due, Origin::Deadline)) }, false)
}

fn send_both(scheduled: CalendarValue, deadline: CalendarValue, zone: &Zone) -> (r: (Wire, bool))
    ensures
        ({
            let wanted = both_sent(scheduled@, deadline@, zone@);
            &&& sent_view(r.0.start) == wanted.start
            &&& sent_view(r.0.due) == wanted.due
            &&& r.1 == wanted.described
        }),
        apart(r.0),
{
    match (scheduled, deadline) {
        (CalendarValue::AllDay(a), CalendarValue::AllDay(b)) => {
            if a.number() == b.number() {
                let due = events::wire_value(deadline, None);
                (Wire { start: None, due: Some((due, Origin::Both)) }, false)
            } else if a.number() < b.number() {
                together(events::wire_value(scheduled, None), events::wire_value(deadline, None))
            } else {
                alone(scheduled)
            }
        },
        (CalendarValue::Instant(a), CalendarValue::Instant(b)) => {
            if a.seconds() == b.seconds() && a.nanos() == b.nanos() {
                let due = events::wire_value(deadline, None);
                (Wire { start: None, due: Some((due, Origin::Both)) }, false)
            } else if a.in_nanos() < b.in_nanos() {
                together(events::wire_value(scheduled, None), events::wire_value(deadline, None))
            } else {
                alone(scheduled)
            }
        },
        (CalendarValue::Instant(a), CalendarValue::AllDay(b)) => {
            match zone.earliest_of(b, 86_399) {
                Some(last) => {
                    let (day, _) = zone.show(a);
                    if day.number() < b.number() {
                        together(events::wire_value(scheduled, None), WireDate::Utc(last))
                    } else {
                        alone(scheduled)
                    }
                },
                None => alone(scheduled),
            }
        },
        (CalendarValue::AllDay(a), CalendarValue::Instant(b)) => match zone.earliest_of(a, 0) {
            Some(first) => if first.in_nanos() < b.in_nanos() {
                together(WireDate::Utc(first), events::wire_value(deadline, None))
            } else {
                alone(scheduled)
            },
            None => alone(scheduled),
        },
    }
}

/// What a task is sent as, and whether its deadline is told in words instead.
pub fn wire_with_words(task: &Task, config: &CalendarConfig) -> (r: (Wire, bool))
    ensures
        sent_view(r.0.start) == sent_of(*task, *config).start,
        sent_view(r.0.due) == sent_of(*task, *config).due,
        r.1 == sent_of(*task, *config).described,
        apart(r.0),
{
    let zone = &config.date_only_timezone;
    let scheduled = writeback::classify_property(&task.scheduled, zone);
    let deadline = writeback::classify_property(&task.deadline, zone);
    match (scheduled, deadline) {
        (None, None) => (Wire { start: None, due: None }, false),
        (Some(value), None) => {
            let due = events::wire_value(value, None);
            (Wire { start: None, due: Some((due, Origin::Scheduled)) }, false)
        },
        (None, Some(value)) => {
            let due = events::wire_value(value, None);
            (Wire { start: None, due: Some((due, Origin::Deadline)) }, false)
        },
        (Some(scheduled), Some(deadline)) => send_both(scheduled, deadline, &config.timezone),
    }
}

/// What a task is sent as.
pub fn wire(task: &Task, config: &CalendarConfig) -> (r: Wire)
    ensures
        sent_view(r.start) == sent_of(*task, *config).start,
        sent_view(r.due) == sent_of(*task, *config).due,
        apart(r),
{
    wire_with_words(task, config).0
}

/// The deadline in words, as a task's description tells it.
pub open spec fn deadline_words(deadline: When, zone: Text, language: Language) -> Text {
    let (day, clock) = match deadline {
        When::Day(day) => (day, Seq::<char>::empty()),
        When::At(second, _) => {
            let local = time::local_at(zone, second);
            (time::day_of(local), " "@ + time::clock_text(time::clock_of(local)))
        },
    };
    language.deadline_front() + (language.day_text(day) + clock)
}

/// What stands behind the words for a deadline.
pub open spec fn link_behind(url: Option<Text>) -> Text {
    match url {
        Some(url) => "\n"@ + url,
        None => Seq::empty(),
    }
}

/// Words for a deadline on a day that is written in so many characters, and what stands
/// behind them.
pub open spec fn sample(language: Language, length: int, timed: bool, url: Option<Text>) -> Text {
    let clock = if timed {
        " 00:00"@
    } else {
        Seq::empty()
    };
    language.deadline_front() + Seq::new(length as nat, |i: int| '0') + clock + link_behind(url)
}

/// Whether the words for a deadline fold, on whatever day it is.
pub open spec fn deadline_folds(language: Language, url: Option<Text>) -> bool {
    forall|length: int, timed: bool|
        10 <= length <= 13 ==> ical::text_folds(
            "DESCRIPTION"@,
            #[trigger] sample(language, length, timed, url),
        )
}

/// Words for a deadline fold as those on any other day that is as long.
#[verifier::spinoff_prover]
proof fn lemma_deadline_folds(language: Language, day: Text, clock: Text, url: Option<Text>)
    requires
        10 <= day.len() <= 13,
        fold::plain(day),
        clock.len() == 0 || clock.len() == 5 && fold::plain(clock),
        deadline_folds(language, url),
    ensures
        ical::text_folds(
            "DESCRIPTION"@,
            language.deadline_front() + (day + if clock.len() == 0 {
                clock
            } else {
                " "@ + clock
            }) + link_behind(url),
        ),
{
    let front = language.deadline_front();
    let end = link_behind(url);
    let zeros = Seq::new(day.len(), |i: int| '0');
    let timed = clock.len() > 0;
    reveal_strlit(" ");
    reveal_strlit(" 00:00");
    let noon = seq!['0', '0', ':', '0', '0'];
    let (a, b) = if timed {
        (" "@ + clock, " "@ + noon)
    } else {
        (Seq::<char>::empty(), Seq::<char>::empty())
    };
    assert(" 00:00"@ =~= " "@ + noon);
    assert(fold::plain(zeros));
    assert(fold::plain(noon));
    fold::lemma_plain_alike(day, zeros);
    assert(fold::alike(a, b)) by {
        if timed {
            fold::lemma_plain_alike(clock, noon);
            fold::lemma_alike_sum(" "@, " "@, clock, noon);
        }
    }
    assert(ical::escaped(a) == a && ical::escaped(b) == b) by {
        if timed {
            ical::lemma_escaped_plain(clock);
            ical::lemma_escaped_plain(noon);
            ical::lemma_escaped_sum(" "@, clock);
            ical::lemma_escaped_sum(" "@, noon);
            assert(" "@.drop_last() == Seq::<char>::empty());
            assert(ical::escaped(" "@.drop_last()) == Seq::<char>::empty());
            assert(ical::escaped(" "@) =~= " "@);
        }
    }
    ical::lemma_escaped_plain(day);
    ical::lemma_escaped_plain(zeros);
    let said = front + day + a + end;
    let shown = front + zeros + b + end;
    assert(front + (day + a) + end =~= said);
    assert(shown == sample(language, day.len() as int, timed, url));
    ical::lemma_escaped_sum(front, day);
    ical::lemma_escaped_sum(front + day, a);
    ical::lemma_escaped_sum(front + day + a, end);
    ical::lemma_escaped_sum(front, zeros);
    ical::lemma_escaped_sum(front + zeros, b);
    ical::lemma_escaped_sum(front + zeros + b, end);
    let x = ical::escaped(front);
    let z = ical::escaped(end);
    fold::lemma_alike_sum(x, x, day, zeros);
    fold::lemma_alike_sum(x + day, x + zeros, a, b);
    fold::lemma_alike_sum(x + day + a, x + zeros + b, z, z);
    let key = "DESCRIPTION"@ + ":"@;
    fold::lemma_alike_sum(key, key, ical::escaped(said), ical::escaped(shown));
    fold::lemma_alike(
        ical::line_text("DESCRIPTION"@, said),
        ical::line_text("DESCRIPTION"@, shown),
    );
    assert(ical::text_folds("DESCRIPTION"@, sample(language, day.len() as int, timed, url)));
}

fn say_deadline(deadline: CalendarValue, zone: &Zone, language: Language) -> (r: String)
    ensures
        r@ == deadline_words(deadline@, zone@, language),
        forall|url: Option<Text>|
            deadline_folds(language, url) ==> ical::text_folds(
                "DESCRIPTION"@,
                r@ + #[trigger] link_behind(url),
            ),
{
    match deadline {
        CalendarValue::AllDay(day) => {
            let r = language.deadline_line(day, None);
            proof {
                let day = language.day_text(day.nth());
                let none = Seq::<char>::empty();
                assert(day + none =~= day);
                assert forall|url: Option<Text>| deadline_folds(language, url) implies
                    ical::text_folds("DESCRIPTION"@, r@ + #[trigger] link_behind(url)) by {
                    lemma_deadline_folds(language, day, none, url);
                }
            }
            r
        },
        CalendarValue::Instant(at) => {
            let (day, clock) = zone.show(at);
            let label = time::clock_label(clock);
            let r = language.deadline_line(day, Some(label.as_str()));
            proof {
                let day = language.day_text(day.nth());
                assert(day + " "@ + label@ =~= day + (" "@ + label@));
                time::lemma_clock_words(clock as int);
                assert forall|url: Option<Text>| deadline_folds(language, url) implies
                    ical::text_folds("DESCRIPTION"@, r@ + #[trigger] link_behind(url)) by {
                    lemma_deadline_folds(language, day, label@, url);
                }
            }
            r
        },
    }
}

/// What stands in the description of a task: a deadline that is not shown, and the link
/// to the object.
pub open spec fn description_of(task: Task, config: CalendarConfig) -> Option<Text> {
    let deadline = writeback::property_value(task.deadline, config.date_only_timezone@);
    let said = deadline_words(deadline->0, config.timezone@, config.language);
    match (sent_of(task, config).described, task.object_url) {
        (true, Some(url)) => Some(said + "\n"@ + url@),
        (true, None) => Some(said),
        (false, Some(url)) => Some(url@),
        (false, None) => None,
    }
}

/// The lines of an alarm at a moment.
pub open spec fn alarm_at(name: Text, owner: Text, index: int, second: int, modified: int) -> Seq<
    LineView,
> {
    Seq::<LineView>::empty().push(ical::line_of("ACTION"@, "DISPLAY"@, Seq::empty())).push(
        ical::line_of("DESCRIPTION"@, name, Seq::empty()),
    ).push(
        ical::line_of(
            "TRIGGER"@,
            events::stamp_text(second),
            seq![("VALUE"@, "DATE-TIME"@)],
        ),
    ).push(
        ical::line_of("UID"@, owner + "-"@ + text::decimal(index as nat), Seq::empty()),
    ).push(ical::line_of("DTSTAMP"@, events::stamp_text(modified), Seq::empty()))
}

/// Whether the moment of a reminder is within reach.
pub open spec fn reachable(trigger_at: int) -> bool {
    time::FIRST_SECOND <= trigger_at / 1_000_000_000 <= time::LAST_SECOND
}

/// The alarms of a task's reminders, but for those that are out of reach.
pub open spec fn alarms_at(
    name: Text,
    owner: Text,
    moments: Seq<ReminderMoment>,
    modified: int,
) -> Seq<Seq<LineView>>
    decreases moments.len(),
{
    if moments.len() == 0 {
        seq![]
    } else {
        let before = alarms_at(name, owner, moments.drop_last(), modified);
        let at = moments.last().trigger_at as int;
        if reachable(at) {
            before.push(
                alarm_at(name, owner, moments.len() - 1, at / 1_000_000_000, modified),
            )
        } else {
            before
        }
    }
}

/// When a task was last changed, as far as is known.
pub open spec fn modified_at(task: Task, fallback: Instant) -> int {
    match task.last_modified {
        Some(at) => at.second(),
        None => fallback.second(),
    }
}

/// A date that is sent.
pub open spec fn date_of(sent: Option<(WireView, Origin)>) -> Option<WireView> {
    match sent {
        Some((date, _)) => Some(date),
        None => None,
    }
}

/// One VTODO.
pub open spec fn todo_of(
    task: Task,
    moments: Seq<ReminderMoment>,
    config: CalendarConfig,
    fallback: Instant,
) -> PartView {
    let modified = modified_at(task, fallback);
    let dates = sent_of(task, config);
    let (status, percent) = if task.done {
        ("COMPLETED"@, "100"@)
    } else {
        ("NEEDS-ACTION"@, "0"@)
    };
    let head = events::head_of(task.spec_uid(), task.name@, modified);
    let stated = ical::with_line(head, ical::text_under("STATUS"@, Some(status)));
    let measured = ical::with_line(stated, ical::text_under("PERCENT-COMPLETE"@, Some(percent)));
    let started = ical::with_line(measured, ical::date_under("DTSTART"@, date_of(dates.start)));
    let due = ical::with_line(started, ical::date_under("DUE"@, date_of(dates.due)));
    let url = text::text_of(task.object_url);
    let linked = ical::with_line(due, ical::text_under("URL"@, url));
    let words = description_of(task, config);
    PartView {
        once: ical::with_line(linked, ical::text_under("DESCRIPTION"@, words)),
        many: ical::category_lines(text::texts(task.tags@)),
        alarms: alarms_at(task.name@, task.spec_uid(), moments, modified),
    }
}

fn alarm_for(name: &str, owner: &str, index: usize, at: Instant, modified: Instant) -> (r: Vec<Line>)
    ensures
        ical::lines(r@) == alarm_at(name@, owner@, index as int, at.second(), modified.second()),
{
    let mut r: Vec<Line> = Vec::new();
    assert(ical::lines(r@) == Seq::<LineView>::empty());
    ical::put_line(&mut r, "ACTION", "DISPLAY".to_owned());
    ical::put_line(&mut r, "DESCRIPTION", name.to_owned());
    let ghost before = r@;
    let mut params: Vec<(String, String)> = Vec::new();
    params.push(("VALUE".to_owned(), "DATE-TIME".to_owned()));
    assert(ical::pairs(params@) == seq![("VALUE"@, "DATE-TIME"@)]);
    let trigger = Line {
        part: String::new(),
        multi: false,
        key: "TRIGGER".to_owned(),
        value: events::stamp_of(at),
        params,
    };
    r.push(trigger);
    assert(ical::lines(r@) == ical::lines(before).push(trigger@));
    let mut uid = owner.to_owned();
    uid.append("-");
    uid.append(text::number(index as u64).as_str());
    ical::put_line(&mut r, "UID", uid);
    ical::put_line(&mut r, "DTSTAMP", events::stamp_of(modified));
    r
}

fn alarms_for(
    name: &str,
    owner: &str,
    moments: &Vec<ReminderMoment>,
    modified: Instant,
) -> (r: Vec<Vec<Line>>)
    ensures
        ical::components(r@) == alarms_at(name@, owner@, moments@, modified.second()),
{
    let mut r: Vec<Vec<Line>> = Vec::new();
    assert(ical::components(r@) == Seq::<Seq<LineView>>::empty());
    let mut i: usize = 0;
    while i < moments.len()
        invariant
            i <= moments@.len(),
            ical::components(r@) == alarms_at(
                name@,
                owner@,
                moments@.take(i as int),
                modified.second(),
            ),
        decreases moments@.len() - i,
    {
        assert(moments@.take(i + 1).drop_last() == moments@.take(i as int));
        assert(moments@.take(i + 1).last() == moments@[i as int]);
        let total = moments[i].trigger_at;
        if total >= -20_000_000_000_000_000_000_000_000 && total
            <= 20_000_000_000_000_000_000_000_000 {
            if let Some(at) = time::instant_at(total) {
                let ghost before = r@;
                let alarm = alarm_for(name, owner, i, at, modified);
                r.push(alarm);
                assert(ical::components(r@) == ical::components(before).push(
                    ical::lines(alarm@),
                ));
            }
        }
        i += 1;
    }
    assert(moments@.take(moments@.len() as int) == moments@);
    r
}

fn describe(task: &Task, described: bool, config: &CalendarConfig) -> (r: Option<String>)
    requires
        described == sent_of(*task, *config).described,
    ensures
        text::text_of(r) == description_of(*task, *config),
        task_folds(*task, config.language) ==> ical::text_folds_if_any(
            "DESCRIPTION"@,
            text::text_of(r),
        ),
{
    let ghost url = text::text_of(task.object_url);
    if described {
        let deadline = writeback::classify_property(&task.deadline, &config.date_only_timezone);
        if let Some(value) = deadline {
            let mut words = say_deadline(value, &config.timezone, config.language);
            let ghost said = words@;
            if let Some(url) = &task.object_url {
                words.append("\n");
                words.append(url.as_str());
            }
            assert(words@ =~= said + link_behind(url));
            return Some(words);
        }
    }
    text::copy_text(&task.object_url)
}

proof fn lemma_alarms_stamped(
    name: Text,
    owner: Text,
    moments: Seq<ReminderMoment>,
    modified: int,
)
    ensures
        forall|j: int|
            0 <= j < alarms_at(name, owner, moments, modified).len() ==> ical::stamped(
                #[trigger] alarms_at(name, owner, moments, modified)[j],
            ),
    decreases moments.len(),
{
    if moments.len() > 0 {
        lemma_alarms_stamped(name, owner, moments.drop_last(), modified);
        let all = alarms_at(name, owner, moments, modified);
        let before = alarms_at(name, owner, moments.drop_last(), modified);
        assert forall|j: int| 0 <= j < all.len() implies ical::stamped(#[trigger] all[j]) by {
            if j < before.len() {
                assert(all[j] == before[j]);
            } else {
                assert(all[j][3].key == "UID"@);
                assert(all[j][4].key == "DTSTAMP"@);
            }
        }
    }
}

fn todo_for(
    task: &Task,
    moments: &Vec<ReminderMoment>,
    config: &CalendarConfig,
    fallback: Instant,
) -> (r: Part)
    ensures
        r@ == todo_of(*task, moments@, *config, fallback),
        ical::stamped(r@.once),
        forall|j: int| 0 <= j < r@.alarms.len() ==> ical::stamped(#[trigger] r@.alarms[j]),
        task_folds(*task, config.language) ==> ical::text_folds_if_any(
            "DESCRIPTION"@,
            description_of(*task, *config),
        ),
{
    let modified = match task.last_modified {
        Some(at) => at,
        None => fallback,
    };
    let uid = task.uid();
    let mut once: Vec<Line> = Vec::new();
    assert(ical::lines(once@) == Seq::<LineView>::empty());
    ical::put_line(&mut once, "UID", uid.clone());
    ical::put_line(&mut once, "SUMMARY", task.name.clone());
    ical::put_line(&mut once, "DTSTAMP", events::stamp_of(modified));
    ical::put_line(&mut once, "SEQUENCE", text::number(events::sequence_for(modified) as u64));
    let (status, percent) = if task.done {
        ("COMPLETED", "100")
    } else {
        ("NEEDS-ACTION", "0")
    };
    ical::put_line(&mut once, "STATUS", status.to_owned());
    ical::put_line(&mut once, "PERCENT-COMPLETE", percent.to_owned());
    let (dates, described) = wire_with_words(task, config);
    if let Some((date, _)) = &dates.start {
        events::push_date(&mut once, "DTSTART", date);
    }
    if let Some((date, _)) = &dates.due {
        events::push_date(&mut once, "DUE", date);
    }
    if let Some(url) = &task.object_url {
        ical::put_line(&mut once, "URL", url.clone());
    }
    if let Some(words) = describe(task, described, config) {
        ical::put_line(&mut once, "DESCRIPTION", words);
    }
    assert(ical::lines(once@)[0].key == "UID"@);
    assert(ical::lines(once@)[2].key == "DTSTAMP"@);
    let many = events::categories_of(&task.tags);
    let alarms = alarms_for(task.name.as_str(), uid.as_str(), moments, modified);
    proof {
        lemma_alarms_stamped(task.name@, uid@, moments@, modified.second());
    }
    Part { once, many, alarms }
}

/// Whether a task can be written: its lines fold, as many alarms as it may have and the
/// words for its deadline among them.
pub open spec fn task_folds(task: Task, language: Language) -> bool {
    let url = text::text_of(task.object_url);
    &&& ical::text_folds("UID"@, task.spec_uid())
    &&& ical::text_folds("SUMMARY"@, task.name@)
    &&& ical::text_folds_if_any("URL"@, url)
    &&& ical::text_folds_if_any("DESCRIPTION"@, url)
    &&& task.scheduled is Some && task.deadline is Some ==> deadline_folds(language, url)
    &&& ical::texts_fold("CATEGORIES"@, text::texts(task.tags@))
    &&& reminder::most_reminders(task) > 0 ==> ical::text_folds("DESCRIPTION"@, task.name@)
    &&& ical::numbers_fold(task.spec_uid(), reminder::most_reminders(task))
}

/// Whether some tasks can all be written.
pub open spec fn tasks_fold(tasks: Seq<Task>, language: Language) -> bool {
    forall|i: int| 0 <= i < tasks.len() ==> task_folds(#[trigger] tasks[i], language)
}

fn can_say_deadline(language: Language, url: &Option<String>) -> (r: bool)
    ensures
        r == deadline_folds(language, text::text_of(*url)),
{
    let ghost link = text::text_of(*url);
    let mut zeros: String = "0000000000".to_owned();
    proof {
        reveal_strlit("0000000000");
        reveal_strlit("0");
        assert(zeros@ =~= Seq::new(10, |i: int| '0'));
    }
    let mut length: usize = 10;
    while length <= 13
        invariant
            10 <= length <= 14,
            link == text::text_of(*url),
            zeros@ == Seq::new(length as nat, |i: int| '0'),
            "0"@ == seq!['0'],
            forall|n: int, timed: bool|
                10 <= n < length ==> ical::text_folds(
                    "DESCRIPTION"@,
                    #[trigger] sample(language, n, timed, link),
                ),
        decreases 14 - length,
    {
        let mut day = text::glue(language.deadline_word(), zeros.as_str());
        let mut moment = text::glue(day.as_str(), " 00:00");
        if let Some(url) = url {
            day.append("\n");
            day.append(url.as_str());
            moment.append("\n");
            moment.append(url.as_str());
        }
        assert(day@ =~= sample(language, length as int, false, link));
        assert(moment@ =~= sample(language, length as int, true, link));
        if !ical::can_write_text("DESCRIPTION", day.as_str()) || !ical::can_write_text(
            "DESCRIPTION",
            moment.as_str(),
        ) {
            return false;
        }
        zeros.append("0");
        length += 1;
        assert(zeros@ =~= Seq::new(length as nat, |i: int| '0'));
    }
    true
}

/// Whether a task can be written.
pub fn can_write(task: &Task, language: Language) -> (r: bool)
    ensures
        r == task_folds(*task, language),
{
    let uid = task.uid();
    let count: usize = reminder::reminders_at_most(task);
    ical::can_write_text("UID", uid.as_str()) && ical::can_write_text("SUMMARY", task.name.as_str())
        && ical::can_write_if_any("URL", &task.object_url) && ical::can_write_if_any(
        "DESCRIPTION",
        &task.object_url,
    ) && (task.scheduled.is_none() || task.deadline.is_none() || can_say_deadline(
        language,
        &task.object_url,
    )) && ical::can_write_texts("CATEGORIES", &task.tags) && (count == 0 || ical::can_write_text(
        "DESCRIPTION",
        task.name.as_str(),
    )) && ical::can_number(uid.as_str(), count)
}

proof fn lemma_stamp_figures(second: int)
    ensures
        ical::figures(events::stamp_text(second)),
{
    ical::lemma_compact_figures(0, second);
}

proof fn lemma_alarms_fold(
    name: Text,
    owner: Text,
    moments: Seq<ReminderMoment>,
    modified: int,
    count: int,
)
    requires
        moments.len() <= count,
        count > 0 ==> ical::text_folds("DESCRIPTION"@, name),
        ical::numbers_fold(owner, count),
    ensures
        forall|j: int|
            0 <= j < alarms_at(name, owner, moments, modified).len() ==> ical::lines_fold(
                #[trigger] alarms_at(name, owner, moments, modified)[j],
            ),
    decreases moments.len(),
{
    if moments.len() > 0 {
        lemma_alarms_fold(name, owner, moments.drop_last(), modified, count);
        let all = alarms_at(name, owner, moments, modified);
        let before = alarms_at(name, owner, moments.drop_last(), modified);
        assert forall|j: int| 0 <= j < all.len() implies ical::lines_fold(#[trigger] all[j]) by {
            if j < before.len() {
                assert(all[j] == before[j]);
            } else {
                let index = moments.len() - 1;
                let second = moments.last().trigger_at as int / 1_000_000_000;
                let trigger = ical::line_of(
                    "TRIGGER"@,
                    events::stamp_text(second),
                    seq![("VALUE"@, "DATE-TIME"@)],
                );
                ical::lemma_ascii_keys();
                lemma_stamp_figures(second);
                lemma_stamp_figures(modified);
                ical::lemma_figures_ascii(events::stamp_text(second));
                assert(ical::line_folds(trigger));
                ical::lemma_alarm_folds(
                    name,
                    trigger,
                    ical::numbered(owner, index),
                    events::stamp_text(modified),
                );
            }
        }
    }
}

/// What is written of a task whose lines fold does.
proof fn lemma_todo_folds(
    task: Task,
    moments: Seq<ReminderMoment>,
    config: CalendarConfig,
    fallback: Instant,
)
    requires
        task_folds(task, config.language),
        moments.len() <= reminder::most_reminders(task),
        ical::text_folds_if_any("DESCRIPTION"@, description_of(task, config)),
    ensures
        ical::part_folds(todo_of(task, moments, config, fallback)),
{
    let modified = modified_at(task, fallback);
    let dates = sent_of(task, config);
    let (status, percent) = if task.done {
        ("COMPLETED"@, "100"@)
    } else {
        ("NEEDS-ACTION"@, "0"@)
    };
    let uid = task.spec_uid();
    let url = text::text_of(task.object_url);
    let words = description_of(task, config);
    ical::lemma_ascii_keys();
    lemma_stamp_figures(modified);
    ical::lemma_decimal_figures(events::revision(modified) as nat);
    ical::lemma_head_folds(
        uid,
        task.name@,
        events::stamp_text(modified),
        text::decimal(events::revision(modified) as nat),
    );
    let head = events::head_of(uid, task.name@, modified);
    let stated = ical::with_line(head, ical::text_under("STATUS"@, Some(status)));
    let measured = ical::with_line(stated, ical::text_under("PERCENT-COMPLETE"@, Some(percent)));
    let started = ical::with_line(measured, ical::date_under("DTSTART"@, date_of(dates.start)));
    let due = ical::with_line(started, ical::date_under("DUE"@, date_of(dates.due)));
    let linked = ical::with_line(due, ical::text_under("URL"@, url));
    ical::lemma_lines_fold(head, ical::text_under("STATUS"@, Some(status)));
    ical::lemma_lines_fold(stated, ical::text_under("PERCENT-COMPLETE"@, Some(percent)));
    if let Some(date) = date_of(dates.start) {
        ical::lemma_date_folds("DTSTART"@, date);
    }
    ical::lemma_lines_fold(measured, ical::date_under("DTSTART"@, date_of(dates.start)));
    if let Some(date) = date_of(dates.due) {
        ical::lemma_date_folds("DUE"@, date);
    }
    ical::lemma_lines_fold(started, ical::date_under("DUE"@, date_of(dates.due)));
    ical::lemma_lines_fold(due, ical::text_under("URL"@, url));
    ical::lemma_lines_fold(linked, ical::text_under("DESCRIPTION"@, words));
    ical::lemma_categories_fold(text::texts(task.tags@));
    lemma_alarms_fold(task.name@, uid, moments, modified, reminder::most_reminders(task));
}

/// The VTODOs of tasks with these reminders.
pub open spec fn todos_of(
    tasks: Seq<Task>,
    moments: Seq<Seq<ReminderMoment>>,
    config: CalendarConfig,
    fallback: Instant,
) -> Seq<PartView> {
    Seq::new(tasks.len(), |i: int| todo_of(tasks[i], moments[i], config, fallback))
}

/// Whether a text is that of a document with these tasks and their reminders. It ends with
/// a line break, and plain lines are read from it as they were written.
pub open spec fn rendered_with(
    tasks: Seq<Task>,
    moments: Seq<Seq<ReminderMoment>>,
    r: Text,
    config: CalendarConfig,
    reminders: RemindersConfig,
    fallback: Instant,
) -> bool {
    let todos = todos_of(tasks, moments, config, fallback);
    &&& moments.len() == tasks.len()
    &&& forall|i: int|
        0 <= i < tasks.len() ==> reminder::reminders_of(
            #[trigger] moments[i],
            tasks[i],
            config,
            reminders,
        )
    &&& r == ical::todos_text(config.name@, config.timezone@, todos)
    &&& r.len() > 0 && r.last() == '\n'
    &&& ical::plain_document(config.name@, config.timezone@, todos) ==> ical::read_back(
        ical::todos_in(r),
        todos,
    )
}

/// Whether a text is that of a document with these tasks, with the reminders of each.
pub open spec fn rendered(
    tasks: Seq<Task>,
    r: Text,
    config: CalendarConfig,
    reminders: RemindersConfig,
    fallback: Instant,
) -> bool {
    exists|moments: Seq<Seq<ReminderMoment>>|
        rendered_with(tasks, moments, r, config, reminders, fallback)
}

proof fn lemma_same_alarms(
    name: Text,
    owner: Text,
    a: Seq<ReminderMoment>,
    b: Seq<ReminderMoment>,
    modified: int,
)
    requires
        reminder::due_at(a) == reminder::due_at(b),
    ensures
        alarms_at(name, owner, a, modified) == alarms_at(name, owner, b, modified),
    decreases a.len(),
{
    assert(reminder::due_at(a).len() == a.len());
    assert(reminder::due_at(b).len() == b.len());
    if a.len() > 0 {
        assert(reminder::due_at(a)[a.len() - 1] == reminder::due_at(b)[b.len() - 1]);
        assert(reminder::due_at(a.drop_last()) == reminder::due_at(a).drop_last());
        assert(reminder::due_at(b.drop_last()) == reminder::due_at(b).drop_last());
        lemma_same_alarms(name, owner, a.drop_last(), b.drop_last(), modified);
    }
}

/// The same tasks are always rendered as the same text, so that a tag which was served
/// is that of a fresh rendering as long as nothing changed.
pub proof fn law_rendering_is_determined(
    tasks: Seq<Task>,
    a: Text,
    b: Text,
    config: CalendarConfig,
    reminders: RemindersConfig,
    fallback: Instant,
)
    requires
        rendered(tasks, a, config, reminders, fallback),
        rendered(tasks, b, config, reminders, fallback),
    ensures
        a == b,
{
    let x = choose|moments: Seq<Seq<ReminderMoment>>|
        rendered_with(tasks, moments, a, config, reminders, fallback);
    let y = choose|moments: Seq<Seq<ReminderMoment>>|
        rendered_with(tasks, moments, b, config, reminders, fallback);
    assert(todos_of(tasks, x, config, fallback) =~= todos_of(tasks, y, config, fallback)) by {
        assert forall|i: int| 0 <= i < tasks.len() implies todo_of(
            tasks[i],
            x[i],
            config,
            fallback,
        ) == todo_of(tasks[i], y[i], config, fallback) by {
            reminder::law_reminders_are_determined(x[i], y[i], tasks[i], config, reminders);
            lemma_same_alarms(
                tasks[i].name@,
                tasks[i].spec_uid(),
                x[i],
                y[i],
                modified_at(tasks[i], fallback),
            );
        }
    }
}

/// The text of a document with tasks.
pub fn render(
    tasks: &Vec<&Task>,
    config: &CalendarConfig,
    reminders: &RemindersConfig,
    fallback: Instant,
) -> (r: String)
    requires
        reminders.all_day_time < 86_400,
        tasks_fold(Seq::new(tasks@.len(), |i: int| *tasks@[i]), config.language),
        ical::name_folds(config.name@),
    ensures
        rendered(
            Seq::new(tasks@.len(), |i: int| *tasks@[i]),
            r@,
            *config,
            *reminders,
            fallback,
        ),
{
    let ghost all = Seq::new(tasks@.len(), |i: int| *tasks@[i]);
    let ghost mut moments: Seq<Seq<ReminderMoment>> = Seq::empty();
    let mut list: Vec<Part> = Vec::new();
    let mut i: usize = 0;
    while i < tasks.len()
        invariant
            i <= tasks@.len(),
            reminders.all_day_time < 86_400,
            all == Seq::new(tasks@.len(), |i: int| *tasks@[i]),
            tasks_fold(all, config.language),
            moments.len() == i,
            list@.len() == i,
            forall|j: int|
                0 <= j < i ==> reminder::reminders_of(
                    #[trigger] moments[j],
                    all[j],
                    *config,
                    *reminders,
                ),
            forall|j: int|
                0 <= j < i ==> (#[trigger] list@[j])@ == todo_of(
                    all[j],
                    moments[j],
                    *config,
                    fallback,
                ),
            ical::all_stamped(ical::parts(list@)),
            forall|j: int| 0 <= j < i ==> ical::part_folds(#[trigger] ical::parts(list@)[j]),
        decreases tasks@.len() - i,
    {
        let found = reminder::reminders_for(tasks[i], config, reminders);
        let ghost before = list@;
        let part = todo_for(tasks[i], &found, config, fallback);
        list.push(part);
        proof {
            assert(task_folds(all[i as int], config.language));
            reminder::lemma_most_reminders(found@, all[i as int], *config, *reminders);
            lemma_todo_folds(all[i as int], found@, *config, fallback);
            moments = moments.push(found@);
            assert(ical::parts(list@) == ical::parts(before).push(part@));
        }
        i += 1;
    }
    assert(ical::parts(list@) =~= todos_of(all, moments, *config, fallback));
    let zone = config.timezone.name();
    let r = ical::write_todos(config.name.as_str(), zone, &list);
    assert(rendered_with(all, moments, r@, *config, *reminders, fallback));
    r
}

/// The text of one task's resource.
pub fn render_one(
    task: &Task,
    config: &CalendarConfig,
    reminders: &RemindersConfig,
    fallback: Instant,
) -> (r: String)
    requires
        reminders.all_day_time < 86_400,
        task_folds(*task, config.language),
        ical::name_folds(config.name@),
    ensures
        rendered(seq![*task], r@, *config, *reminders, fallback),
{
    let mut one: Vec<&Task> = Vec::new();
    one.push(task);
    assert(Seq::new(one@.len(), |i: int| *one@[i]) =~= seq![*task]);
    render(&one, config, reminders, fallback)
}

/// Every reminder of a task that is within reach gives an alarm at its second, and every
/// alarm is that of a reminder.
pub proof fn law_each_reminder_gives_an_alarm(
    name: Text,
    owner: Text,
    moments: Seq<ReminderMoment>,
    modified: int,
    i: int,
)
    ensures
        0 <= i < moments.len() && reachable(moments[i].trigger_at as int) ==> exists|k: int|
            0 <= k < alarms_at(name, owner, moments, modified).len() && goes_off_at(
                #[trigger] alarms_at(name, owner, moments, modified)[k],
                moments[i].trigger_at as int,
            ),
        0 <= i < alarms_at(name, owner, moments, modified).len() ==> exists|k: int|
            0 <= k < moments.len() && goes_off_at(
                alarms_at(name, owner, moments, modified)[i],
                (#[trigger] moments[k]).trigger_at as int,
            ),
    decreases moments.len(),
{
    if moments.len() > 0 {
        let front = moments.drop_last();
        let before = alarms_at(name, owner, front, modified);
        let r = alarms_at(name, owner, moments, modified);
        law_each_reminder_gives_an_alarm(name, owner, front, modified, i);
        let last = moments.len() - 1;
        let at = moments.last().trigger_at as int;
        assert(moments[last] == moments.last());
        if reachable(at) {
            assert(r[before.len() as int][2].key == "TRIGGER"@);
            assert(goes_off_at(r[before.len() as int], at));
        }
        if 0 <= i < front.len() && reachable(moments[i].trigger_at as int) {
            assert(front[i] == moments[i]);
            let k = choose|k: int|
                0 <= k < before.len() && goes_off_at(
                    #[trigger] before[k],
                    front[i].trigger_at as int,
                );
            assert(r[k] == before[k]);
        }
        if 0 <= i < before.len() {
            assert(r[i] == before[i]);
            let k = choose|k: int|
                0 <= k < front.len() && goes_off_at(
                    before[i],
                    (#[trigger] front[k]).trigger_at as int,
                );
            assert(moments[k] == front[k]);
        }
    }
}

/// Whether an alarm goes off at the second of a moment: it says so as a date.
pub open spec fn goes_off_at(alarm: Seq<LineView>, total: int) -> bool {
    exists|n: int, second: int|
        0 <= n < alarm.len() && (#[trigger] alarm[n]).key == "TRIGGER"@ && alarm[n].value
            == #[trigger] events::stamp_text(second) && alarm[n].params == seq![
            ("VALUE"@, "DATE-TIME"@),
        ] && second * 1_000_000_000 <= total < (second + 1) * 1_000_000_000
}

/// The description of a task holds the link to its object, and the deadline where the
/// calendar does not show it: the day of the calendar's zone, with the clock time of a
/// moment. It holds nothing else.
pub proof fn law_what_a_description_says(task: Task, config: CalendarConfig)
    ensures
        ({
            let told = description_of(task, config);
            let hidden = sent_of(task, config).described;
            let deadline = writeback::property_value(
                task.deadline,
                config.date_only_timezone@,
            )->0;
            let words = deadline_words(deadline, config.timezone@, config.language);
            &&& told is Some <==> hidden || task.object_url is Some
            &&& task.object_url matches Some(url) ==> text::ends_with(told->0, url@)
            &&& hidden ==> text::starts_with(told->0, words)
            &&& !hidden && task.object_url is Some ==> told->0 == task.object_url->0@
            &&& hidden && task.object_url is None ==> told->0 == words
            &&& deadline matches When::Day(day) ==> words == config.language.deadline_front()
                + config.language.day_text(day)
            &&& deadline matches When::At(second, _) ==> ({
                let local = time::local_at(config.timezone@, second);
                words == config.language.deadline_front() + config.language.day_text(
                    time::day_of(local),
                ) + " "@ + time::clock_text(time::clock_of(local))
            })
        }),
{
    let told = description_of(task, config);
    let deadline = writeback::property_value(task.deadline, config.date_only_timezone@)->0;
    let words = deadline_words(deadline, config.timezone@, config.language);
    if sent_of(task, config).described {
        assert(told->0.subrange(0, words.len() as int) == words);
    }
    if let Some(url) = task.object_url {
        let n = told->0.len() as int;
        assert(told->0.subrange(n - url@.len(), n) == url@);
    }
    match deadline {
        When::Day(day) => {
            assert(config.language.day_text(day) + Seq::<char>::empty()
                == config.language.day_text(day));
        },
        When::At(second, _) => {
            let local = time::local_at(config.timezone@, second);
            let clock = " "@ + time::clock_text(time::clock_of(local));
            assert(words == config.language.deadline_front() + config.language.day_text(
                time::day_of(local),
            ) + " "@ + time::clock_text(time::clock_of(local)));
        },
    }
}

/// A deadline is put in words exactly where the plan and the deadline are both there and
/// the calendar cannot show the deadline.
pub proof fn law_a_deadline_is_hidden_only_behind_a_plan(
    plan: Option<When>,
    deadline: Option<When>,
    zone: Text,
)
    ensures
        sent(plan, deadline, zone).described ==> plan is Some && deadline is Some && sent(
            plan,
            deadline,
            zone,
        ).start is None,
        plan is Some || deadline is Some <==> sent(plan, deadline, zone).start is Some || sent(
            plan,
            deadline,
            zone,
        ).due is Some,
{
}

/// What is served is stamped with the last change of its object, and with the time of the
/// reading only where that is not known.
pub proof fn law_a_stamp_is_the_last_change(task: Task, fallback: Instant)
    ensures
        task.last_modified matches Some(at) ==> modified_at(task, fallback) == at.second(),
        task.last_modified is None ==> modified_at(task, fallback) == fallback.second(),
{
}

} // verus!
