//! Reminders of tasks and events through Web Push: which are due, what is done with
//! each, and what they say.
use vstd::prelude::*;

use crate::config::{CalendarConfig, RemindersConfig};
use crate::events;
use crate::events::{Event, EventView};
use crate::locale;
use crate::locale::Language;
use crate::model;
use crate::model::{AnytypeDate, CalendarValue, Task};
use crate::push::Notification;
use crate::reminder;
use crate::reminder::{ReminderAnchor, ReminderMoment};
use crate::state::ReminderOutcome;
use crate::text;
use crate::text::Text;
use crate::time;
use crate::time::{Day, Instant, Span, When, Zone};

verus! {

// ------------------------------------------------------------------ wording

/// What a reminder says of a moment or a day.
pub open spec fn description(
    anchor: ReminderAnchor,
    value: When,
    now: Instant,
    zone: Text,
    language: Language,
) -> Text {
    let today = time::day_of(time::local_at(zone, now.second()));
    match value {
        When::Day(day) => locale::anchor_words(language, anchor, day < today)@ + " "@
            + locale::day_words(language, day, today),
        When::At(second, nano) => {
            let local = time::local_at(zone, second);
            let day = time::day_of(local);
            let clock = time::clock_text(time::clock_of(local));
            let at = second * 1_000_000_000 + nano;
            let when = if at > now.total() && day == today {
                locale::wait_words(language, (at - now.total()) / 1_000_000_000) + " — "@
                    + locale::day_words(language, day, today) + " "@ + locale::at_words(
                    language,
                    clock,
                )
            } else {
                locale::day_words(language, day, today) + " "@ + locale::at_words(language, clock)
            };
            locale::anchor_words(language, anchor, at <= now.total())@ + " "@ + when
        },
    }
}

/// Describes when the anchor date falls, phrased against `now`.
///
/// The wording is deliberately not derived from the lead time that produced the
/// reminder. A push held back by the late window can arrive after the deadline it
/// warns about, and "in 15 minutes" would then be a lie; the only honest source is
/// the distance from the moment of sending. Only today needs "in N minutes": for any
/// other day the day itself already answers "why now".
pub fn describe(moment: &ReminderMoment, now: Instant, tz: &Zone, language: Language) -> (r: String)
    ensures
        r@ == description(moment.anchor, moment.value@, now, tz@, language),
{
    let (today, _) = tz.show(now);
    match moment.value {
        CalendarValue::AllDay(day) => {
            let past = day.number() < today.number();
            let mut r = language.anchor(moment.anchor, past).to_owned();
            r.append(" ");
            r.append(language.day(day, today).as_str());
            r
        },
        CalendarValue::Instant(at) => {
            let (day, clock) = tz.show(at);
            let time = time::clock_label(clock);
            let ahead: i128 = at.in_nanos() - now.in_nanos();
            let shown = language.day(day, today);
            let clock_words = language.at(time.as_str());
            let mut when: String = String::new();
            assert(when@ == Seq::<char>::empty());
            if ahead > 0 && day.number() == today.number() {
                let seconds: i64 = (ahead / 1_000_000_000) as i64;
                when.append(language.in_time(seconds).as_str());
                when.append(" — ");
            }
            when.append(shown.as_str());
            when.append(" ");
            when.append(clock_words.as_str());
            let mut r = language.anchor(moment.anchor, ahead <= 0).to_owned();
            r.append(" ");
            r.append(when.as_str());
            proof {
                let words = locale::day_words(language, day.nth(), today.nth()) + " "@
                    + locale::at_words(language, time@);
                if ahead > 0 && day.nth() == today.nth() {
                    assert(when@ == locale::wait_words(language, ahead as int / 1_000_000_000)
                        + " — "@ + locale::day_words(language, day.nth(), today.nth()) + " "@
                        + locale::at_words(language, time@));
                } else {
                    assert(when@ == words);
                }
            }
            r
        },
    }
}

/// The day that a reminder is about.
pub open spec fn day_of_value(value: When, zone: Text) -> int {
    match value {
        When::Day(day) => day,
        When::At(second, _) => time::day_of(time::local_at(zone, second)),
    }
}

pub fn notification_for(
    task: &Task,
    moment: &ReminderMoment,
    now: Instant,
    calendar: &CalendarConfig,
) -> (r: Notification)
    ensures
        r.title == task.name,
        r.body@ == description(
            moment.anchor,
            moment.value@,
            now,
            calendar.timezone@,
            calendar.language,
        ),
        r.url == task.object_url,
        r.tag == Some(task.object_id),
        r.day is Some,
        r.day->0.nth() == day_of_value(moment.value@, calendar.timezone@),
{
    Notification {
        title: task.name.clone(),
        body: describe(moment, now, &calendar.timezone, calendar.language),
        url: text::copy_text(&task.object_url),
        tag: Some(task.object_id.clone()),
        day: Some(
            match moment.value {
                CalendarValue::AllDay(day) => day,
                CalendarValue::Instant(at) => {
                    let (day, _) = calendar.timezone.show(at);
                    day
                },
            },
        ),
    }
}

// ------------------------------------------------------------------ decisions

/// What is done with a reminder.
#[derive(Debug, Clone, Copy, PartialEq, Eq, Structural)]
pub enum Decision {
    /// It is not due yet.
    Wait,
    /// It is due, but nobody is subscribed; it stays unclaimed and can still be sent
    /// for the rest of the late window.
    Hold,
    /// It is claimed, to be sent or, past the late window, to be given up.
    Claim(ReminderOutcome),
}

/// What is done with a reminder that was due at a moment.
pub open spec fn decision(trigger_at: int, now: int, late_window: int, audience: int) -> Decision {
    if trigger_at > now {
        Decision::Wait
    } else if now - trigger_at > late_window {
        Decision::Claim(ReminderOutcome::Expired)
    } else if audience == 0 {
        Decision::Hold
    } else {
        Decision::Claim(ReminderOutcome::Attempted)
    }
}

/// Decides on one reminder. A claim is what makes delivery at-most-once, so it must
/// never be spent on a send that cannot happen.
pub fn decide(trigger_at: i128, now: Instant, late_window: &Span, audience: usize) -> (r: Decision)
    ensures
        r == decision(trigger_at as int, now.total(), late_window.length(), audience as int),
{
    let at = now.in_nanos();
    let window = late_window.in_nanos();
    if trigger_at > at {
        Decision::Wait
    } else if trigger_at < at - window {
        Decision::Claim(ReminderOutcome::Expired)
    } else if audience == 0 {
        Decision::Hold
    } else {
        Decision::Claim(ReminderOutcome::Attempted)
    }
}

/// While nobody is subscribed, no claim is spent within the late window.
pub proof fn law_no_claim_without_an_audience(trigger_at: int, now: int, late_window: int)
    requires
        now - trigger_at <= late_window,
    ensures
        !(decision(trigger_at, now, late_window, 0) is Claim),
{
}

/// A reminder is sent up to the very end of the late window and given up after it.
pub proof fn law_the_late_window_is_inclusive(trigger_at: int, late_window: int, audience: int)
    requires
        late_window >= 0,
        audience > 0,
    ensures
        decision(trigger_at, trigger_at + late_window, late_window, audience) == Decision::Claim(
            ReminderOutcome::Attempted,
        ),
        decision(trigger_at, trigger_at + late_window + 1, late_window, audience)
            == Decision::Claim(ReminderOutcome::Expired),
{
}

/// A reminder that was given up is never sent later.
pub proof fn law_expired_stays_expired(
    trigger_at: int,
    now: int,
    later: int,
    late_window: int,
    audience: int,
    other: int,
)
    requires
        now <= later,
        decision(trigger_at, now, late_window, audience) == Decision::Claim(
            ReminderOutcome::Expired,
        ),
    ensures
        decision(trigger_at, later, late_window, other) == Decision::Claim(
            ReminderOutcome::Expired,
        ),
{
}

#[derive(Debug, Clone, Copy, PartialEq, Eq, Structural)]
pub struct CheckReport {
    pub tasks: usize,
    pub attempted: usize,
    /// Due, but left unclaimed because nobody is subscribed yet.
    pub waiting: usize,
    pub expired: usize,
    pub delivered: usize,
    pub subscriptions: usize,
}

impl Default for CheckReport {
    fn default() -> (r: CheckReport)
        ensures
            r == (CheckReport {
                tasks: 0,
                attempted: 0,
                waiting: 0,
                expired: 0,
                delivered: 0,
                subscriptions: 0,
            }),
    {
        CheckReport {
            tasks: 0,
            attempted: 0,
            waiting: 0,
            expired: 0,
            delivered: 0,
            subscriptions: 0,
        }
    }
}

impl CheckReport {
    /// Takes in whether a claim was new. Returns whether the reminder is to be sent
    /// now: only one whose claim was new and that is not past the late window.
    pub fn settle(&mut self, outcome: ReminderOutcome, claimed: bool) -> (send: bool)
        requires
            old(self).attempted < usize::MAX,
            old(self).expired < usize::MAX,
        ensures
            send == sends(outcome, claimed),
            *final(self) == (if !claimed {
                *old(self)
            } else if outcome == ReminderOutcome::Attempted {
                CheckReport { attempted: (old(self).attempted + 1) as usize, ..*old(self) }
            } else {
                CheckReport { expired: (old(self).expired + 1) as usize, ..*old(self) }
            }),
    {
        if !claimed {
            return false;
        }
        match outcome {
            ReminderOutcome::Expired => {
                self.expired = self.expired + 1;
                false
            },
            ReminderOutcome::Attempted => {
                self.attempted = self.attempted + 1;
                true
            },
        }
    }

    /// Takes in what became of a send.
    pub fn add_delivery(&mut self, delivered: usize, subscriptions: usize)
        requires
            old(self).delivered + delivered <= usize::MAX,
            old(self).subscriptions + subscriptions <= usize::MAX,
        ensures
            *final(self) == (CheckReport {
                delivered: (old(self).delivered + delivered) as usize,
                subscriptions: (old(self).subscriptions + subscriptions) as usize,
                ..*old(self)
            }),
    {
        self.delivered = self.delivered + delivered;
        self.subscriptions = self.subscriptions + subscriptions;
    }
}

/// Whether a reminder is sent: only one whose claim was new and that is not past the
/// late window.
pub open spec fn sends(outcome: ReminderOutcome, claimed: bool) -> bool {
    claimed && outcome == ReminderOutcome::Attempted
}

/// How often a reminder is sent over many claims, by its object and its millisecond,
/// where a claim is new exactly if the reminder was not handled before and is
/// remembered from it on.
pub open spec fn times_sent(
    handled: Set<(Text, int)>,
    claims: Seq<((Text, int), ReminderOutcome)>,
    reminder: (Text, int),
) -> nat
    decreases claims.len(),
{
    if claims.len() == 0 {
        0
    } else {
        let (key, outcome) = claims[0];
        let now: nat = if key == reminder && sends(outcome, !handled.contains(key)) {
            1
        } else {
            0
        };
        now + times_sent(handled.insert(key), claims.drop_first(), reminder)
    }
}

/// A reminder is sent at most once, however often and for whatever it is claimed; one
/// that was handled before is never sent.
pub proof fn law_a_reminder_is_sent_at_most_once(
    handled: Set<(Text, int)>,
    claims: Seq<((Text, int), ReminderOutcome)>,
    reminder: (Text, int),
)
    ensures
        times_sent(handled, claims, reminder) <= 1,
        handled.contains(reminder) ==> times_sent(handled, claims, reminder) == 0,
    decreases claims.len(),
{
    if claims.len() > 0 {
        law_a_reminder_is_sent_at_most_once(
            handled.insert(claims[0].0),
            claims.drop_first(),
            reminder,
        );
    }
}

/// A reminder that is to be claimed: its entry, its moment there, and for what.
#[derive(Debug, Clone, Copy, PartialEq, Eq, Structural)]
pub struct Due {
    pub entry: usize,
    pub moment: usize,
    pub outcome: ReminderOutcome,
}

/// The reminders of one entry that are to be claimed, and how many are held back.
pub open spec fn due_in(
    moments: Seq<ReminderMoment>,
    entry: int,
    now: int,
    late_window: int,
    audience: int,
) -> (Seq<Due>, int)
    decreases moments.len(),
{
    if moments.len() == 0 {
        (Seq::empty(), 0)
    } else {
        let before = due_in(moments.drop_last(), entry, now, late_window, audience);
        match decision(moments.last().trigger_at as int, now, late_window, audience) {
            Decision::Wait => before,
            Decision::Hold => (before.0, before.1 + 1),
            Decision::Claim(outcome) => (
                before.0.push(
                    Due {
                        entry: entry as usize,
                        moment: (moments.len() - 1) as usize,
                        outcome,
                    },
                ),
                before.1,
            ),
        }
    }
}

/// The reminders of all entries that are to be claimed, in order, and how many are
/// held back, where each entry has an audience of its own.
pub open spec fn due_of(
    entries: Seq<(Task, Vec<ReminderMoment>)>,
    now: int,
    late_window: int,
    audiences: Seq<usize>,
) -> (Seq<Due>, int)
    decreases entries.len(),
{
    if entries.len() == 0 {
        (Seq::empty(), 0)
    } else {
        let before = due_of(entries.drop_last(), now, late_window, audiences);
        let here = due_in(
            entries.last().1@,
            entries.len() - 1,
            now,
            late_window,
            audiences[entries.len() - 1] as int,
        );
        (before.0 + here.0, before.1 + here.1)
    }
}

/// The people whom an entry concerns: those a task is assigned to; an event concerns
/// everyone. The tasks stand before the events.
pub open spec fn concerned(
    entries: Seq<(Task, Vec<ReminderMoment>)>,
    tasks: int,
    entry: int,
) -> Option<Seq<Text>> {
    if entry < tasks {
        Some(text::texts(entries[entry].0.assignees@))
    } else {
        None
    }
}

/// The people whom an entry concerns; everyone where it names none.
pub fn people_of<'a>(
    entries: &'a Vec<(Task, Vec<ReminderMoment>)>,
    tasks: usize,
    entry: usize,
) -> (r: Option<&'a Vec<String>>)
    requires
        entry < entries@.len(),
    ensures
        concerned(entries@, tasks as int, entry as int) == (match r {
            Some(people) => Some(text::texts(people@)),
            None => None,
        }),
{
    if entry < tasks {
        Some(&entries[entry].0.assignees)
    } else {
        None
    }
}

/// How many subscriptions each entry reaches, where `subscribers` holds who made each: the
/// first `tasks` entries reach those of the people they are assigned to, the rest all.
pub fn audiences_of(
    entries: &Vec<(Task, Vec<ReminderMoment>)>,
    tasks: usize,
    subscribers: &Vec<Option<String>>,
) -> (r: Vec<usize>)
    ensures
        r@.len() == entries@.len(),
        forall|i: int|
            0 <= i < entries@.len() ==> #[trigger] r@[i] == crate::push::reached(
                crate::push::subscribed(subscribers@),
                concerned(entries@, tasks as int, i),
            ),
{
    let mut r: Vec<usize> = Vec::new();
    let mut i: usize = 0;
    while i < entries.len()
        invariant
            i <= entries@.len(),
            r@.len() == i,
            forall|j: int|
                0 <= j < i ==> #[trigger] r@[j] == crate::push::reached(
                    crate::push::subscribed(subscribers@),
                    concerned(entries@, tasks as int, j),
                ),
        decreases entries@.len() - i,
    {
        r.push(crate::push::audience(subscribers, people_of(entries, tasks, i)));
        i += 1;
    }
    r
}

/// The reminders that are to be claimed, in order, and how many are held back: those of
/// an entry that no subscription is concerned by. The number of these stops at the
/// largest that a `usize` holds.
pub fn due_reminders(
    entries: &Vec<(Task, Vec<ReminderMoment>)>,
    now: Instant,
    late_window: &Span,
    audiences: &Vec<usize>,
) -> (r: (Vec<Due>, usize))
    requires
        audiences@.len() == entries@.len(),
    ensures
        r.0@ == due_of(entries@, now.total(), late_window.length(), audiences@).0,
        ({
            let waiting = due_of(entries@, now.total(), late_window.length(), audiences@).1;
            r.1 == (if waiting <= usize::MAX {
                waiting
            } else {
                usize::MAX as int
            })
        }),
{
    let mut due: Vec<Due> = Vec::new();
    let mut waiting: usize = 0;
    let ghost mut held: int = 0;
    let mut i: usize = 0;
    while i < entries.len()
        invariant
            i <= entries@.len(),
            audiences@.len() == entries@.len(),
            due@ == due_of(
                entries@.take(i as int),
                now.total(),
                late_window.length(),
                audiences@,
            ).0,
            held == due_of(
                entries@.take(i as int),
                now.total(),
                late_window.length(),
                audiences@,
            ).1,
            waiting == (if held <= usize::MAX {
                held
            } else {
                usize::MAX as int
            }),
            held >= 0,
        decreases entries@.len() - i,
    {
        assert(entries@.take(i + 1).drop_last() == entries@.take(i as int));
        assert(entries@.take(i + 1).last() == entries@[i as int]);
        let moments = &entries[i].1;
        let audience: usize = audiences[i];
        let ghost start = due@;
        let ghost first = held;
        let mut k: usize = 0;
        assert(start + due_in(
            moments@.take(0),
            i as int,
            now.total(),
            late_window.length(),
            audience as int,
        ).0 == start);
        while k < moments.len()
            invariant
                k <= moments@.len(),
                due@ == start + due_in(
                    moments@.take(k as int),
                    i as int,
                    now.total(),
                    late_window.length(),
                    audience as int,
                ).0,
                held == first + due_in(
                    moments@.take(k as int),
                    i as int,
                    now.total(),
                    late_window.length(),
                    audience as int,
                ).1,
                waiting == (if held <= usize::MAX {
                    held
                } else {
                    usize::MAX as int
                }),
                held >= 0,
            decreases moments@.len() - k,
        {
            assert(moments@.take(k + 1).drop_last() == moments@.take(k as int));
            assert(moments@.take(k + 1).last() == moments@[k as int]);
            match decide(moments[k].trigger_at, now, late_window, audience) {
                Decision::Wait => {},
                Decision::Hold => {
                    if waiting < usize::MAX {
                        waiting = waiting + 1;
                    }
                    proof {
                        held = held + 1;
                    }
                },
                Decision::Claim(outcome) => {
                    due.push(Due { entry: i, moment: k, outcome });
                },
            }
            k += 1;
        }
        assert(moments@.take(moments@.len() as int) == moments@);
        i += 1;
    }
    assert(entries@.take(entries@.len() as int) == entries@);
    (due, waiting)
}

/// A claim to send a reminder is only ever spent on an entry that has an audience.
pub proof fn law_a_send_has_an_audience(
    entries: Seq<(Task, Vec<ReminderMoment>)>,
    now: int,
    late_window: int,
    audiences: Seq<usize>,
    i: int,
)
    requires
        0 <= i < due_of(entries, now, late_window, audiences).0.len(),
        due_of(entries, now, late_window, audiences).0[i].outcome == ReminderOutcome::Attempted,
        entries.len() <= usize::MAX,
    ensures
        ({
            let due = due_of(entries, now, late_window, audiences).0[i];
            due.entry < entries.len() && audiences[due.entry as int] > 0
        }),
    decreases entries.len(),
{
    let before = due_of(entries.drop_last(), now, late_window, audiences).0;
    if i < before.len() {
        law_a_send_has_an_audience(entries.drop_last(), now, late_window, audiences, i);
    } else {
        lemma_sends_in(
            entries.last().1@,
            entries.len() - 1,
            now,
            late_window,
            audiences[entries.len() - 1] as int,
            i - before.len(),
        );
    }
}

proof fn lemma_sends_in(
    moments: Seq<ReminderMoment>,
    entry: int,
    now: int,
    late_window: int,
    audience: int,
    i: int,
)
    requires
        0 <= i < due_in(moments, entry, now, late_window, audience).0.len(),
        due_in(moments, entry, now, late_window, audience).0[i].outcome
            == ReminderOutcome::Attempted,
        0 <= entry < usize::MAX,
    ensures
        due_in(moments, entry, now, late_window, audience).0[i].entry == entry,
        audience != 0,
    decreases moments.len(),
{
    let before = due_in(moments.drop_last(), entry, now, late_window, audience).0;
    if i < before.len() {
        lemma_sends_in(moments.drop_last(), entry, now, late_window, audience, i);
    }
}

// ------------------------------------------------------------------ events

/// Whether a task stands for an event: it is planned at the event's start.
pub open spec fn stands_for(task: Task, event: EventView) -> bool {
    &&& task.object_id@ == event.object_id
    &&& task.name@ == event.name
    &&& model::date_view(task.scheduled) == event.start
    &&& task.deadline is None
    &&& !task.done
    &&& events::spans(task.reminder_leads@) == events::leads_of(event.reminder_names)
    &&& text::texts(task.tags@) == event.tags
    &&& task.assignees@.len() == 0
    &&& text::text_of(task.ical_uid) == event.ical_uid
    &&& text::text_of(task.object_url) == event.object_url
    &&& task.last_modified == event.last_modified
}

pub fn event_as_task(event: &Event) -> (r: Task)
    ensures
        stands_for(r, event@),
        r.scheduled == event.start,
{
    Task {
        object_id: event.object_id.clone(),
        name: event.name.clone(),
        scheduled: model::copy_date(&event.start),
        deadline: None,
        done: false,
        reminder_leads: event.leads(),
        tags: text::copy_list(&event.tags),
        assignees: Vec::new(),
        ical_uid: text::copy_text(&event.ical_uid),
        object_url: text::copy_text(&event.object_url),
        last_modified: event.last_modified,
    }
}

/// The longest of some lengths of time, in nanoseconds.
pub open spec fn longest_of(leads: Seq<Span>) -> int
    decreases leads.len(),
{
    if leads.len() == 0 {
        0
    } else {
        let before = longest_of(leads.drop_last());
        if leads.last().length() > before {
            leads.last().length()
        } else {
            before
        }
    }
}

fn longest(leads: &Vec<Span>) -> (r: i128)
    ensures
        r == longest_of(leads@),
        0 <= r <= 9_300_000_000_000_000_000_000_000,
{
    let mut r: i128 = 0;
    let mut i: usize = 0;
    while i < leads.len()
        invariant
            i <= leads@.len(),
            r == longest_of(leads@.take(i as int)),
            0 <= r <= 9_300_000_000_000_000_000_000_000,
        decreases leads@.len() - i,
    {
        assert(leads@.take(i + 1).drop_last() == leads@.take(i as int));
        assert(leads@.take(i + 1).last() == leads@[i as int]);
        let length = leads[i].in_nanos();
        if length > r {
            r = length;
        }
        i += 1;
    }
    assert(leads@.take(leads@.len() as int) == leads@);
    r
}

/// The occurrences of a series that other objects replace.
pub open spec fn replaced_in(all: Seq<Event>, id: Text) -> Seq<(int, int)>
    decreases all.len(),
{
    if all.len() == 0 {
        Seq::empty()
    } else {
        let before = replaced_in(all.drop_last(), id);
        let other = all.last()@;
        if other.series == Some(id) && other.occurrence is Some {
            before.push((other.occurrence->0.second, other.occurrence->0.nano))
        } else {
            before
        }
    }
}

fn replaced_moments(all: &Vec<Event>, id: &str) -> (r: Vec<Instant>)
    ensures
        events::moments(r@) == replaced_in(all@, id@),
{
    let mut r: Vec<Instant> = Vec::new();
    let mut i: usize = 0;
    assert(events::moments(r@) == replaced_in(all@.take(0), id@));
    while i < all.len()
        invariant
            i <= all@.len(),
            events::moments(r@) == replaced_in(all@.take(i as int), id@),
        decreases all@.len() - i,
    {
        assert(all@.take(i + 1).drop_last() == all@.take(i as int));
        assert(all@.take(i + 1).last() == all@[i as int]);
        let ghost before = r@;
        if text::is_text(&all[i].series, id) {
            if let Some(occurrence) = &all[i].occurrence {
                let at = occurrence.parsed;
                r.push(at);
                assert(events::moments(r@) == events::moments(before).push(
                    (at.second(), at.nano()),
                ));
            }
        }
        i += 1;
    }
    assert(all@.take(all@.len() as int) == all@);
    r
}

/// Moments with another anchor.
pub open spec fn anchored(moments: Seq<ReminderMoment>, anchor: ReminderAnchor) -> Seq<
    ReminderMoment,
> {
    Seq::new(moments.len(), |i: int| ReminderMoment { anchor, ..moments[i] })
}

/// All moments of some lists, in order, with one anchor.
pub open spec fn all_anchored(parts: Seq<Seq<ReminderMoment>>, anchor: ReminderAnchor) -> Seq<
    ReminderMoment,
>
    decreases parts.len(),
{
    if parts.len() == 0 {
        Seq::empty()
    } else {
        all_anchored(parts.drop_last(), anchor) + anchored(parts.last(), anchor)
    }
}

/// Whether these are the reminders of a task at several starts.
pub open spec fn reminders_at(
    starts: Seq<AnytypeDate>,
    task: Task,
    anchor: ReminderAnchor,
    calendar: CalendarConfig,
    reminders: RemindersConfig,
    r: Seq<ReminderMoment>,
) -> bool {
    exists|parts: Seq<Seq<ReminderMoment>>|
        parts.len() == starts.len() && r == #[trigger] all_anchored(parts, anchor) && forall|i: int|
            0 <= i < starts.len() ==> reminder::reminders_of(
                #[trigger] parts[i],
                Task { scheduled: Some(starts[i]), ..task },
                calendar,
                reminders,
            )
}

/// The reminders of a task at each of several starts.
pub fn moments_at_starts(
    task: Task,
    starts: &Vec<AnytypeDate>,
    anchor: ReminderAnchor,
    calendar: &CalendarConfig,
    reminders: &RemindersConfig,
) -> (r: (Task, Vec<ReminderMoment>))
    requires
        reminders.all_day_time < 86_400,
    ensures
        r.0 == task,
        reminders_at(starts@, task, anchor, *calendar, *reminders, r.1@),
{
    let mut shifted = task;
    let scheduled = model::copy_date(&shifted.scheduled);
    let mut list: Vec<ReminderMoment> = Vec::new();
    let ghost mut parts: Seq<Seq<ReminderMoment>> = Seq::empty();
    let mut i: usize = 0;
    while i < starts.len()
        invariant
            i <= starts@.len(),
            reminders.all_day_time < 86_400,
            parts.len() == i,
            list@ == all_anchored(parts, anchor),
            forall|k: int|
                0 <= k < i ==> reminder::reminders_of(
                    #[trigger] parts[k],
                    Task { scheduled: Some(starts@[k]), ..task },
                    *calendar,
                    *reminders,
                ),
            shifted == (Task { scheduled: shifted.scheduled, ..task }),
        decreases starts@.len() - i,
    {
        shifted.scheduled = Some(starts[i].copy());
        let found = reminder::reminders_for(&shifted, calendar, reminders);
        let ghost start = list@;
        let ghost before = parts;
        let mut k: usize = 0;
        assert(start + anchored(found@.take(0), anchor) == start);
        while k < found.len()
            invariant
                k <= found@.len(),
                list@ == start + anchored(found@.take(k as int), anchor),
            decreases found@.len() - k,
        {
            let one = found[k];
            let ghost so_far = list@;
            list.push(ReminderMoment { trigger_at: one.trigger_at, anchor, value: one.value });
            k += 1;
            assert(anchored(found@.take(k as int), anchor) == anchored(
                found@.take(k - 1),
                anchor,
            ).push(ReminderMoment { anchor, ..found@[k - 1] }));
        }
        proof {
            assert(found@.take(found@.len() as int) == found@);
            parts = before.push(found@);
            assert(parts.drop_last() == before);
            assert(forall|k: int| 0 <= k < i ==> #[trigger] parts[k] == before[k]);
        }
        i += 1;
    }
    shifted.scheduled = scheduled;
    assert(reminders_at(starts@, task, anchor, *calendar, *reminders, list@));
    (shifted, list)
}

/// What an entry for an event is: a task planned at its start, and its reminders.
/// Occurrences from the start of the late window up to the longest lead ahead, and a
/// day more for whole days, cover every reminder that can be due now. There is none
/// without leads, where the window is out of reach, or where the rule cannot be read.
pub open spec fn entry_is(
    event: Event,
    anchor: ReminderAnchor,
    all: Seq<Event>,
    now: Instant,
    late_window: Span,
    calendar: CalendarConfig,
    reminders: RemindersConfig,
    task: Task,
    starts: Option<Seq<AnytypeDate>>,
    from: Instant,
    to: Instant,
    r: Option<(Task, Vec<ReminderMoment>)>,
) -> bool {
    let first = now.total() - late_window.length();
    let last = now.total() + longest_of(task.reminder_leads@) + 86_400_000_000_000;
    &&& stands_for(task, event@)
    &&& if task.reminder_leads@.len() == 0 || !in_reach(first) || !in_reach(last) {
        r is None
    } else {
        &&& from.second() == first / 1_000_000_000 && from.nano() == first % 1_000_000_000
        &&& to.second() == last / 1_000_000_000 && to.nano() == last % 1_000_000_000
        &&& events::occurrences_are(
            event@,
            calendar.timezone@,
            replaced_in(all, event.object_id@),
            from,
            to,
            match starts {
                Some(list) => Some(events::dates(list)),
                None => None,
            },
        )
        &&& match starts {
            None => r is None,
            Some(list) => r matches Some((shown, moments)) && shown == task && reminders_at(
                list,
                task,
                anchor,
                calendar,
                reminders,
                moments@,
            ),
        }
    }
}

/// Whether a moment is within reach.
pub open spec fn in_reach(total: int) -> bool {
    time::FIRST_SECOND <= total / 1_000_000_000 <= time::LAST_SECOND
}

/// The entry for one event: a task planned at its start and its reminders.
pub fn event_entry(
    event: &Event,
    anchor: ReminderAnchor,
    all: &Vec<Event>,
    now: Instant,
    late_window: &Span,
    calendar: &CalendarConfig,
    reminders: &RemindersConfig,
) -> (r: Option<(Task, Vec<ReminderMoment>)>)
    requires
        reminders.all_day_time < 86_400,
    ensures
        exists|task: Task, starts: Option<Seq<AnytypeDate>>, from: Instant, to: Instant|
            #[trigger] entry_is(
                *event,
                anchor,
                all@,
                now,
                *late_window,
                *calendar,
                *reminders,
                task,
                starts,
                from,
                to,
                r,
            ),
{
    let task = event_as_task(event);
    let ghost shown = task;
    let ghost nothing: Option<Seq<AnytypeDate>> = None;
    let lead = longest(&task.reminder_leads);
    let before = now.in_nanos() - late_window.in_nanos();
    let ahead = now.in_nanos() + lead + 86_400_000_000_000;
    if task.reminder_leads.len() == 0 {
        assert(entry_is(
            *event,
            anchor,
            all@,
            now,
            *late_window,
            *calendar,
            *reminders,
            task,
            nothing,
            now,
            now,
            None,
        ));
        return None;
    }
    let (from, to) = match (time::instant_at(before), time::instant_at(ahead)) {
        (Some(from), Some(to)) => (from, to),
        _ => {
            assert(entry_is(
                *event,
                anchor,
                all@,
                now,
                *late_window,
                *calendar,
                *reminders,
                task,
                nothing,
                now,
                now,
                None,
            ));
            return None;
        },
    };
    let replaced = replaced_moments(all, event.object_id.as_str());
    match events::occurrences_between(event, &calendar.timezone, &replaced, from, to) {
        Err(why) => {
            assert(entry_is(
                *event,
                anchor,
                all@,
                now,
                *late_window,
                *calendar,
                *reminders,
                task,
                nothing,
                from,
                to,
                None,
            ));
            None
        },
        Ok(starts) => {
            let (task, moments) = moments_at_starts(task, &starts, anchor, calendar, reminders);
            let r = Some((task, moments));
            assert(entry_is(
                *event,
                anchor,
                all@,
                now,
                *late_window,
                *calendar,
                *reminders,
                shown,
                Some(starts@),
                from,
                to,
                r,
            ));
            r
        },
    }
}

/// What is put behind a list of entries for one event.
pub open spec fn appended(
    before: Seq<(Task, Vec<ReminderMoment>)>,
    entry: Option<(Task, Vec<ReminderMoment>)>,
) -> Seq<(Task, Vec<ReminderMoment>)> {
    match entry {
        Some(entry) => before.push(entry),
        None => before,
    }
}

/// All entries that are there, in order.
pub open spec fn present(found: Seq<Option<(Task, Vec<ReminderMoment>)>>) -> Seq<
    (Task, Vec<ReminderMoment>),
>
    decreases found.len(),
{
    if found.len() == 0 {
        Seq::empty()
    } else {
        appended(present(found.drop_last()), found.last())
    }
}

/// Whether this is the entry of an event, or that there is none.
pub open spec fn entry_of_event(
    event: Event,
    anchor: ReminderAnchor,
    all: Seq<Event>,
    now: Instant,
    late_window: Span,
    calendar: CalendarConfig,
    reminders: RemindersConfig,
    r: Option<(Task, Vec<ReminderMoment>)>,
) -> bool {
    exists|task: Task, starts: Option<Seq<AnytypeDate>>, from: Instant, to: Instant|
        #[trigger] entry_is(
            event,
            anchor,
            all,
            now,
            late_window,
            calendar,
            reminders,
            task,
            starts,
            from,
            to,
            r,
        )
}

/// Whether this is the entry of an event's deadline, or that there is none: reminded
/// like a start, under the event's own name.
pub open spec fn entry_of_deadline(
    event: Event,
    all: Seq<Event>,
    now: Instant,
    late_window: Span,
    calendar: CalendarConfig,
    reminders: RemindersConfig,
    r: Option<(Task, Vec<ReminderMoment>)>,
) -> bool {
    match events::entry_of(event@, calendar.language) {
        None => r is None,
        Some(entry) => exists|named: Event|
            named@ == (EventView { name: event@.name, ..entry }) && #[trigger] entry_of_event(
                named,
                ReminderAnchor::Deadline,
                all,
                now,
                late_window,
                calendar,
                reminders,
                r,
            ),
    }
}

fn deadline_entry_of(
    event: &Event,
    all: &Vec<Event>,
    now: Instant,
    late_window: &Span,
    calendar: &CalendarConfig,
    reminders: &RemindersConfig,
) -> (r: Option<(Task, Vec<ReminderMoment>)>)
    requires
        reminders.all_day_time < 86_400,
    ensures
        entry_of_deadline(*event, all@, now, *late_window, *calendar, *reminders, r),
{
    match events::deadline_entry(event, calendar.language) {
        None => None,
        Some(entry) => {
            let mut named = entry;
            named.name = event.name.clone();
            let r = event_entry(
                &named,
                ReminderAnchor::Deadline,
                all,
                now,
                late_window,
                calendar,
                reminders,
            );
            assert(named@ == (EventView {
                name: event@.name,
                ..events::entry_of(event@, calendar.language)->0
            }));
            assert(entry_of_event(
                named,
                ReminderAnchor::Deadline,
                all@,
                now,
                *late_window,
                *calendar,
                *reminders,
                r,
            ));
            r
        },
    }
}

/// Reminders of every event with leads, as tasks planned at the event's start, and
/// behind them those of the deadlines of events.
pub fn event_entries(
    all: &Vec<Event>,
    now: Instant,
    late_window: &Span,
    calendar: &CalendarConfig,
    reminders: &RemindersConfig,
) -> (r: Vec<(Task, Vec<ReminderMoment>)>)
    requires
        reminders.all_day_time < 86_400,
    ensures
        exists|found: Seq<Option<(Task, Vec<ReminderMoment>)>>|
            found.len() == 2 * all@.len() && r@ == #[trigger] present(found) && (forall|i: int|
                0 <= i < all@.len() ==> entry_of_event(
                    all@[i],
                    ReminderAnchor::Start,
                    all@,
                    now,
                    *late_window,
                    *calendar,
                    *reminders,
                    #[trigger] found[i],
                )) && (forall|i: int|
                all@.len() <= i < 2 * all@.len() ==> entry_of_deadline(
                    all@[i - all@.len()],
                    all@,
                    now,
                    *late_window,
                    *calendar,
                    *reminders,
                    #[trigger] found[i],
                )),
{
    let mut r: Vec<(Task, Vec<ReminderMoment>)> = Vec::new();
    let ghost mut found: Seq<Option<(Task, Vec<ReminderMoment>)>> = Seq::empty();
    let mut i: usize = 0;
    while i < all.len()
        invariant
            i <= all@.len(),
            reminders.all_day_time < 86_400,
            found.len() == i,
            r@ == present(found),
            forall|k: int|
                0 <= k < i ==> entry_of_event(
                    all@[k],
                    ReminderAnchor::Start,
                    all@,
                    now,
                    *late_window,
                    *calendar,
                    *reminders,
                    #[trigger] found[k],
                ),
        decreases all@.len() - i,
    {
        let entry = event_entry(
            &all[i],
            ReminderAnchor::Start,
            all,
            now,
            late_window,
            calendar,
            reminders,
        );
        let ghost before = found;
        proof {
            found = before.push(entry);
            assert(found.drop_last() == before);
            assert(forall|k: int| 0 <= k < i ==> #[trigger] found[k] == before[k]);
        }
        if let Some(entry) = entry {
            r.push(entry);
        }
        i += 1;
    }
    let mut n: usize = 0;
    while n < all.len()
        invariant
            n <= all@.len(),
            reminders.all_day_time < 86_400,
            found.len() == all@.len() + n,
            r@ == present(found),
            forall|k: int|
                0 <= k < all@.len() ==> entry_of_event(
                    all@[k],
                    ReminderAnchor::Start,
                    all@,
                    now,
                    *late_window,
                    *calendar,
                    *reminders,
                    #[trigger] found[k],
                ),
            forall|k: int|
                all@.len() <= k < all@.len() + n ==> entry_of_deadline(
                    all@[k - all@.len()],
                    all@,
                    now,
                    *late_window,
                    *calendar,
                    *reminders,
                    #[trigger] found[k],
                ),
        decreases all@.len() - n,
    {
        let entry = deadline_entry_of(&all[n], all, now, late_window, calendar, reminders);
        let ghost before = found;
        proof {
            found = before.push(entry);
            assert(found.drop_last() == before);
            assert(forall|k: int| 0 <= k < before.len() ==> #[trigger] found[k] == before[k]);
        }
        if let Some(entry) = entry {
            r.push(entry);
        }
        n += 1;
    }
    r
}

// ---------------------------------------------------- which reminders there are

/// The reminders of an entry; none where there is no entry.
pub open spec fn moments_in(entry: Option<(Task, Vec<ReminderMoment>)>) -> Seq<ReminderMoment> {
    match entry {
        Some((_, moments)) => moments@,
        None => Seq::empty(),
    }
}

proof fn lemma_longest(leads: Seq<Span>)
    ensures
        longest_of(leads) >= 0,
        forall|k: int| 0 <= k < leads.len() ==> (#[trigger] leads[k]).length() <= longest_of(leads),
        longest_of(leads) == 0 || exists|k: int|
            0 <= k < leads.len() && (#[trigger] leads[k]).length() == longest_of(leads),
    decreases leads.len(),
{
    if leads.len() > 0 {
        let front = leads.drop_last();
        lemma_longest(front);
        assert forall|k: int| 0 <= k < leads.len() implies (#[trigger] leads[k]).length()
            <= longest_of(leads) by {
            if k < front.len() {
                assert(front[k] == leads[k]);
            }
        }
        if longest_of(leads) != 0 {
            if leads.last().length() > longest_of(front) {
                assert(leads[leads.len() - 1].length() == longest_of(leads));
            } else {
                let k = choose|k: int|
                    0 <= k < front.len() && (#[trigger] front[k]).length() == longest_of(front);
                assert(leads[k].length() == longest_of(leads));
            }
        }
    }
}

/// The length of a lead of an event, in nanoseconds.
pub open spec fn lead_length(event: EventView, k: int) -> int {
    let lead = events::leads_of(event.reminder_names)[k];
    lead.0 * 1_000_000_000 + lead.1
}

/// The occurrences that are looked at reach from the start of the late window to the
/// farthest start that can be reminded of now: whatever start has a reminder due between
/// the two lies in between.
pub proof fn law_the_window_holds_every_start_with_a_reminder_due(
    event: Event,
    anchor: ReminderAnchor,
    all: Seq<Event>,
    now: Instant,
    late_window: Span,
    calendar: CalendarConfig,
    reminders: RemindersConfig,
    task: Task,
    starts: Option<Seq<AnytypeDate>>,
    from: Instant,
    to: Instant,
    r: Option<(Task, Vec<ReminderMoment>)>,
    start: int,
    k: int,
)
    requires
        entry_is(
            event,
            anchor,
            all,
            now,
            late_window,
            calendar,
            reminders,
            task,
            starts,
            from,
            to,
            r,
        ),
        r is Some,
        0 <= k < events::leads_of(event@.reminder_names).len(),
        lead_length(event@, k) >= 0,
        now.total() - late_window.length() <= start - lead_length(event@, k) <= now.total(),
    ensures
        from.total() <= start <= to.total() - 86_400_000_000_000,
{
    lemma_longest(task.reminder_leads@);
    assert(events::spans(task.reminder_leads@)[k] == events::leads_of(event@.reminder_names)[k]);
    assert(task.reminder_leads@[k].length() <= longest_of(task.reminder_leads@));
}

proof fn lemma_anchored_holds(
    parts: Seq<Seq<ReminderMoment>>,
    anchor: ReminderAnchor,
    p: int,
    i: int,
)
    requires
        0 <= p < parts.len(),
        0 <= i < parts[p].len(),
    ensures
        all_anchored(parts, anchor).contains(ReminderMoment { anchor, ..parts[p][i] }),
    decreases parts.len(),
{
    let one = ReminderMoment { anchor, ..parts[p][i] };
    let all = all_anchored(parts, anchor);
    let before = all_anchored(parts.drop_last(), anchor);
    if p < parts.len() - 1 {
        lemma_anchored_holds(parts.drop_last(), anchor, p, i);
        let j = choose|j: int| 0 <= j < before.len() && before[j] == one;
        assert(all[j] == one);
    } else {
        assert(all[before.len() + i] == one);
    }
}

proof fn lemma_anchored_comes_from(
    parts: Seq<Seq<ReminderMoment>>,
    anchor: ReminderAnchor,
    j: int,
) -> (r: (int, int))
    requires
        0 <= j < all_anchored(parts, anchor).len(),
    ensures
        0 <= r.0 < parts.len(),
        0 <= r.1 < parts[r.0].len(),
        all_anchored(parts, anchor)[j] == (ReminderMoment { anchor, ..parts[r.0][r.1] }),
    decreases parts.len(),
{
    let before = all_anchored(parts.drop_last(), anchor);
    if j < before.len() {
        lemma_anchored_comes_from(parts.drop_last(), anchor, j)
    } else {
        (parts.len() - 1, j - before.len())
    }
}

/// Whether some moments hold a reminder at a time, for this anchor and date.
pub open spec fn reminds_at(
    moments: Seq<ReminderMoment>,
    at: int,
    anchor: ReminderAnchor,
    value: When,
) -> bool {
    exists|i: int|
        0 <= i < moments.len() && (#[trigger] moments[i]).trigger_at == at && moments[i].anchor
            == anchor && moments[i].value@ == value
}

/// Every start of an entry has a reminder for each lead of the event: at the start less the
/// lead, or at the hour for whole days less the lead.
proof fn lemma_reminded_at_each_start(
    starts: Seq<AnytypeDate>,
    task: Task,
    event: EventView,
    anchor: ReminderAnchor,
    calendar: CalendarConfig,
    reminders: RemindersConfig,
    r: Seq<ReminderMoment>,
    p: int,
    k: int,
)
    requires
        stands_for(task, event),
        reminders.enabled,
        reminders_at(starts, task, anchor, calendar, reminders, r),
        0 <= p < starts.len(),
        0 <= k < events::leads_of(event.reminder_names).len(),
    ensures
        ({
            let value = model::classified_date(starts[p]@, calendar.date_only_timezone@);
            reminder::base_of(value, calendar, reminders) matches Some(base) ==> reminds_at(
                r,
                base - lead_length(event, k),
                anchor,
                value,
            )
        }),
{
    let value = model::classified_date(starts[p]@, calendar.date_only_timezone@);
    let parts = choose|parts: Seq<Seq<ReminderMoment>>|
        parts.len() == starts.len() && r == #[trigger] all_anchored(parts, anchor) && forall|
            i: int,
        |
            0 <= i < starts.len() ==> reminder::reminders_of(
                #[trigger] parts[i],
                Task { scheduled: Some(starts[i]), ..task },
                calendar,
                reminders,
            );
    let shifted = Task { scheduled: Some(starts[p]), ..task };
    assert(reminder::reminders_of(parts[p], shifted, calendar, reminders));
    if let Some(base) = reminder::base_of(value, calendar, reminders) {
        let lengths = reminder::lead_lengths(task.reminder_leads@, value, reminders.lead_time);
        let triggers = Seq::new(lengths.len(), |k: int| base - lengths[k]);
        assert(events::spans(task.reminder_leads@)[k] == events::leads_of(
            event.reminder_names,
        )[k]);
        assert(task.reminder_leads@[k].length() == lead_length(event, k));
        assert(lengths[k] == lead_length(event, k));
        assert(triggers[k] == base - lead_length(event, k));
        let i = choose|i: int|
            0 <= i < parts[p].len() && (#[trigger] parts[p][i]).trigger_at
                == #[trigger] triggers[k];
        lemma_anchored_holds(parts, anchor, p, i);
        let one = ReminderMoment { anchor, ..parts[p][i] };
        let j = choose|j: int| 0 <= j < r.len() && r[j] == one;
        assert(r[j].trigger_at == base - lead_length(event, k));
    }
}

/// Whether the moments that are looked at for an event's reminders are within reach.
pub open spec fn window_in_reach(event: EventView, now: Instant, late_window: Span) -> bool {
    &&& in_reach(now.total() - late_window.length())
    &&& forall|k: int|
        0 <= k < events::leads_of(event.reminder_names).len() ==> in_reach(
            now.total() + #[trigger] lead_length(event, k) + 86_400_000_000_000,
        )
}

/// Every reminder of an event that can be due now is among its entry, however long its
/// lead: where the start less a lead lies in the late window, there is an entry, and it
/// reminds at exactly that time. For a whole day it is the hour for whole days less the
/// lead, as long as the day began within the late window.
pub proof fn law_every_reminder_due_now_is_in_the_entry(
    event: Event,
    anchor: ReminderAnchor,
    all: Seq<Event>,
    now: Instant,
    late_window: Span,
    calendar: CalendarConfig,
    reminders: RemindersConfig,
    r: Option<(Task, Vec<ReminderMoment>)>,
    base: int,
    k: int,
)
    requires
        entry_of_event(event, anchor, all, now, late_window, calendar, reminders, r),
        reminders.enabled,
        event@.rrule is None,
        event@.start is Some,
        reminder::base_of(
            model::classified_date(event@.start->0, calendar.date_only_timezone@),
            calendar,
            reminders,
        ) == Some(base),
        0 <= k < events::leads_of(event@.reminder_names).len(),
        window_in_reach(event@, now, late_window),
        now.total() - late_window.length() <= base - lead_length(event@, k) <= now.total(),
        model::classified_date(event@.start->0, calendar.date_only_timezone@) is Day
            ==> now.total() - late_window.length() <= events::total_of(event@.start->0) <= base
            + 86_400_000_000_000,
    ensures
        r is Some,
        reminds_at(
            moments_in(r),
            base - lead_length(event@, k),
            anchor,
            model::classified_date(event@.start->0, calendar.date_only_timezone@),
        ),
{
    let (task, starts, from, to) = choose|
        task: Task,
        starts: Option<Seq<AnytypeDate>>,
        from: Instant,
        to: Instant,
    |
        #[trigger] entry_is(
            event,
            anchor,
            all,
            now,
            late_window,
            calendar,
            reminders,
            task,
            starts,
            from,
            to,
            r,
        );
    let start = event@.start->0;
    lemma_longest(task.reminder_leads@);
    assert(events::spans(task.reminder_leads@).len() == task.reminder_leads@.len());
    assert forall|j: int| 0 <= j < task.reminder_leads@.len() implies (
    #[trigger] task.reminder_leads@[j]).length() == lead_length(event@, j) by {
        assert(events::spans(task.reminder_leads@)[j] == events::leads_of(
            event@.reminder_names,
        )[j]);
    }
    let longest = longest_of(task.reminder_leads@);
    assert(task.reminder_leads@[k].length() <= longest);
    assert(in_reach(now.total() + longest + 86_400_000_000_000)) by {
        if longest == 0 {
            assert(task.reminder_leads@[k].length() == lead_length(event@, k));
            assert(in_reach(now.total() + lead_length(event@, k) + 86_400_000_000_000));
            assert(task.reminder_leads@[k].length() >= 0) by {
                task.reminder_leads@[k].lemma_not_negative();
            }
        } else {
            let j = choose|j: int|
                0 <= j < task.reminder_leads@.len() && (
                #[trigger] task.reminder_leads@[j]).length() == longest;
            assert(in_reach(now.total() + lead_length(event@, j) + 86_400_000_000_000));
        }
    }
    assert(task.reminder_leads@[k].length() >= 0) by {
        task.reminder_leads@[k].lemma_not_negative();
    }
    assert(events::within(start, from, to));
    let list = starts->0;
    assert(events::dates(list) == seq![start]);
    assert(list.len() == 1);
    assert(events::dates(list)[0] == list[0]@);
    lemma_reminded_at_each_start(
        list,
        task,
        event@,
        anchor,
        calendar,
        reminders,
        moments_in(r),
        0,
        k,
    );
}

/// An entry reminds of nothing else: each of its reminders is as far before the start of the
/// event, or before the hour for whole days, as one of the event's leads.
pub proof fn law_an_entry_reminds_only_by_its_leads(
    event: Event,
    anchor: ReminderAnchor,
    all: Seq<Event>,
    now: Instant,
    late_window: Span,
    calendar: CalendarConfig,
    reminders: RemindersConfig,
    r: Option<(Task, Vec<ReminderMoment>)>,
    j: int,
)
    requires
        entry_of_event(event, anchor, all, now, late_window, calendar, reminders, r),
        event@.rrule is None,
        r is Some,
        0 <= j < moments_in(r).len(),
    ensures
        event@.start is Some,
        moments_in(r)[j].anchor == anchor,
        moments_in(r)[j].value@ == model::classified_date(
            event@.start->0,
            calendar.date_only_timezone@,
        ),
        reminder::base_of(
            model::classified_date(event@.start->0, calendar.date_only_timezone@),
            calendar,
            reminders,
        ) matches Some(base) && exists|k: int|
            0 <= k < events::leads_of(event@.reminder_names).len() && moments_in(r)[j].trigger_at == base
                - #[trigger] lead_length(event@, k),
{
    let (task, starts, from, to) = choose|
        task: Task,
        starts: Option<Seq<AnytypeDate>>,
        from: Instant,
        to: Instant,
    |
        #[trigger] entry_is(
            event,
            anchor,
            all,
            now,
            late_window,
            calendar,
            reminders,
            task,
            starts,
            from,
            to,
            r,
        );
    let list = starts->0;
    let moments = moments_in(r);
    let parts = choose|parts: Seq<Seq<ReminderMoment>>|
        parts.len() == list.len() && moments == #[trigger] all_anchored(parts, anchor) && forall|
            i: int,
        |
            0 <= i < list.len() ==> reminder::reminders_of(
                #[trigger] parts[i],
                Task { scheduled: Some(list[i]), ..task },
                calendar,
                reminders,
            );
    let (p, i) = lemma_anchored_comes_from(parts, anchor, j);
    let shown = events::dates(list);
    assert(shown.len() == list.len() && shown[p] == list[p]@);
    assert(events::occurrences_are(
        event@,
        calendar.timezone@,
        replaced_in(all, event.object_id@),
        from,
        to,
        Some(shown),
    ));
    let start = event@.start->0;
    assert(shown[p] == start);
    let value = model::classified_date(start, calendar.date_only_timezone@);
    let shifted = Task { scheduled: Some(list[p]), ..task };
    assert(reminder::reminders_of(parts[p], shifted, calendar, reminders));
    let base = reminder::base_of(value, calendar, reminders)->0;
    let lengths = reminder::lead_lengths(task.reminder_leads@, value, reminders.lead_time);
    let triggers = Seq::new(lengths.len(), |k: int| base - lengths[k]);
    assert(triggers.contains(parts[p][i].trigger_at as int));
    let k = choose|k: int|
        0 <= k < triggers.len() && triggers[k] == parts[p][i].trigger_at as int;
    assert(events::spans(task.reminder_leads@)[k] == events::leads_of(event@.reminder_names)[k]);
    assert(task.reminder_leads@[k].length() == lead_length(event@, k));
}

/// Every start that a series' rule gives in the window, and that is neither left out nor
/// replaced by another object, is reminded of by each lead of the series.
pub proof fn law_every_occurrence_that_is_left_is_reminded_of(
    event: Event,
    anchor: ReminderAnchor,
    all: Seq<Event>,
    now: Instant,
    late_window: Span,
    calendar: CalendarConfig,
    reminders: RemindersConfig,
    task: Task,
    starts: Option<Seq<AnytypeDate>>,
    from: Instant,
    to: Instant,
    r: Option<(Task, Vec<ReminderMoment>)>,
    found: Seq<int>,
    i: int,
    k: int,
)
    requires
        entry_is(
            event,
            anchor,
            all,
            now,
            late_window,
            calendar,
            reminders,
            task,
            starts,
            from,
            to,
            r,
        ),
        r is Some,
        reminders.enabled,
        event@.start is Some,
        event@.rrule is Some,
        crate::recurrence::one_line(text::trimmed(event@.rrule->0)),
        crate::recurrence::anchored_between(
            event@.rrule->0,
            event@.start->0,
            calendar.timezone@,
            from,
            to,
            1000,
        ) == Some(found),
        0 <= i < found.len(),
        time::FIRST_SECOND <= found[i] <= time::LAST_SECOND,
        0 <= k < events::leads_of(event@.reminder_names).len(),
    ensures
        ({
            let at = events::occurrence_moment(
                found[i],
                calendar.timezone@,
                crate::recurrence::start_of(
                    model::classified_date(event@.start->0, calendar.timezone@),
                    calendar.timezone@,
                ).1,
            );
            let left_out = exists|j: int|
                0 <= j < event@.exdates.len() && (#[trigger] event@.exdates[j]).second == at
                    && event@.exdates[j].nano == 0;
            let replaced = exists|j: int|
                0 <= j < all.len() && (#[trigger] all[j])@.series == Some(event@.object_id)
                    && all[j]@.occurrence is Some && all[j]@.occurrence->0.second == at
                    && all[j]@.occurrence->0.nano == 0;
            !left_out && !replaced ==> (model::date_of(
                time::rfc3339_text(at, 0),
            ) matches Some(date) ==> {
                let value = model::classified_date(date, calendar.date_only_timezone@);
                reminder::base_of(value, calendar, reminders) matches Some(base) ==> reminds_at(
                    moments_in(r),
                    base - lead_length(event@, k),
                    anchor,
                    value,
                )
            })
        }),
{
    let zone = calendar.timezone@;
    let all_day = crate::recurrence::start_of(
        model::classified_date(event@.start->0, zone),
        zone,
    ).1;
    let skipped = events::date_moments(event@.exdates) + replaced_in(all, event.object_id@);
    let at = events::occurrence_moment(found[i], zone, all_day);
    if skipped.contains((at, 0int)) {
        let j = choose|j: int| 0 <= j < skipped.len() && skipped[j] == (at, 0int);
        if j < event@.exdates.len() {
            assert(event@.exdates[j].second == at && event@.exdates[j].nano == 0);
        } else {
            let held = replaced_in(all, event.object_id@);
            assert(held[j - event@.exdates.len()] == (at, 0int));
            assert(held.contains((at, 0int)));
            law_what_is_replaced(all, event.object_id@, at, 0);
        }
    } else if model::date_of(time::rfc3339_text(at, 0)) is Some {
        let date = model::date_of(time::rfc3339_text(at, 0))->0;
        let left = events::left_of(found, zone, all_day, skipped);
        lemma_left(found, zone, all_day, skipped, i);
        let list = starts->0;
        assert(events::dates(list) == left);
        let p = choose|p: int| 0 <= p < left.len() && left[p] == date;
        assert(events::dates(list)[p] == list[p]@);
        lemma_reminded_at_each_start(
            list,
            task,
            event@,
            anchor,
            calendar,
            reminders,
            moments_in(r),
            p,
            k,
        );
    }
}

proof fn lemma_left(
    found: Seq<int>,
    zone: Text,
    all_day: bool,
    skipped: Seq<(int, int)>,
    i: int,
)
    requires
        0 <= i < found.len(),
        time::FIRST_SECOND <= found[i] <= time::LAST_SECOND,
        !skipped.contains((events::occurrence_moment(found[i], zone, all_day), 0int)),
        model::date_of(
            time::rfc3339_text(events::occurrence_moment(found[i], zone, all_day), 0),
        ) is Some,
    ensures
        events::left_of(found, zone, all_day, skipped).contains(
            model::date_of(
                time::rfc3339_text(events::occurrence_moment(found[i], zone, all_day), 0),
            )->0,
        ),
    decreases found.len(),
{
    let date = model::date_of(
        time::rfc3339_text(events::occurrence_moment(found[i], zone, all_day), 0),
    )->0;
    let left = events::left_of(found, zone, all_day, skipped);
    let before = events::left_of(found.drop_last(), zone, all_day, skipped);
    if i < found.len() - 1 {
        lemma_left(found.drop_last(), zone, all_day, skipped, i);
        let p = choose|p: int| 0 <= p < before.len() && before[p] == date;
        assert(left[p] == date);
    } else {
        assert(left[left.len() - 1] == date);
    }
}

/// An occurrence of a series counts as replaced exactly where some object points at the
/// series and stands for that moment.
pub proof fn law_what_is_replaced(all: Seq<Event>, id: Text, second: int, nano: int)
    ensures
        replaced_in(all, id).contains((second, nano)) <==> exists|j: int|
            0 <= j < all.len() && (#[trigger] all[j])@.series == Some(id)
                && all[j]@.occurrence is Some && all[j]@.occurrence->0.second == second
                && all[j]@.occurrence->0.nano == nano,
    decreases all.len(),
{
    let held = replaced_in(all, id);
    if all.len() > 0 {
        let front = all.drop_last();
        let before = replaced_in(front, id);
        law_what_is_replaced(front, id, second, nano);
        assert(all[all.len() - 1] == all.last());
        if held.contains((second, nano)) {
            let i = choose|i: int| 0 <= i < held.len() && held[i] == (second, nano);
            if i < before.len() {
                assert(before[i] == (second, nano));
                let j = choose|j: int|
                    0 <= j < front.len() && (#[trigger] front[j])@.series == Some(id)
                        && front[j]@.occurrence is Some && front[j]@.occurrence->0.second == second
                        && front[j]@.occurrence->0.nano == nano;
                assert(all[j] == front[j]);
            }
        }
        if exists|j: int|
            0 <= j < all.len() && (#[trigger] all[j])@.series == Some(id)
                && all[j]@.occurrence is Some && all[j]@.occurrence->0.second == second
                && all[j]@.occurrence->0.nano == nano {
            let j = choose|j: int|
                0 <= j < all.len() && (#[trigger] all[j])@.series == Some(id)
                    && all[j]@.occurrence is Some && all[j]@.occurrence->0.second == second
                    && all[j]@.occurrence->0.nano == nano;
            if j < front.len() {
                assert(front[j] == all[j]);
                let i = choose|i: int| 0 <= i < before.len() && before[i] == (second, nano);
                assert(held[i] == (second, nano));
            } else {
                assert(held[held.len() - 1] == (second, nano));
            }
        }
    }
}

/// The entries are exactly those of the events and deadlines that have one.
pub proof fn law_no_entry_is_lost(
    found: Seq<Option<(Task, Vec<ReminderMoment>)>>,
    entry: (Task, Vec<ReminderMoment>),
)
    ensures
        present(found).contains(entry) <==> found.contains(Some(entry)),
    decreases found.len(),
{
    let all = present(found);
    if found.len() > 0 {
        let front = found.drop_last();
        let before = present(front);
        law_no_entry_is_lost(front, entry);
        assert(found[found.len() - 1] == found.last());
        if all.contains(entry) {
            let i = choose|i: int| 0 <= i < all.len() && all[i] == entry;
            if i < before.len() {
                assert(before[i] == entry);
                let j = choose|j: int| 0 <= j < front.len() && front[j] == Some(entry);
                assert(found[j] == Some(entry));
            }
        }
        if found.contains(Some(entry)) {
            let j = choose|j: int| 0 <= j < found.len() && found[j] == Some(entry);
            if j < front.len() {
                assert(front[j] == Some(entry));
                let i = choose|i: int| 0 <= i < before.len() && before[i] == entry;
                assert(all[i] == entry);
            } else {
                assert(all[all.len() - 1] == entry);
            }
        }
    }
}

/// Whether a claim is due for a reminder of an entry: to send it where it is due, not past
/// the late window, and reaches somebody; to give it up where it is past the late window.
pub open spec fn claim_due(
    trigger_at: int,
    now: int,
    late_window: int,
    audience: int,
    outcome: ReminderOutcome,
) -> bool {
    match outcome {
        ReminderOutcome::Attempted => now - late_window <= trigger_at <= now && audience > 0,
        ReminderOutcome::Expired => trigger_at < now - late_window,
    }
}

proof fn lemma_due_in(
    moments: Seq<ReminderMoment>,
    entry: int,
    now: int,
    late_window: int,
    audience: int,
    due: Due,
)
    requires
        moments.len() <= usize::MAX,
        0 <= entry <= usize::MAX,
        late_window >= 0,
        audience >= 0,
    ensures
        due_in(moments, entry, now, late_window, audience).0.contains(due) <==> due.entry == entry
            && due.moment < moments.len() && claim_due(
            moments[due.moment as int].trigger_at as int,
            now,
            late_window,
            audience,
            due.outcome,
        ),
    decreases moments.len(),
{
    let all = due_in(moments, entry, now, late_window, audience).0;
    if moments.len() > 0 {
        let front = moments.drop_last();
        let before = due_in(front, entry, now, late_window, audience).0;
        lemma_due_in(front, entry, now, late_window, audience, due);
        if all.contains(due) {
            let i = choose|i: int| 0 <= i < all.len() && all[i] == due;
            if i < before.len() {
                assert(before[i] == due);
            }
        }
        if before.contains(due) {
            let i = choose|i: int| 0 <= i < before.len() && before[i] == due;
            assert(all[i] == due);
        }
        if due.entry == entry && due.moment == moments.len() - 1 && claim_due(
            moments[due.moment as int].trigger_at as int,
            now,
            late_window,
            audience,
            due.outcome,
        ) {
            assert(all[all.len() - 1] == due);
        }
    }
}

/// A reminder is claimed exactly where it is due: to be sent from its moment to the end of
/// the late window if it reaches somebody, and to be given up after that.
pub proof fn law_what_is_due_is_claimed(
    entries: Seq<(Task, Vec<ReminderMoment>)>,
    now: int,
    late_window: int,
    audiences: Seq<usize>,
    due: Due,
)
    requires
        entries.len() <= usize::MAX,
        forall|e: int| 0 <= e < entries.len() ==> (#[trigger] entries[e]).1@.len() <= usize::MAX,
        late_window >= 0,
    ensures
        due_of(entries, now, late_window, audiences).0.contains(due) <==> due.entry < entries.len()
            && due.moment < entries[due.entry as int].1@.len() && claim_due(
            entries[due.entry as int].1@[due.moment as int].trigger_at as int,
            now,
            late_window,
            audiences[due.entry as int] as int,
            due.outcome,
        ),
    decreases entries.len(),
{
    let all = due_of(entries, now, late_window, audiences).0;
    if entries.len() > 0 {
        let front = entries.drop_last();
        let before = due_of(front, now, late_window, audiences).0;
        let last = entries.len() - 1;
        let here = due_in(entries.last().1@, last, now, late_window, audiences[last] as int).0;
        assert forall|e: int| 0 <= e < front.len() implies (#[trigger] front[e]).1@.len()
            <= usize::MAX by {
            assert(front[e] == entries[e]);
        }
        law_what_is_due_is_claimed(front, now, late_window, audiences, due);
        assert(entries[last].1@.len() <= usize::MAX);
        lemma_due_in(
            entries.last().1@,
            last,
            now,
            late_window,
            audiences[last] as int,
            due,
        );
        if all.contains(due) {
            let i = choose|i: int| 0 <= i < all.len() && all[i] == due;
            if i < before.len() {
                assert(before[i] == due);
            } else {
                assert(here[i - before.len()] == due);
            }
        }
        if before.contains(due) {
            let i = choose|i: int| 0 <= i < before.len() && before[i] == due;
            assert(all[i] == due);
        }
        if here.contains(due) {
            let i = choose|i: int| 0 <= i < here.len() && here[i] == due;
            assert(all[before.len() + i] == due);
        }
    }
}

// ------------------------------------------------------------------ what a reminder says

/// What a reminder says is true when it is sent: it speaks of a moment as past exactly from
/// that moment on, gives the clock time of the calendar's zone, and tells how long is left
/// only of a moment that is still to come today.
pub proof fn law_a_reminder_tells_the_moment(
    anchor: ReminderAnchor,
    second: int,
    nano: int,
    now: Instant,
    zone: Text,
    language: Language,
)
    ensures
        ({
            let said = description(anchor, When::At(second, nano), now, zone, language);
            let at = second * 1_000_000_000 + nano;
            let local = time::local_at(zone, second);
            let today = time::day_of(time::local_at(zone, now.second()));
            let clock = locale::at_words(language, time::clock_text(time::clock_of(local)));
            let day = locale::day_words(language, time::day_of(local), today);
            &&& now.total() >= at ==> said == locale::anchor_words(language, anchor, true)@ + " "@
                + day + " "@ + clock
            &&& now.total() < at && time::day_of(local) != today ==> said == locale::anchor_words(
                language,
                anchor,
                false,
            )@ + " "@ + day + " "@ + clock
            &&& now.total() < at && time::day_of(local) == today ==> forall|left: int|
                left * 1_000_000_000 <= at - now.total() < (left + 1) * 1_000_000_000
                    ==> text::starts_with(
                    said,
                    locale::anchor_words(language, anchor, false)@ + " "@
                        + #[trigger] locale::wait_words(language, left),
                )
            &&& text::ends_with(said, day + " "@ + clock)
        }),
{
    let said = description(anchor, When::At(second, nano), now, zone, language);
    let at = second * 1_000_000_000 + nano;
    let local = time::local_at(zone, second);
    let today = time::day_of(time::local_at(zone, now.second()));
    let clock = locale::at_words(language, time::clock_text(time::clock_of(local)));
    let day = locale::day_words(language, time::day_of(local), today);
    let end = day + " "@ + clock;
    if now.total() < at && time::day_of(local) == today {
        let front = locale::anchor_words(language, anchor, false)@;
        let ahead = (at - now.total()) / 1_000_000_000;
        let wait = locale::wait_words(language, ahead);
        assert(said == front + " "@ + wait + " — "@ + end);
        assert forall|left: int|
            left * 1_000_000_000 <= at - now.total() < (left + 1) * 1_000_000_000 implies text::starts_with(
            said,
            front + " "@ + #[trigger] locale::wait_words(language, left),
        ) by {
            assert(left == ahead);
            let head = front + " "@ + wait;
            assert(said.subrange(0, head.len() as int) == head);
        }
    } else {
        let front = locale::anchor_words(language, anchor, at <= now.total())@;
        assert(said == front + " "@ + end);
        assert(said == front + " "@ + day + " "@ + clock);
    }
    assert(said.subrange(said.len() - end.len(), said.len() as int) == end);
}

/// Of a whole day, a reminder speaks as past only once the day is over, and gives no clock
/// time.
pub proof fn law_a_reminder_tells_the_day(
    anchor: ReminderAnchor,
    day: int,
    now: Instant,
    zone: Text,
    language: Language,
)
    ensures
        ({
            let said = description(anchor, When::Day(day), now, zone, language);
            let today = time::day_of(time::local_at(zone, now.second()));
            &&& today > day ==> said == locale::anchor_words(language, anchor, true)@ + " "@
                + locale::day_words(language, day, today)
            &&& today <= day ==> said == locale::anchor_words(language, anchor, false)@ + " "@
                + locale::day_words(language, day, today)
        }),
{
}

/// The deadline of a single event is reminded of like a start: by the leads of the event,
/// counted from the deadline, under the name of the event. A series, or an event without a
/// deadline, has no such reminders.
pub proof fn law_a_deadline_is_reminded_of_like_a_start(
    event: Event,
    all: Seq<Event>,
    now: Instant,
    late_window: Span,
    calendar: CalendarConfig,
    reminders: RemindersConfig,
    r: Option<(Task, Vec<ReminderMoment>)>,
)
    requires
        entry_of_deadline(event, all, now, late_window, calendar, reminders, r),
    ensures
        event@.deadline is None || event@.rrule is Some ==> r is None,
        event@.deadline is Some && event@.rrule is None ==> exists|named: Event|
            named@.start == event@.deadline && named@.name == event@.name && named@.reminder_names
                == event@.reminder_names && named@.object_id == event@.object_id && named@.rrule
                is None && named@.end is None && #[trigger] entry_of_event(
                named,
                ReminderAnchor::Deadline,
                all,
                now,
                late_window,
                calendar,
                reminders,
                r,
            ),
{
    if let Some(entry) = events::entry_of(event@, calendar.language) {
        let named = choose|named: Event|
            named@ == (EventView { name: event@.name, ..entry }) && #[trigger] entry_of_event(
                named,
                ReminderAnchor::Deadline,
                all,
                now,
                late_window,
                calendar,
                reminders,
                r,
            );
        assert(named@.start == event@.deadline);
    }
}

/// A reminder of a task concerns those that it is assigned to, and one of an event
/// everyone.
pub proof fn law_whom_a_reminder_concerns(
    tasks: Seq<(Task, Vec<ReminderMoment>)>,
    events: Seq<(Task, Vec<ReminderMoment>)>,
    i: int,
)
    ensures
        0 <= i < tasks.len() ==> concerned(tasks + events, tasks.len() as int, i) == Some(
            text::texts(tasks[i].0.assignees@),
        ),
        0 <= i < events.len() ==> concerned(
            tasks + events,
            tasks.len() as int,
            tasks.len() + i,
        ) is None,
{
}

} // verus!
