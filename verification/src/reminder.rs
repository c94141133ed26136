//! Shared reminder timing for both iCalendar alarms and Web Push.
use vstd::prelude::*;

use crate::config::{CalendarConfig, RemindersConfig};
use crate::model::{AnytypeDate, CalendarValue, Task};
use crate::time;
use crate::time::{Span, When};

verus! {

#[derive(Debug, Clone, Copy, PartialEq, Eq, Structural)]
pub enum ReminderAnchor {
    Deadline,
    Scheduled,
    Start,
}

#[derive(Debug, Clone, Copy, PartialEq, Eq, Structural)]
pub struct ReminderMoment {
    /// Nanoseconds since 1970.
    pub trigger_at: i128,
    pub anchor: ReminderAnchor,
    /// The anchor date the trigger was derived from. Carried along so a caller
    /// that needs to describe the reminder cannot pick a different field than
    /// the one that produced the timing.
    pub value: CalendarValue,
}

/// The date that a task is reminded of: its deadline, or else its plan.
pub open spec fn reminded(task: Task) -> Option<(ReminderAnchor, AnytypeDate)> {
    match (task.deadline, task.scheduled) {
        (Some(date), _) => Some((ReminderAnchor::Deadline, date)),
        (None, Some(date)) => Some((ReminderAnchor::Scheduled, date)),
        (None, None) => None,
    }
}

/// The moment that lead times count back from: a date's own, or the hour at
/// which a whole day is announced, where clocks show it.
pub open spec fn base_of(
    value: When,
    calendar: CalendarConfig,
    reminders: RemindersConfig,
) -> Option<int> {
    match value {
        When::At(second, nano) => Some(second * 1_000_000_000 + nano),
        When::Day(day) => match time::first_moment(
            calendar.timezone@,
            day * 86_400 + reminders.all_day_time,
        ) {
            Some(second) => Some(second * 1_000_000_000),
            None => None,
        },
    }
}

/// How far back a task's reminders lie: by its own lead times, or else by the
/// default one, which a whole day does not have.
pub open spec fn lead_lengths(leads: Seq<Span>, value: When, default_lead: Span) -> Seq<int> {
    if leads.len() > 0 {
        Seq::new(leads.len(), |i: int| leads[i].length())
    } else if value is Day {
        seq![0int]
    } else {
        seq![default_lead.length()]
    }
}

/// The moments `r` are those at `triggers`, each once and the earliest first.
pub open spec fn moments_at(
    r: Seq<ReminderMoment>,
    triggers: Seq<int>,
    anchor: ReminderAnchor,
    value: When,
) -> bool {
    &&& forall|i: int, j: int|
        0 <= i < j < r.len() ==> (#[trigger] r[i]).trigger_at < (#[trigger] r[j]).trigger_at
    &&& forall|i: int|
        0 <= i < r.len() ==> triggers.contains((#[trigger] r[i]).trigger_at as int) && r[i].anchor
            == anchor && r[i].value@ == value
    &&& forall|k: int|
        0 <= k < triggers.len() ==> exists|i: int|
            0 <= i < r.len() && (#[trigger] r[i]).trigger_at == #[trigger] triggers[k]
}

/// The moments at which a task is reminded of.
pub open spec fn reminders_of(
    r: Seq<ReminderMoment>,
    task: Task,
    calendar: CalendarConfig,
    reminders: RemindersConfig,
) -> bool {
    match reminded(task) {
        None => r.len() == 0,
        Some((anchor, date)) => {
            let value = crate::model::classified_date(date@, calendar.date_only_timezone@);
            match base_of(value, calendar, reminders) {
                None => r.len() == 0,
                Some(base) => if !reminders.enabled || task.done {
                    r.len() == 0
                } else {
                    let lengths = lead_lengths(
                        task.reminder_leads@,
                        value,
                        reminders.lead_time,
                    );
                    moments_at(
                        r,
                        Seq::new(lengths.len(), |k: int| base - lengths[k]),
                        anchor,
                        value,
                    )
                },
            }
        },
    }
}

/// How many reminders a task has at most.
pub open spec fn most_reminders(task: Task) -> int {
    if reminded(task) is None || task.done {
        0
    } else if task.reminder_leads@.len() == 0 {
        1
    } else {
        task.reminder_leads@.len() as int
    }
}

pub fn reminders_at_most(task: &Task) -> (r: usize)
    ensures
        r == most_reminders(*task),
{
    if (task.deadline.is_none() && task.scheduled.is_none()) || task.done {
        0
    } else if task.reminder_leads.len() == 0 {
        1
    } else {
        task.reminder_leads.len()
    }
}

/// A task has no more reminders than lead times, or one where it has none.
pub proof fn lemma_most_reminders(
    r: Seq<ReminderMoment>,
    task: Task,
    calendar: CalendarConfig,
    reminders: RemindersConfig,
)
    requires
        reminders_of(r, task, calendar, reminders),
    ensures
        r.len() <= most_reminders(task),
{
    if r.len() > 0 {
        let (anchor, date) = reminded(task)->0;
        let value = crate::model::classified_date(date@, calendar.date_only_timezone@);
        let base = base_of(value, calendar, reminders)->0;
        let lengths = lead_lengths(task.reminder_leads@, value, reminders.lead_time);
        let triggers = Seq::new(lengths.len(), |k: int| base - lengths[k]);
        let due = due_at(r);
        assert forall|i: int, j: int| 0 <= i < due.len() && 0 <= j < due.len() && i != j implies
            due[i] != due[j] by {
            if i < j {
                assert(r[i].trigger_at < r[j].trigger_at);
            } else {
                assert(r[j].trigger_at < r[i].trigger_at);
            }
        }
        due.unique_seq_to_set();
        triggers.lemma_cardinality_of_set();
        assert(due.to_set().subset_of(triggers.to_set())) by {
            assert forall|x: int| due.to_set().contains(x) implies triggers.to_set().contains(
                x,
            ) by {
                let i = choose|i: int| 0 <= i < due.len() && due[i] == x;
                assert(triggers.contains(r[i].trigger_at as int));
            }
        }
        vstd::set_lib::lemma_len_subset(due.to_set(), triggers.to_set());
    }
}

/// Numbers in order, each once.
spec fn increasing(s: Seq<int>) -> bool {
    forall|i: int, j: int| 0 <= i < j < s.len() ==> (#[trigger] s[i]) < (#[trigger] s[j])
}

proof fn lemma_same_increasing(a: Seq<int>, b: Seq<int>)
    requires
        increasing(a),
        increasing(b),
        forall|i: int| 0 <= i < a.len() ==> b.contains(#[trigger] a[i]),
        forall|i: int| 0 <= i < b.len() ==> a.contains(#[trigger] b[i]),
    ensures
        a == b,
    decreases a.len(),
{
    if a.len() == 0 {
        if b.len() > 0 {
            assert(a.contains(b[0]));
        }
    } else {
        assert(b.contains(a[a.len() - 1]));
        let x = a.drop_last();
        let y = b.drop_last();
        assert(a.contains(b[b.len() - 1]));
        let i = choose|i: int| 0 <= i < a.len() && a[i] == b[b.len() - 1];
        let j = choose|j: int| 0 <= j < b.len() && b[j] == a[a.len() - 1];
        assert(a.last() == b.last()) by {
            if i < a.len() - 1 {
                assert(a[i] < a[a.len() - 1]);
            }
            if j < b.len() - 1 {
                assert(b[j] < b[b.len() - 1]);
            }
        }
        assert(increasing(x)) by {
            assert forall|k: int, l: int| 0 <= k < l < x.len() implies (#[trigger] x[k]) < (
            #[trigger] x[l]) by {
                assert(a[k] < a[l]);
            }
        }
        assert(increasing(y)) by {
            assert forall|k: int, l: int| 0 <= k < l < y.len() implies (#[trigger] y[k]) < (
            #[trigger] y[l]) by {
                assert(b[k] < b[l]);
            }
        }
        assert forall|k: int| 0 <= k < x.len() implies y.contains(#[trigger] x[k]) by {
            assert(b.contains(a[k]));
            let l = choose|l: int| 0 <= l < b.len() && b[l] == a[k];
            assert(a[k] < a[a.len() - 1]);
            assert(y[l] == x[k]);
        }
        assert forall|k: int| 0 <= k < y.len() implies x.contains(#[trigger] y[k]) by {
            assert(a.contains(b[k]));
            let l = choose|l: int| 0 <= l < a.len() && a[l] == b[k];
            assert(b[k] < b[b.len() - 1]);
            assert(x[l] == y[k]);
        }
        lemma_same_increasing(x, y);
        assert(a == x.push(a.last()));
        assert(b == y.push(b.last()));
    }
}

/// The moments at which reminders are due.
pub open spec fn due_at(r: Seq<ReminderMoment>) -> Seq<int> {
    Seq::new(r.len(), |i: int| r[i].trigger_at as int)
}

proof fn lemma_same_moments(
    a: Seq<ReminderMoment>,
    b: Seq<ReminderMoment>,
    triggers: Seq<int>,
    anchor: ReminderAnchor,
    value: When,
)
    requires
        moments_at(a, triggers, anchor, value),
        moments_at(b, triggers, anchor, value),
    ensures
        due_at(a) == due_at(b),
{
    let x = due_at(a);
    let y = due_at(b);
    assert forall|i: int| 0 <= i < x.len() implies y.contains(#[trigger] x[i]) by {
        assert(triggers.contains(a[i].trigger_at as int));
        let k = choose|k: int| 0 <= k < triggers.len() && triggers[k] == a[i].trigger_at as int;
        let j = choose|j: int|
            0 <= j < b.len() && (#[trigger] b[j]).trigger_at == #[trigger] triggers[k];
        assert(y[j] == x[i]);
    }
    assert forall|i: int| 0 <= i < y.len() implies x.contains(#[trigger] y[i]) by {
        assert(triggers.contains(b[i].trigger_at as int));
        let k = choose|k: int| 0 <= k < triggers.len() && triggers[k] == b[i].trigger_at as int;
        let j = choose|j: int|
            0 <= j < a.len() && (#[trigger] a[j]).trigger_at == #[trigger] triggers[k];
        assert(x[j] == y[i]);
    }
    assert(increasing(x)) by {
        assert forall|i: int, j: int| 0 <= i < j < x.len() implies (#[trigger] x[i]) < (
        #[trigger] x[j]) by {
            assert(a[i].trigger_at < a[j].trigger_at);
        }
    }
    assert(increasing(y)) by {
        assert forall|i: int, j: int| 0 <= i < j < y.len() implies (#[trigger] y[i]) < (
        #[trigger] y[j]) by {
            assert(b[i].trigger_at < b[j].trigger_at);
        }
    }
    lemma_same_increasing(x, y);
}

/// The reminders of a task are always due at the same moments.
pub proof fn law_reminders_are_determined(
    a: Seq<ReminderMoment>,
    b: Seq<ReminderMoment>,
    task: Task,
    calendar: CalendarConfig,
    reminders: RemindersConfig,
)
    requires
        reminders_of(a, task, calendar, reminders),
        reminders_of(b, task, calendar, reminders),
    ensures
        due_at(a) == due_at(b),
{
    match reminded(task) {
        None => {
            assert(due_at(a) =~= due_at(b));
        },
        Some((anchor, date)) => {
            let value = crate::model::classified_date(date@, calendar.date_only_timezone@);
            match base_of(value, calendar, reminders) {
                None => {
                    assert(due_at(a) =~= due_at(b));
                },
                Some(base) => {
                    if !reminders.enabled || task.done {
                        assert(due_at(a) =~= due_at(b));
                    } else {
                        let lengths = lead_lengths(
                            task.reminder_leads@,
                            value,
                            reminders.lead_time,
                        );
                        let triggers = Seq::new(lengths.len(), |k: int| base - lengths[k]);
                        lemma_same_moments(a, b, triggers, anchor, value);
                    }
                },
            }
        },
    }
}

/// A task that is done, or without any date, is never reminded of.
pub proof fn law_nothing_reminds_of_what_is_done(
    r: Seq<ReminderMoment>,
    task: Task,
    calendar: CalendarConfig,
    reminders: RemindersConfig,
)
    requires
        reminders_of(r, task, calendar, reminders),
        task.done || (task.deadline is None && task.scheduled is None) || !reminders.enabled,
    ensures
        r.len() == 0,
{
}

/// Puts a moment in its place among moments in order, unless one is there.
fn place(moments: &mut Vec<ReminderMoment>, moment: ReminderMoment)
    requires
        forall|i: int, j: int|
            0 <= i < j < old(moments)@.len() ==> (#[trigger] old(moments)@[i]).trigger_at < (
            #[trigger] old(moments)@[j]).trigger_at,
    ensures
        forall|i: int, j: int|
            0 <= i < j < final(moments)@.len() ==> (#[trigger] final(moments)@[i]).trigger_at < (
            #[trigger] final(moments)@[j]).trigger_at,
        forall|i: int|
            0 <= i < final(moments)@.len() ==> (#[trigger] final(moments)@[i]) == moment || old(
                moments,
            )@.contains(final(moments)@[i]),
        forall|i: int|
            0 <= i < old(moments)@.len() ==> final(moments)@.contains(#[trigger] old(moments)@[i]),
        exists|i: int|
            0 <= i < final(moments)@.len() && (#[trigger] final(moments)@[i]).trigger_at
                == moment.trigger_at,
{
    let ghost before = moments@;
    let mut at: usize = 0;
    while at < moments.len() && moments[at].trigger_at < moment.trigger_at
        invariant
            at <= moments@.len(),
            moments@ == before,
            forall|i: int| 0 <= i < at ==> before[i].trigger_at < moment.trigger_at,
        decreases moments@.len() - at,
    {
        at += 1;
    }
    if at < moments.len() && moments[at].trigger_at == moment.trigger_at {
        assert(moments@[at as int].trigger_at == moment.trigger_at);
        assert forall|i: int| 0 <= i < before.len() implies moments@.contains(
            #[trigger] before[i],
        ) by {
            assert(moments@[i] == before[i]);
        }
        return;
    }
    moments.insert(at, moment);
    let ghost after = moments@;
    assert(after == before.insert(at as int, moment));
    assert(after[at as int] == moment);
    assert forall|i: int| 0 <= i < before.len() implies after.contains(#[trigger] before[i]) by {
        if i < at {
            assert(after[i] == before[i]);
        } else {
            assert(after[i + 1] == before[i]);
        }
    }
    assert forall|i: int| 0 <= i < after.len() implies (#[trigger] after[i]) == moment
        || before.contains(after[i]) by {
        if i < at {
            assert(after[i] == before[i]);
        } else if i > at {
            assert(after[i] == before[i - 1]);
        }
    }
    assert forall|i: int, j: int| 0 <= i < j < after.len() implies (#[trigger] after[i]).trigger_at
        < (#[trigger] after[j]).trigger_at by {
        let a = if i < at {
            before[i]
        } else if i == at {
            moment
        } else {
            before[i - 1]
        };
        let b = if j < at {
            before[j]
        } else if j == at {
            moment
        } else {
            before[j - 1]
        };
        if at < before.len() {
            assert(before[at as int].trigger_at > moment.trigger_at);
            if j - 1 > at {
                assert(before[at as int].trigger_at < before[j - 1].trigger_at);
            }
        }
    }
}

/// Computes every reminder instant for one task, earliest first.
///
/// A task carries its own lead times when the reminder property is filled in;
/// otherwise the configured default applies. An all-day value has no default
/// lead at all: `all_day_time` already *is* the hour at which a task with no time
/// of day should announce itself. An explicit lead does subtract from that hour.
/// Where clocks skip that hour, there is no reminder rather than one at another
/// hour.
pub fn reminders_for(
    task: &Task,
    calendar: &CalendarConfig,
    reminders: &RemindersConfig,
) -> (r: Vec<ReminderMoment>)
    requires
        reminders.all_day_time < 86_400,
    ensures
        reminders_of(r@, *task, *calendar, *reminders),
{
    let mut moments: Vec<ReminderMoment> = Vec::new();
    if !reminders.enabled || task.done {
        return moments;
    }
    let (anchor, date) = match (&task.deadline, &task.scheduled) {
        (Some(date), _) => (ReminderAnchor::Deadline, date),
        (None, Some(date)) => (ReminderAnchor::Scheduled, date),
        (None, None) => return moments,
    };
    let value = date.classify(&calendar.date_only_timezone);
    let (base, default_lead): (i128, Span) = match value {
        CalendarValue::Instant(at) => (at.in_nanos(), reminders.lead_time),
        CalendarValue::AllDay(day) => {
            match calendar.timezone.earliest_of(day, reminders.all_day_time) {
                Some(at) => (at.in_nanos(), time::no_time()),
                None => return moments,
            }
        },
    };
    let mut leads: Vec<Span> = Vec::new();
    let ghost lengths = lead_lengths(task.reminder_leads@, value@, reminders.lead_time);
    let ghost triggers = Seq::new(lengths.len(), |k: int| base - lengths[k]);
    if task.reminder_leads.len() == 0 {
        leads.push(default_lead);
    } else {
        let mut i: usize = 0;
        while i < task.reminder_leads.len()
            invariant
                i <= task.reminder_leads@.len(),
                leads@ == task.reminder_leads@.take(i as int),
            decreases task.reminder_leads@.len() - i,
        {
            leads.push(task.reminder_leads[i]);
            i += 1;
            assert(leads@ == task.reminder_leads@.take(i as int));
        }
        assert(task.reminder_leads@.take(i as int) == task.reminder_leads@);
    }
    assert(lengths == Seq::new(leads@.len(), |k: int| leads@[k].length()));
    let mut i: usize = 0;
    while i < leads.len()
        invariant
            i <= leads@.len(),
            -9_000_000_000_000_000_000_000 <= base <= 9_000_000_000_000_000_000_000,
            lengths == Seq::new(leads@.len(), |k: int| leads@[k].length()),
            triggers == Seq::new(lengths.len(), |k: int| base - lengths[k]),
            moments_at(moments@, triggers.take(i as int), anchor, value@),
        decreases leads@.len() - i,
    {
        let ghost before = moments@;
        let trigger_at: i128 = base - leads[i].in_nanos();
        assert(trigger_at == triggers[i as int]);
        place(&mut moments, ReminderMoment { trigger_at, anchor, value });
        i += 1;
        let ghost now = triggers.take(i as int);
        assert(now.drop_last() == triggers.take(i - 1));
        assert(now[i - 1] == trigger_at);
        assert forall|a: int| 0 <= a < moments@.len() implies now.contains(
            (#[trigger] moments@[a]).trigger_at as int,
        ) && moments@[a].anchor == anchor && moments@[a].value@ == value@ by {
            if before.contains(moments@[a]) {
                let b = choose|b: int| 0 <= b < before.len() && before[b] == moments@[a];
                let earlier = triggers.take(i - 1);
                assert(earlier.contains(before[b].trigger_at as int));
                let c = choose|c: int|
                    0 <= c < earlier.len() && earlier[c] == before[b].trigger_at as int;
                assert(now[c] == before[b].trigger_at as int);
            }
        }
        assert forall|k: int| 0 <= k < now.len() implies exists|a: int|
            0 <= a < moments@.len() && (#[trigger] moments@[a]).trigger_at == #[trigger] now[k] by {
            if k < i - 1 {
                assert(triggers.take(i - 1)[k] == now[k]);
                let b = choose|b: int|
                    0 <= b < before.len() && (#[trigger] before[b]).trigger_at == now[k];
                assert(moments@.contains(before[b]));
            }
        }
    }
    assert(triggers.take(i as int) == triggers);
    moments
}

/// The date that a task is reminded of is its deadline where it has one, and its plan
/// otherwise; each lead of the task gives a reminder that long before the date, or before the
/// hour for whole days. A task without leads is reminded once: the default lead before a
/// moment, and at the hour for whole days on a day.
pub proof fn law_each_lead_gives_a_reminder(
    r: Seq<ReminderMoment>,
    task: Task,
    calendar: CalendarConfig,
    reminders: RemindersConfig,
    date: AnytypeDate,
    base: int,
    k: int,
)
    requires
        reminders_of(r, task, calendar, reminders),
        reminders.enabled,
        !task.done,
        task.deadline == Some(date) || task.deadline is None && task.scheduled == Some(date),
        match crate::model::classified_date(date@, calendar.date_only_timezone@) {
            When::At(second, nano) => base == second * 1_000_000_000 + nano,
            When::Day(day) => time::first_moment(
                calendar.timezone@,
                day * 86_400 + reminders.all_day_time,
            ) matches Some(second) && base == second * 1_000_000_000,
        },
    ensures
        0 <= k < task.reminder_leads@.len() ==> exists|i: int|
            0 <= i < r.len() && (#[trigger] r[i]).trigger_at + task.reminder_leads@[k].length()
                == base,
        task.reminder_leads@.len() == 0 ==> r.len() == 1 && r[0].trigger_at == base - (
        if crate::model::classified_date(date@, calendar.date_only_timezone@) is Day {
            0
        } else {
            reminders.lead_time.length()
        }),
        forall|i: int|
            0 <= i < r.len() ==> (#[trigger] r[i]).value@ == crate::model::classified_date(
                date@,
                calendar.date_only_timezone@,
            ) && r[i].anchor == (if task.deadline is Some {
                ReminderAnchor::Deadline
            } else {
                ReminderAnchor::Scheduled
            }),
{
    let value = crate::model::classified_date(date@, calendar.date_only_timezone@);
    let lengths = lead_lengths(task.reminder_leads@, value, reminders.lead_time);
    let triggers = Seq::new(lengths.len(), |k: int| base - lengths[k]);
    if 0 <= k < task.reminder_leads@.len() {
        assert(lengths[k] == task.reminder_leads@[k].length());
        assert(triggers[k] == base - lengths[k]);
        let i = choose|i: int|
            0 <= i < r.len() && (#[trigger] r[i]).trigger_at == #[trigger] triggers[k];
        assert(r[i].trigger_at + task.reminder_leads@[k].length() == base);
    }
    if task.reminder_leads@.len() == 0 {
        assert(triggers.len() == 1);
        assert(triggers[0] == base - lengths[0]);
        let i = choose|i: int|
            0 <= i < r.len() && (#[trigger] r[i]).trigger_at == #[trigger] triggers[0];
        assert forall|j: int| 0 <= j < r.len() implies (#[trigger] r[j]).trigger_at
            == triggers[0] by {
            assert(triggers.contains(r[j].trigger_at as int));
        }
        if r.len() > 1 {
            assert(r[0].trigger_at < r[1].trigger_at);
        }
    }
}

/// A task is reminded of at no other time: each of its reminders is one of its leads, or the
/// default one, before its date.
pub proof fn law_no_other_reminder_is_given(
    r: Seq<ReminderMoment>,
    task: Task,
    calendar: CalendarConfig,
    reminders: RemindersConfig,
    base: int,
    i: int,
)
    requires
        reminders_of(r, task, calendar, reminders),
        task.reminder_leads@.len() > 0,
        0 <= i < r.len(),
        reminded(task) matches Some((_, date)) && base_of(
            crate::model::classified_date(date@, calendar.date_only_timezone@),
            calendar,
            reminders,
        ) == Some(base),
    ensures
        exists|k: int|
            0 <= k < task.reminder_leads@.len() && r[i].trigger_at + (
            #[trigger] task.reminder_leads@[k]).length() == base,
{
    let (anchor, date) = reminded(task)->0;
    let value = crate::model::classified_date(date@, calendar.date_only_timezone@);
    let lengths = lead_lengths(task.reminder_leads@, value, reminders.lead_time);
    let triggers = Seq::new(lengths.len(), |k: int| base - lengths[k]);
    assert(triggers.contains(r[i].trigger_at as int));
    let k = choose|k: int| 0 <= k < triggers.len() && triggers[k] == r[i].trigger_at as int;
    assert(lengths[k] == task.reminder_leads@[k].length());
}

} // verus!
