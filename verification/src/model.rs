//! Source-neutral task model.
use vstd::prelude::*;

use crate::table::Table;
use crate::text;
use crate::text::Text;
use crate::time;
use crate::time::{Day, Instant, Span, When, Zone};

verus! {

/// A date exactly as Anytype returned it, before any normalization.
///
/// The raw text is retained because the Anytype HTTP API models a date property
/// as an RFC 3339 string with no flag for whether it carries a meaningful time
/// component.
#[derive(Debug, Clone, PartialEq, Eq)]
pub struct AnytypeDate {
    pub raw: String,
    pub parsed: Instant,
    /// What the text's own clock shows beyond UTC, in seconds.
    pub offset: i32,
}

/// A date as plain values.
#[verifier::ext_equal]
pub struct DateView {
    pub raw: Text,
    pub second: int,
    pub nano: int,
    pub offset: int,
}

impl View for AnytypeDate {
    type V = DateView;

    open spec fn view(&self) -> DateView {
        DateView {
            raw: self.raw@,
            second: self.parsed.second(),
            nano: self.parsed.nano(),
            offset: self.offset as int,
        }
    }
}

/// The calendar-facing form of a date.
#[derive(Debug, Clone, Copy, PartialEq, Eq, Structural)]
pub enum CalendarValue {
    /// A whole day.
    AllDay(Day),
    /// A moment.
    Instant(Instant),
}

impl View for CalendarValue {
    type V = When;

    open spec fn view(&self) -> When {
        match self {
            CalendarValue::AllDay(day) => When::Day(day.nth()),
            CalendarValue::Instant(at) => When::At(at.second(), at.nano()),
        }
    }
}

/// What a text is read as: itself without white space around it, and the moment
/// that it names.
pub open spec fn date_of(raw: Text) -> Option<DateView> {
    match time::rfc3339(text::trimmed(raw)) {
        Some((second, nano, offset)) => Some(
            DateView { raw: text::trimmed(raw), second, nano, offset },
        ),
        None => None,
    }
}

/// How a moment is written into a calendar whose days are those of a zone: one
/// that lands on midnight there is that whole day.
pub open spec fn classified(second: int, nano: int, zone: Text) -> When {
    let local = time::local_at(zone, second);
    if time::clock_of(local) == 0 && nano == 0 {
        When::Day(time::day_of(local))
    } else {
        When::At(second, nano)
    }
}

pub open spec fn classified_date(date: DateView, zone: Text) -> When {
    classified(date.second, date.nano, zone)
}

/// Whether a moment lands on midnight in the zone, and what is then written.
pub fn classify_instant(at: Instant, zone: &Zone) -> (r: CalendarValue)
    ensures
        r@ == classified(at.second(), at.nano(), zone@),
{
    let (day, clock) = zone.show(at);
    if clock == 0 && at.nanos() == 0 {
        CalendarValue::AllDay(day)
    } else {
        CalendarValue::Instant(at)
    }
}

impl AnytypeDate {
    pub fn parse(raw: &str) -> (r: Option<AnytypeDate>)
        ensures
            match r {
                Some(date) => date_of(raw@) == Some(date@),
                None => date_of(raw@) is None,
            },
    {
        let raw = text::trim(raw);
        match time::parse_rfc3339(raw) {
            Some((parsed, offset)) => Some(AnytypeDate { raw: raw.to_owned(), parsed, offset }),
            None => None,
        }
    }

    /// Decides how the value is written into the calendar.
    ///
    /// A value that lands on midnight in `date_only_tz` is treated as an all-day
    /// value. Everything else becomes a UTC instant: a fixed point in time is
    /// unambiguous in every client and needs no time zone definition.
    pub fn classify(&self, date_only_tz: &Zone) -> (r: CalendarValue)
        ensures
            r@ == classified_date(self@, date_only_tz@),
    {
        classify_instant(self.parsed, date_only_tz)
    }

    pub fn copy(&self) -> (r: AnytypeDate)
        ensures
            r == *self,
    {
        AnytypeDate { raw: self.raw.clone(), parsed: self.parsed, offset: self.offset }
    }
}

pub open spec fn date_view(date: Option<AnytypeDate>) -> Option<DateView> {
    match date {
        Some(date) => Some(date@),
        None => None,
    }
}

pub fn copy_date(date: &Option<AnytypeDate>) -> (r: Option<AnytypeDate>)
    ensures
        r == *date,
{
    match date {
        Some(date) => Some(date.copy()),
        None => None,
    }
}

#[derive(Debug, Clone, PartialEq, Eq)]
pub struct Task {
    pub object_id: String,
    pub name: String,
    pub scheduled: Option<AnytypeDate>,
    pub deadline: Option<AnytypeDate>,
    pub done: bool,
    /// Lead times chosen on the task itself. Empty means "use the configured
    /// default"; several values mean several reminders.
    pub reminder_leads: Vec<Span>,
    /// Option names of the tags property, in Anytype's order.
    pub tags: Vec<String>,
    /// The people the task is assigned to, the first of whom serves it.
    pub assignees: Vec<String>,
    /// The UID a calendar client gave the task.
    pub ical_uid: Option<String>,
    pub object_url: Option<String>,
    pub last_modified: Option<Instant>,
}

/// The UID of an object: the one a client gave it, or one made of its id.
pub open spec fn uid_of(object_id: Text, ical_uid: Option<Text>) -> Text {
    match ical_uid {
        Some(uid) => uid,
        None => object_id + "@anytype-task-exporter"@,
    }
}

pub fn uid_for(object_id: &str, ical_uid: &Option<String>) -> (r: String)
    ensures
        r@ == uid_of(object_id@, text::text_of(*ical_uid)),
{
    match ical_uid {
        Some(uid) => uid.clone(),
        None => text::glue(object_id, "@anytype-task-exporter"),
    }
}

impl Task {
    pub open spec fn spec_uid(self) -> Text {
        uid_of(self.object_id@, text::text_of(self.ical_uid))
    }

    /// Stable across renames and date edits: a calendar client updates the
    /// existing component instead of creating a duplicate.
    pub fn uid(&self) -> (r: String)
        ensures
            r@ == self.spec_uid(),
    {
        uid_for(self.object_id.as_str(), &self.ical_uid)
    }
}

/// One complete, successful read of the source.
#[derive(Debug, Clone)]
pub struct TaskBatch {
    pub tasks: Vec<Task>,
    /// Values that could not be parsed, reported once per refresh rather than
    /// per object, so a systemic problem is one log line and not thousands.
    pub warnings: Vec<String>,
    /// The people a task can be assigned to, by the id a calendar is keyed on.
    pub members: Table<String>,
    /// The people who may sign in.
    pub account_holders: Vec<String>,
}

impl Default for TaskBatch {
    fn default() -> (r: TaskBatch)
        ensures
            r.tasks@.len() == 0,
            r.warnings@.len() == 0,
            r.members@.len() == 0,
            r.account_holders@.len() == 0,
    {
        TaskBatch {
            tasks: Vec::new(),
            warnings: Vec::new(),
            members: Table::new(),
            account_holders: Vec::new(),
        }
    }
}

} // verus!
