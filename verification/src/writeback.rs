//! Turns a VTODO a calendar client sent back into changes to an Anytype task.
//!
//! The rule is to write only what differs from what the calendar is sent now, and
//! to write it into the property it came from. A client patches the bytes it last
//! received, so an unchanged field comes back unchanged and is left alone.
use vstd::prelude::*;

use crate::config::CalendarConfig;
use crate::ical;
pub use crate::ical::Moment;
use crate::ical::{Line, LineView, WireDate, WireView};
use crate::model;
use crate::model::{CalendarValue, Task};
use crate::text;
use crate::text::Text;
use crate::time;
use crate::time::{When, Zone};

verus! {

/// The fields of a VTODO that are understood.
#[derive(Debug, Clone, PartialEq)]
pub struct Incoming {
    pub uid: Option<String>,
    pub summary: Option<String>,
    pub done: bool,
    pub start: Option<WireDate>,
    pub due: Option<WireDate>,
    /// CATEGORIES values.
    pub categories: Vec<String>,
}

#[verifier::ext_equal]
pub struct IncomingView {
    pub uid: Option<Text>,
    pub summary: Option<Text>,
    pub done: bool,
    pub start: Option<WireView>,
    pub due: Option<WireView>,
    pub categories: Seq<Text>,
}

impl View for Incoming {
    type V = IncomingView;

    open spec fn view(&self) -> IncomingView {
        IncomingView {
            uid: text::text_of(self.uid),
            summary: text::text_of(self.summary),
            done: self.done,
            start: ical::wire_view(self.start),
            due: ical::wire_view(self.due),
            categories: text::texts(self.categories@),
        }
    }
}

#[derive(Debug, PartialEq)]
pub enum WriteError {
    NotCalendar(String),
    NoTodo,
    Overrides(usize),
}

impl WriteError {
    /// The error in words.
    pub open spec fn words(self) -> Text {
        match self {
            WriteError::NotCalendar(m) => "body is not an iCalendar document: "@ + m@,
            WriteError::NoTodo => "body carries no VTODO; only tasks can be written"@,
            WriteError::Overrides(n) => "body carries "@ + text::decimal(n as nat)
                + " VTODOs; recurrence overrides are not supported yet"@,
        }
    }

    pub fn message(&self) -> (r: String)
        ensures
            r@ == self.words(),
    {
        match self {
            WriteError::NotCalendar(m) => text::glue(
                "body is not an iCalendar document: ",
                m.as_str(),
            ),
            WriteError::NoTodo => "body carries no VTODO; only tasks can be written".to_owned(),
            WriteError::Overrides(n) => {
                let mut r = "body carries ".to_owned();
                r.append(text::number(*n as u64).as_str());
                r.append(" VTODOs; recurrence overrides are not supported yet");
                r
            },
        }
    }
}

/// What to change on an Anytype task. `Some(None)` clears a date.
#[derive(Debug, Clone, PartialEq)]
pub struct Patch {
    pub name: Option<String>,
    pub done: Option<bool>,
    /// RFC 3339 UTC, in the shape Anytype stores (date-only = local midnight).
    pub scheduled: Option<Option<String>>,
    pub deadline: Option<Option<String>>,
    /// Option names for the tag property; an empty list clears the tags.
    pub tags: Option<Vec<String>>,
    /// The people the task is assigned to.
    pub assignees: Option<Vec<String>>,
}

#[verifier::ext_equal]
pub struct PatchView {
    pub name: Option<Text>,
    pub done: Option<bool>,
    pub scheduled: Option<Option<Text>>,
    pub deadline: Option<Option<Text>>,
    pub tags: Option<Seq<Text>>,
    pub assignees: Option<Seq<Text>>,
}

pub open spec fn text_change(change: Option<Option<String>>) -> Option<Option<Text>> {
    match change {
        Some(value) => Some(text::text_of(value)),
        None => None,
    }
}

pub open spec fn list_change(change: Option<Vec<String>>) -> Option<Seq<Text>> {
    match change {
        Some(list) => Some(text::texts(list@)),
        None => None,
    }
}

impl View for Patch {
    type V = PatchView;

    open spec fn view(&self) -> PatchView {
        PatchView {
            name: text::text_of(self.name),
            done: self.done,
            scheduled: text_change(self.scheduled),
            deadline: text_change(self.deadline),
            tags: list_change(self.tags),
            assignees: list_change(self.assignees),
        }
    }
}

/// A patch that changes nothing.
pub open spec fn no_change() -> PatchView {
    PatchView {
        name: None,
        done: None,
        scheduled: None,
        deadline: None,
        tags: None,
        assignees: None,
    }
}

impl Default for Patch {
    fn default() -> (r: Patch)
        ensures
            r@ == no_change(),
    {
        Patch {
            name: None,
            done: None,
            scheduled: None,
            deadline: None,
            tags: None,
            assignees: None,
        }
    }
}

impl Patch {
    pub fn is_empty(&self) -> (r: bool)
        ensures
            r == (self@ == no_change()),
    {
        self.name.is_none() && self.done.is_none() && self.tags.is_none()
            && self.scheduled.is_none() && self.deadline.is_none() && self.assignees.is_none()
    }
}

/// Whether a text is a percentage of a hundred or more, as one byte holds it.
pub open spec fn complete(value: Text) -> bool {
    let digits = if value.len() > 0 && value[0] == '+' {
        value.drop_first()
    } else {
        value
    };
    match text::digits_value(digits) {
        Some(n) => 100 <= n <= 255,
        None => false,
    }
}

/// Whether a text is a completion date.
pub uninterp spec fn is_completion(value: Text) -> bool;

/// `icalendar::Todo::get_completed` of a VTODO with this COMPLETED value: whether
/// it is one depends on the value alone.
#[verifier::external_body]
fn reads_completion(value: &str) -> (r: bool)
    ensures
        r == is_completion(value@),
{
    let mut todo = icalendar::Todo::new();
    icalendar::Component::add_property(&mut todo, "COMPLETED", value);
    todo.get_completed().is_some()
}

/// Whether the lines of a VTODO say that it is done: by its status, by its
/// percentage or by the date of its completion.
pub open spec fn done_in(lines: Seq<LineView>) -> bool {
    ||| ical::only_value(lines, "STATUS"@) == Some("COMPLETED"@)
    ||| ical::only_value(lines, "STATUS"@) == Some("CANCELLED"@)
    ||| (ical::only_value(lines, "PERCENT-COMPLETE"@) matches Some(value) && complete(value))
    ||| (ical::only_value(lines, "COMPLETED"@) matches Some(value) && is_completion(value))
}

/// What the lines of a VTODO say.
pub open spec fn todo_of(lines: Seq<LineView>) -> IncomingView {
    IncomingView {
        uid: ical::only_value(lines, "UID"@),
        summary: ical::filled(ical::only_value(lines, "SUMMARY"@)),
        done: done_in(lines),
        start: ical::only_date(lines, "DTSTART"@),
        due: ical::only_date(lines, "DUE"@),
        categories: ical::categories_in(lines),
    }
}

fn reads_complete(value: &str) -> (r: bool)
    ensures
        r == complete(value@),
{
    let mut v = text::chars_of(value);
    if v.len() > 0 && v[0] == '+' {
        v.remove(0);
        assert(v@ == value@.drop_first());
    }
    match text::parse_digits(&v, 255) {
        Some(n) => n >= 100,
        None => false,
    }
}

/// Whether the dates of a VTODO were read as the ones that its lines were written for.
pub open spec fn dates_kept(lines: Seq<LineView>, incoming: IncomingView) -> bool {
    &&& ical::date_kept(ical::only_line(lines, "DTSTART"@), incoming.start)
    &&& ical::date_kept(ical::only_line(lines, "DUE"@), incoming.due)
}

/// What the lines of a VTODO say.
pub fn todo_from(lines: &Vec<Line>) -> (r: Incoming)
    ensures
        r@ == todo_of(ical::lines(lines@)),
        dates_kept(ical::lines(lines@), r@),
{
    let status = ical::find_value(lines, "STATUS");
    let percent = match ical::find_value(lines, "PERCENT-COMPLETE") {
        Some(value) => reads_complete(value.as_str()),
        None => false,
    };
    let completed = match ical::find_value(lines, "COMPLETED") {
        Some(value) => reads_completion(value.as_str()),
        None => false,
    };
    let done = text::is_text(&status, "COMPLETED") || text::is_text(&status, "CANCELLED")
        || percent || completed;
    Incoming {
        uid: ical::find_value(lines, "UID"),
        summary: ical::fill(ical::find_value(lines, "SUMMARY")),
        done,
        start: ical::find_date(lines, "DTSTART"),
        due: ical::find_date(lines, "DUE"),
        categories: ical::categories(lines),
    }
}

/// What a document that was read into its VTODOs says: exactly one task, or why
/// it is refused.
pub open spec fn single_todo(
    read: Result<Seq<Seq<LineView>>, Text>,
    r: Result<Incoming, WriteError>,
) -> bool {
    match read {
        Err(error) => r matches Err(WriteError::NotCalendar(m)) && m@ == error,
        Ok(todos) => if todos.len() == 0 {
            r matches Err(WriteError::NoTodo)
        } else if todos.len() == 1 {
            r matches Ok(incoming) && incoming@ == todo_of(todos[0]) && dates_kept(
                todos[0],
                incoming@,
            )
        } else {
            r matches Err(WriteError::Overrides(n)) && n == todos.len()
        },
    }
}

/// The one task of a document that was read into its VTODOs.
pub fn only_todo(read: Result<Vec<Vec<Line>>, String>) -> (r: Result<Incoming, WriteError>)
    ensures
        single_todo(ical::document(read), r),
{
    match read {
        Err(error) => Err(WriteError::NotCalendar(error)),
        Ok(todos) => if todos.len() == 0 {
            Err(WriteError::NoTodo)
        } else if todos.len() == 1 {
            Ok(todo_from(&todos[0]))
        } else {
            Err(WriteError::Overrides(todos.len()))
        },
    }
}

/// Reads the body of a PUT.
pub fn parse(body: &str) -> (r: Result<Incoming, WriteError>)
    ensures
        single_todo(ical::todos_in(ical::terminated_text(body@)), r),
{
    only_todo(ical::read_todos(body))
}

/// Anytype's storage shape of a moment or a day: a day is its first moment in
/// the zone.
pub open spec fn stored(value: When, zone: Text) -> Option<Text> {
    match value {
        When::Day(day) => match time::first_moment(zone, day * 86_400) {
            Some(second) => Some(time::rfc3339_text(second, 0)),
            None => None,
        },
        When::At(second, nano) => Some(time::rfc3339_text(second, nano)),
    }
}

/// Whether a second lies in the years 0 to 9999, which RFC 3339 can write.
pub open spec fn in_four_digit_years(second: int) -> bool {
    -62_167_219_200 <= second <= 253_402_300_799
}

/// Whether a text is read as this moment or day of a zone.
pub open spec fn read_back(text: Text, value: When, zone: Text) -> bool {
    time::rfc3339(text) matches Some((second, nano, _)) && model::classified(second, nano, zone)
        == value
}

/// Whether what is stored of a moment or a day is read as it again, in the years that RFC
/// 3339 can write; of a moment, its whole second.
pub open spec fn text_kept(value: When, zone: Text) -> bool {
    match value {
        When::Day(day) => time::first_moment(zone, day * 86_400) matches Some(at) ==> (
        in_four_digit_years(at) ==> read_back(time::rfc3339_text(at, 0), value, zone)),
        When::At(at, nano) => nano < 1_000_000_000 && in_four_digit_years(at) ==> time::rfc3339(
            time::rfc3339_text(at, nano),
        ) == Some((at, 0int, 0int)),
    }
}

/// Whether a text was made that is read as this second, if that is in the years that RFC
/// 3339 can write.
pub open spec fn names_second(text: Option<String>, second: int) -> bool {
    in_four_digit_years(second) ==> text is Some && time::rfc3339(text->0@) == Some(
        (second, 0int, 0int),
    )
}

/// Anytype's storage shape: a date-only value is local midnight in
/// `date_only_tz`, serialised as UTC. A stored day is read back as that day.
pub fn to_anytype(value: Moment, date_only_tz: &Zone) -> (r: Option<String>)
    ensures
        text::text_of(r) == stored(value@, date_only_tz@),
        value@ matches When::Day(day) && r is Some && in_four_digit_years(
            time::first_moment(date_only_tz@, day * 86_400)->0,
        ) ==> read_back(r->0@, value@, date_only_tz@),
        match value@ {
            When::Day(day) => time::first_moment(date_only_tz@, day * 86_400) matches Some(at)
                ==> names_second(r, at),
            When::At(at, nano) => nano < 1_000_000_000 ==> names_second(r, at),
        },
        text_kept(value@, date_only_tz@),
{
    match value {
        Moment::Day(day) => match date_only_tz.earliest_of(day, 0) {
            Some(at) => {
                let text = time::rfc3339_of(at);
                proof {
                    if in_four_digit_years(at.second()) {
                        assert(time::local_at(date_only_tz@, at.second()) == day.nth() * 86_400);
                    }
                }
                Some(text)
            },
            None => None,
        },
        Moment::At(at) => Some(time::rfc3339_of(at)),
    }
}

/// What an instant means that is written into a property: at the first or last
/// second of a day, and into a property that holds a whole day, it is that day.
pub open spec fn whole_day_kept(value: When, property: Option<When>, zone: Text) -> When {
    match value {
        When::At(second, nano) => {
            let local = time::local_at(zone, second);
            let clock = time::clock_of(local);
            if (property matches Some(When::Day(_))) && (clock == 0 || clock == 86_399) {
                When::Day(time::day_of(local))
            } else {
                value
            }
        },
        When::Day(_) => value,
    }
}

/// A client may turn a whole-day value into an instant at the edge of the day.
/// Written back into a property that holds a whole day, such an instant means
/// that day again.
pub fn keep_whole_day(value: Moment, property: Option<CalendarValue>, tz: &Zone) -> (r: Moment)
    ensures
        r@ == whole_day_kept(value@, value_view(property), tz@),
{
    match (value, property) {
        (Moment::At(at), Some(CalendarValue::AllDay(_))) => {
            let (day, clock) = tz.show(at);
            if clock == 0 || clock == 86_399 {
                Moment::Day(day)
            } else {
                value
            }
        },
        _ => value,
    }
}

pub open spec fn value_view(value: Option<CalendarValue>) -> Option<When> {
    match value {
        Some(value) => Some(value@),
        None => None,
    }
}

/// Which property a date on the wire came from.
#[derive(Debug, Clone, Copy, PartialEq, Eq, Structural)]
pub enum Origin {
    Scheduled,
    Deadline,
    Both,
}

/// The dates that a task is sent with, and where they came from.
#[derive(Debug)]
pub struct Wire {
    pub start: Option<(WireDate, Origin)>,
    pub due: Option<(WireDate, Origin)>,
}

pub open spec fn sent_date(sent: Option<(WireDate, Origin)>) -> Option<WireView> {
    match sent {
        Some((date, _)) => Some(date@),
        None => None,
    }
}

pub open spec fn sent_from(sent: Option<(WireDate, Origin)>) -> Option<Origin> {
    match sent {
        Some((_, origin)) => Some(origin),
        None => None,
    }
}

/// The new tags, where they are not the old ones in some order.
pub open spec fn tag_change(current: Seq<Text>, incoming: Seq<Text>) -> Option<Seq<Text>> {
    if current.to_multiset() == incoming.to_multiset() {
        None
    } else {
        Some(incoming)
    }
}

/// Tags changed when the sets differ; order is not kept by Anytype.
pub fn tags_patch(current: &Vec<String>, incoming: &Vec<String>) -> (r: Option<Vec<String>>)
    ensures
        list_change(r) == tag_change(text::texts(current@), text::texts(incoming@)),
{
    if text::same_bag(current, incoming) {
        None
    } else {
        Some(text::copy_list(incoming))
    }
}

/// What is written into a property for a moment.
pub open spec fn written(
    value: Option<When>,
    property: Option<When>,
    config: CalendarConfig,
) -> Option<Text> {
    match value {
        Some(value) => stored(
            whole_day_kept(value, property, config.timezone@),
            config.date_only_timezone@,
        ),
        None => None,
    }
}

/// Whether what is written into a property for a moment is read as it again.
pub open spec fn written_kept(
    value: Option<When>,
    property: Option<When>,
    config: CalendarConfig,
) -> bool {
    value matches Some(value) ==> text_kept(
        whole_day_kept(value, property, config.timezone@),
        config.date_only_timezone@,
    )
}

fn write(value: Option<Moment>, property: Option<CalendarValue>, config: &CalendarConfig) -> (r:
    Option<String>)
    ensures
        text::text_of(r) == written(ical::when_view(value), value_view(property), *config),
        written_kept(ical::when_view(value), value_view(property), *config),
{
    match value {
        Some(value) => to_anytype(
            keep_whole_day(value, property, &config.timezone),
            &config.date_only_timezone,
        ),
        None => None,
    }
}

/// How a date of the task is written in calendars.
pub open spec fn property_value(date: Option<model::AnytypeDate>, zone: Text) -> Option<When> {
    match date {
        Some(date) => Some(model::classified_date(date@, zone)),
        None => None,
    }
}

pub(crate) fn classify_property(date: &Option<model::AnytypeDate>, zone: &Zone) -> (r: Option<CalendarValue>)
    ensures
        value_view(r) == property_value(*date, zone@),
{
    match date {
        Some(date) => Some(date.classify(zone)),
        None => None,
    }
}

/// The start that a client sent: one equal to the due date is none.
pub open spec fn new_start(incoming: IncomingView, zone: Text) -> Option<When> {
    let start = ical::moment_in(incoming.start, zone);
    if start == ical::moment_in(incoming.due, zone) {
        None
    } else {
        start
    }
}

/// The changes of the dates: the plan and the deadline.
pub open spec fn date_changes(
    current: Task,
    wire: Wire,
    incoming: IncomingView,
    config: CalendarConfig,
) -> (Option<Option<Text>>, Option<Option<Text>>) {
    let zone = config.timezone@;
    let now_start = ical::moment_in(sent_date(wire.start), zone);
    let now_due = ical::moment_in(sent_date(wire.due), zone);
    let start = new_start(incoming, zone);
    let due = ical::moment_in(incoming.due, zone);
    let scheduled = property_value(current.scheduled, config.date_only_timezone@);
    let deadline = property_value(current.deadline, config.date_only_timezone@);
    if start is Some && now_start is None {
        (
            Some(written(start, scheduled, config)),
            Some(written(due, deadline, config)),
        )
    } else {
        let moved = if start != now_start {
            Some(written(start, scheduled, config))
        } else {
            None
        };
        if due == now_due {
            (moved, None)
        } else {
            match sent_from(wire.due) {
                Some(Origin::Deadline) => (moved, Some(written(due, deadline, config))),
                Some(Origin::Both) => (
                    Some(written(due, scheduled, config)),
                    Some(written(due, deadline, config)),
                ),
                _ => (Some(written(due, scheduled, config)), None),
            }
        }
    }
}

/// The changes that a client's version of a task makes.
pub open spec fn update_of(
    current: Task,
    wire: Wire,
    incoming: IncomingView,
    config: CalendarConfig,
) -> PatchView {
    let (scheduled, deadline) = date_changes(current, wire, incoming, config);
    PatchView {
        name: match incoming.summary {
            Some(name) => if name != current.name@ {
                Some(name)
            } else {
                None
            },
            None => None,
        },
        done: if incoming.done != current.done {
            Some(incoming.done)
        } else {
            None
        },
        scheduled,
        deadline,
        tags: tag_change(text::texts(current.tags@), incoming.categories),
        assignees: None,
    }
}

/// Whether the dates that an update writes are read as they were sent: a new start in the
/// plan, and a new due date in the property that the due date came from.
pub open spec fn update_kept(
    current: Task,
    wire: Wire,
    incoming: IncomingView,
    config: CalendarConfig,
) -> bool {
    let zone = config.timezone@;
    let now_start = ical::moment_in(sent_date(wire.start), zone);
    let now_due = ical::moment_in(sent_date(wire.due), zone);
    let start = new_start(incoming, zone);
    let due = ical::moment_in(incoming.due, zone);
    let scheduled = property_value(current.scheduled, config.date_only_timezone@);
    let deadline = property_value(current.deadline, config.date_only_timezone@);
    let from = sent_from(wire.due);
    let appears = start is Some && now_start is None;
    &&& appears || start != now_start && (due == now_due || from == Some(Origin::Deadline))
        ==> written_kept(start, scheduled, config)
    &&& appears || due != now_due && (from == Some(Origin::Deadline) || from == Some(Origin::Both))
        ==> written_kept(due, deadline, config)
    &&& !appears && due != now_due && from != Some(Origin::Deadline) ==> written_kept(
        due,
        scheduled,
        config,
    )
}

/// Changes for an existing task, given what it is sent as now.
pub fn for_update(current: &Task, wire: &Wire, incoming: &Incoming, config: &CalendarConfig) -> (r:
    Patch)
    ensures
        r@ == update_of(*current, *wire, incoming@, *config),
        update_kept(*current, *wire, incoming@, *config),
{
    let tz = &config.timezone;
    let date_tz = &config.date_only_timezone;
    let mut patch = Patch::default();
    match &incoming.summary {
        Some(name) => {
            if !text::same(name.as_str(), current.name.as_str()) {
                patch.name = Some(name.clone());
            }
        },
        None => {},
    }
    if incoming.done != current.done {
        patch.done = Some(incoming.done);
    }
    patch.tags = tags_patch(&current.tags, &incoming.categories);

    let now_start = match &wire.start {
        Some((date, _)) => ical::moment(date, tz),
        None => None,
    };
    let (now_due, origin) = match &wire.due {
        Some((date, origin)) => (ical::moment(date, tz), Some(*origin)),
        None => (None, None),
    };
    let new_due = ical::moment_or_none(&incoming.due, tz);
    // A client writes DTSTART only when it differs from DUE.
    let mut start = ical::moment_or_none(&incoming.start, tz);
    if ical::same_moment(start, new_due) {
        start = None;
    }
    let scheduled_now = classify_property(&current.scheduled, date_tz);
    let deadline_now = classify_property(&current.deadline, date_tz);

    // A start appearing where there was none turns the task into a plan with
    // a deadline: the client now holds two dates, and each needs a property.
    if start.is_some() && now_start.is_none() {
        patch.scheduled = Some(write(start, scheduled_now, config));
        patch.deadline = Some(write(new_due, deadline_now, config));
        return patch;
    }
    if !ical::same_moment(start, now_start) {
        patch.scheduled = Some(write(start, scheduled_now, config));
    }
    if !ical::same_moment(new_due, now_due) {
        match origin {
            Some(Origin::Deadline) => {
                patch.deadline = Some(write(new_due, deadline_now, config));
            },
            Some(Origin::Both) => {
                patch.scheduled = Some(write(new_due, scheduled_now, config));
                patch.deadline = Some(write(new_due, deadline_now, config));
            },
            // A plan, or no date before: a date set in a calendar is a plan.
            Some(Origin::Scheduled) | None => {
                patch.scheduled = Some(write(new_due, scheduled_now, config));
            },
        }
    }
    patch
}

pub open spec fn stored_change(value: Option<When>, zone: Text) -> Option<Option<Text>> {
    match value {
        Some(value) => Some(stored(value, zone)),
        None => None,
    }
}

/// A name, or what stands for one that is missing.
pub open spec fn named_or_not(name: Option<Text>) -> Text {
    match name {
        Some(name) => name,
        None => "(unnamed)"@,
    }
}

pub fn name_or_not(name: &Option<String>) -> (r: String)
    ensures
        r@ == named_or_not(text::text_of(*name)),
{
    match name {
        Some(name) => name.clone(),
        None => "(unnamed)".to_owned(),
    }
}

pub open spec fn filled_list(list: Seq<Text>) -> Option<Seq<Text>> {
    if list.len() > 0 {
        Some(list)
    } else {
        None
    }
}

pub fn list_or_none(list: &Vec<String>) -> (r: Option<Vec<String>>)
    ensures
        list_change(r) == filled_list(text::texts(list@)),
{
    if list.len() > 0 {
        Some(text::copy_list(list))
    } else {
        None
    }
}

/// The fields of a task that a client made: its due date is a plan, or a deadline
/// beside a start.
pub open spec fn creation_of(incoming: IncomingView, config: CalendarConfig) -> PatchView {
    let zone = config.timezone@;
    let due = ical::moment_in(incoming.due, zone);
    let start = new_start(incoming, zone);
    PatchView {
        name: Some(named_or_not(incoming.summary)),
        done: Some(incoming.done),
        scheduled: stored_change(
            if start is Some {
                start
            } else {
                due
            },
            config.date_only_timezone@,
        ),
        deadline: if start is Some {
            stored_change(due, config.date_only_timezone@)
        } else {
            None
        },
        tags: filled_list(incoming.categories),
        assignees: None,
    }
}

fn store(value: Option<Moment>, zone: &Zone) -> (r: Option<Option<String>>)
    ensures
        text_change(r) == stored_change(ical::when_view(value), zone@),
        ical::when_view(value) matches Some(value) ==> text_kept(value, zone@),
{
    match value {
        Some(value) => Some(to_anytype(value, zone)),
        None => None,
    }
}

/// Whether the dates that a new task is written with are read as they were sent.
pub open spec fn creation_kept(incoming: IncomingView, config: CalendarConfig) -> bool {
    &&& new_start(incoming, config.timezone@) matches Some(start) ==> text_kept(
        start,
        config.date_only_timezone@,
    )
    &&& ical::moment_in(incoming.due, config.timezone@) matches Some(due) ==> text_kept(
        due,
        config.date_only_timezone@,
    )
}

/// Fields for a task created in the client.
pub fn for_create(incoming: &Incoming, config: &CalendarConfig) -> (r: Patch)
    ensures
        r@ == creation_of(incoming@, *config),
        creation_kept(incoming@, *config),
{
    let tz = &config.timezone;
    let date_tz = &config.date_only_timezone;
    let due = ical::moment_or_none(&incoming.due, tz);
    let mut start = ical::moment_or_none(&incoming.start, tz);
    if ical::same_moment(start, due) {
        start = None;
    }
    let (scheduled, deadline) = if start.is_some() {
        (start, due)
    } else {
        (due, None)
    };
    Patch {
        name: Some(name_or_not(&incoming.summary)),
        done: Some(incoming.done),
        scheduled: store(scheduled, date_tz),
        deadline: store(deadline, date_tz),
        tags: list_or_none(&incoming.categories),
        assignees: None,
    }
}

/// Writing back what a task was sent as changes nothing: where the client returns
/// the task's name, its state, its tags in some order and its dates as they were
/// sent, the patch is empty. A start is only ever sent beside a due date that
/// differs from it.
pub proof fn law_unchanged_changes_nothing(
    current: Task,
    wire: Wire,
    incoming: IncomingView,
    config: CalendarConfig,
)
    requires
        incoming.summary == Some(current.name@) || incoming.summary is None,
        incoming.done == current.done,
        incoming.categories.to_multiset() == text::texts(current.tags@).to_multiset(),
        ical::moment_in(incoming.start, config.timezone@) == ical::moment_in(
            sent_date(wire.start),
            config.timezone@,
        ),
        ical::moment_in(incoming.due, config.timezone@) == ical::moment_in(
            sent_date(wire.due),
            config.timezone@,
        ),
        ical::moment_in(sent_date(wire.start), config.timezone@) is Some ==> ical::moment_in(
            sent_date(wire.start),
            config.timezone@,
        ) != ical::moment_in(sent_date(wire.due), config.timezone@),
    ensures
        update_of(current, wire, incoming, config) == no_change(),
{
}

/// A plan that the calendar does not show as a date of its own is left alone: a
/// changed due date that came from the deadline alone never writes the plan, and
/// one that came from the plan alone never writes the deadline, as long as no
/// start appears or changes.
pub proof fn law_a_date_is_written_where_it_came_from(
    current: Task,
    wire: Wire,
    incoming: IncomingView,
    config: CalendarConfig,
)
    requires
        new_start(incoming, config.timezone@) == ical::moment_in(
            sent_date(wire.start),
            config.timezone@,
        ),
    ensures
        sent_from(wire.due) == Some(Origin::Deadline) ==> update_of(
            current,
            wire,
            incoming,
            config,
        ).scheduled is None,
        sent_from(wire.due) != Some(Origin::Deadline) && sent_from(wire.due) != Some(Origin::Both)
            ==> update_of(current, wire, incoming, config).deadline is None,
{
}

/// A task is done where its client says so in any of the ways that clients have: by its
/// status, by all of its percentage or by the date of its completion. One that says none of
/// this is not.
pub proof fn law_what_counts_as_done(lines: Seq<LineView>)
    ensures
        ical::only_value(lines, "STATUS"@) == Some("COMPLETED"@) ==> todo_of(lines).done,
        ical::only_value(lines, "STATUS"@) == Some("CANCELLED"@) ==> todo_of(lines).done,
        ical::only_value(lines, "PERCENT-COMPLETE"@) == Some("100"@) ==> todo_of(lines).done,
        (ical::only_value(lines, "COMPLETED"@) matches Some(value) && is_completion(value))
            ==> todo_of(lines).done,
        ical::only_value(lines, "STATUS"@) == Some("NEEDS-ACTION"@) && (ical::only_value(
            lines,
            "PERCENT-COMPLETE"@,
        ) is None || ical::only_value(lines, "PERCENT-COMPLETE"@) == Some("0"@))
            && ical::only_value(lines, "COMPLETED"@) is None ==> !todo_of(lines).done,
{
    reveal_strlit("100");
    reveal_strlit("0");
    reveal_strlit("COMPLETED");
    reveal_strlit("CANCELLED");
    reveal_strlit("NEEDS-ACTION");
    assert("NEEDS-ACTION"@.len() == 12 && "COMPLETED"@.len() == 9 && "CANCELLED"@.len() == 9);
    reveal_with_fuel(text::digits_value, 5);
    let full = "100"@;
    assert(full.drop_last() =~= seq!['1', '0']);
    assert(full.drop_last().drop_last() =~= seq!['1']);
    assert(full.drop_last().drop_last().drop_last() =~= Seq::<char>::empty());
    assert("0"@.drop_last() =~= Seq::<char>::empty());
}

} // verus!
