//! Events: objects of type `event` served as VEVENTs in the CalDAV `events/`
//! collection, and written back when a client edits them.
//!
//! The space stores a date-only value as local midnight; an all-day event's
//! `end_date` is its last day, while iCalendar's DTEND is exclusive, so the renderer
//! adds a day and write-back takes it away again. Reminders are relative triggers
//! before the start, which is what the calendar app reads and writes for events.
use vstd::prelude::*;

use crate::config::CalendarConfig;
use crate::event_changes;
use crate::feed;
use crate::feed::Resource;
use crate::fold;
use crate::ical;
use crate::ical::{Line, LineView, Part, PartView, WireDate, WireView};
use crate::locale::Language;
use crate::model;
use crate::model::{AnytypeDate, CalendarValue, DateView};
use crate::nesting;
use crate::order;
use crate::recurrence;
use crate::table;
use crate::table::Table;
use crate::text;
use crate::text::Text;
use crate::time;
use crate::time::{Day, Instant, Span, When, Zone};
use crate::writeback;

verus! {

pub const EVENT_TYPE: &'static str = "event";

#[derive(Debug, Clone, PartialEq)]
pub struct Event {
    pub object_id: String,
    pub name: String,
    pub start: Option<AnytypeDate>,
    /// For an all-day event, the last day it covers.
    pub end: Option<AnytypeDate>,
    pub location: Option<String>,
    pub tags: Vec<String>,
    /// Option names of `reminder_lead`, e.g. `15m`, kept as names so they can be
    /// written back without a lookup.
    pub reminder_names: Vec<String>,
    pub ical_uid: Option<String>,
    pub object_url: Option<String>,
    pub last_modified: Option<Instant>,
    /// RRULE value without the `RRULE:` prefix; set on the master of a series.
    pub rrule: Option<String>,
    /// Occurrences removed from the series, in the space's date shape (`exdate`, one
    /// value per line).
    pub exdates: Vec<AnytypeDate>,
    /// Set on an object that replaces one occurrence: the master's object id.
    pub series: Option<String>,
    /// The occurrence it replaces (its RECURRENCE-ID).
    pub occurrence: Option<AnytypeDate>,
    /// `deadline`, served as an entry of its own (`deadline_entry`).
    pub deadline: Option<AnytypeDate>,
}

/// An event as plain values.
#[verifier::ext_equal]
pub struct EventView {
    pub object_id: Text,
    pub name: Text,
    pub start: Option<DateView>,
    pub end: Option<DateView>,
    pub location: Option<Text>,
    pub tags: Seq<Text>,
    pub reminder_names: Seq<Text>,
    pub ical_uid: Option<Text>,
    pub object_url: Option<Text>,
    pub last_modified: Option<Instant>,
    pub rrule: Option<Text>,
    pub exdates: Seq<DateView>,
    pub series: Option<Text>,
    pub occurrence: Option<DateView>,
    pub deadline: Option<DateView>,
}

pub open spec fn dates(v: Seq<AnytypeDate>) -> Seq<DateView> {
    Seq::new(v.len(), |i: int| v[i]@)
}

impl View for Event {
    type V = EventView;

    open spec fn view(&self) -> EventView {
        EventView {
            object_id: self.object_id@,
            name: self.name@,
            start: model::date_view(self.start),
            end: model::date_view(self.end),
            location: text::text_of(self.location),
            tags: text::texts(self.tags@),
            reminder_names: text::texts(self.reminder_names@),
            ical_uid: text::text_of(self.ical_uid),
            object_url: text::text_of(self.object_url),
            last_modified: self.last_modified,
            rrule: text::text_of(self.rrule),
            exdates: dates(self.exdates@),
            series: text::text_of(self.series),
            occurrence: model::date_view(self.occurrence),
            deadline: model::date_view(self.deadline),
        }
    }
}

impl EventView {
    pub open spec fn uid(self) -> Text {
        model::uid_of(self.object_id, self.ical_uid)
    }

    /// The resource name that the event is served under.
    pub open spec fn served_name(self) -> Text {
        feed::name_of(self.object_id, self.ical_uid)
    }
}

pub open spec fn events(v: Seq<Event>) -> Seq<EventView> {
    Seq::new(v.len(), |i: int| v[i]@)
}

/// What the name of a deadline's resource and its UID end with.
pub const DEADLINE_SUFFIX: &'static str = "-deadline";

/// The entry that stands for an event's deadline. A series has one deadline for every
/// occurrence and none of them in particular, so it gets no entry.
pub open spec fn entry_of(event: EventView, language: Language) -> Option<EventView> {
    if event.rrule is Some || event.deadline is None {
        None
    } else {
        Some(
            EventView {
                object_id: event.object_id,
                name: language.deadline_name(event.name),
                start: event.deadline,
                end: None,
                location: None,
                tags: event.tags,
                reminder_names: event.reminder_names,
                ical_uid: Some(event.uid() + DEADLINE_SUFFIX@),
                object_url: event.object_url,
                last_modified: event.last_modified,
                rrule: None,
                exdates: Seq::empty(),
                series: None,
                occurrence: None,
                deadline: None,
            },
        )
    }
}

pub open spec fn event_view(event: Option<Event>) -> Option<EventView> {
    match event {
        Some(event) => Some(event@),
        None => None,
    }
}

/// The deadline of an event as a calendar entry of its own: on the deadline, all day
/// when it has no time, reminded with the event's own leads, counted from the
/// deadline.
pub fn deadline_entry(event: &Event, language: Language) -> (r: Option<Event>)
    ensures
        event_view(r) == entry_of(event@, language),
{
    if event.rrule.is_some() {
        return None;
    }
    match &event.deadline {
        None => None,
        Some(deadline) => {
            let uid = event.uid();
            let r = Event {
                object_id: event.object_id.clone(),
                name: language.deadline_entry(event.name.as_str()),
                start: Some(deadline.copy()),
                end: None,
                location: None,
                tags: text::copy_list(&event.tags),
                reminder_names: text::copy_list(&event.reminder_names),
                ical_uid: Some(text::glue(uid.as_str(), DEADLINE_SUFFIX)),
                object_url: text::copy_text(&event.object_url),
                last_modified: event.last_modified,
                rrule: None,
                exdates: Vec::new(),
                series: None,
                occurrence: None,
                deadline: None,
            };
            assert(r@.exdates == Seq::<DateView>::empty());
            assert(Some(r@) == entry_of(event@, language));
            Some(r)
        },
    }
}

/// The lead times that some names stand for; unusable names are skipped.
pub open spec fn leads_of(names: Seq<Text>) -> Seq<(int, int)>
    decreases names.len(),
{
    if names.len() == 0 {
        Seq::empty()
    } else {
        let before = leads_of(names.drop_last());
        match time::span_text(text::trimmed(names.last())) {
            Some(span) => before.push(span),
            None => before,
        }
    }
}

/// Lengths of time by their seconds and nanoseconds.
pub open spec fn spans(v: Seq<Span>) -> Seq<(int, int)> {
    Seq::new(v.len(), |i: int| (v[i].second(), v[i].nano()))
}

impl Event {
    pub fn uid(&self) -> (r: String)
        ensures
            r@ == self@.uid(),
    {
        model::uid_for(self.object_id.as_str(), &self.ical_uid)
    }

    pub fn resource_name(&self) -> (r: String)
        ensures
            r@ == self@.served_name(),
    {
        feed::name_for(self.object_id.as_str(), &self.ical_uid)
    }

    /// Lead times read from the option names; unusable names are skipped.
    pub fn leads(&self) -> (r: Vec<Span>)
        ensures
            spans(r@) == leads_of(self@.reminder_names),
    {
        let mut r: Vec<Span> = Vec::new();
        let ghost all = self@.reminder_names;
        let mut i: usize = 0;
        assert(spans(r@) == leads_of(all.take(0)));
        while i < self.reminder_names.len()
            invariant
                i <= self.reminder_names@.len(),
                all == text::texts(self.reminder_names@),
                spans(r@) == leads_of(all.take(i as int)),
            decreases self.reminder_names@.len() - i,
        {
            assert(all.take(i + 1).drop_last() == all.take(i as int));
            assert(all.take(i + 1).last() == self.reminder_names@[i as int]@);
            let ghost before = r@;
            match time::parse_span(text::trim(self.reminder_names[i].as_str())) {
                Some(span) => {
                    r.push(span);
                    assert(spans(r@) == spans(before).push((span.second(), span.nano())));
                },
                None => {},
            }
            i += 1;
        }
        assert(all.take(all.len() as int) == all);
        r
    }
}

// ------------------------------------------------------------------ rendering

/// A value on the wire: with a zone, a moment is what clocks there show.
pub open spec fn wired(value: When, zone: Option<Text>) -> WireView {
    match (value, zone) {
        (When::Day(day), _) => WireView::Date(day),
        (When::At(second, nano), None) => WireView::Utc(second, nano),
        (When::At(second, _), Some(name)) => WireView::Zoned(time::local_at(name, second), name),
    }
}

pub open spec fn zone_view(zone: Option<&Zone>) -> Option<Text> {
    match zone {
        Some(zone) => Some(zone@),
        None => None,
    }
}

/// A value on the wire. `zone` writes a moment as local wall-clock time with `TZID`,
/// which a recurring rule needs to expand across daylight-saving changes; otherwise
/// moments are UTC.
pub fn wire_value(value: CalendarValue, zone: Option<&Zone>) -> (r: WireDate)
    ensures
        r@ == wired(value@, zone_view(zone)),
{
    match value {
        CalendarValue::AllDay(day) => WireDate::Date(day),
        CalendarValue::Instant(at) => match zone {
            None => WireDate::Utc(at),
            Some(zone) => WireDate::Zoned(zone.clock_at(at), zone.name().to_owned()),
        },
    }
}

/// The day behind a day; the farthest day has none.
pub open spec fn day_behind(day: int) -> Option<WireView> {
    if day < time::LAST_DAY {
        Some(WireView::Date(day + 1))
    } else {
        None
    }
}

/// DTSTART and DTEND of an event: its last day is taken in, while DTEND is not.
pub open spec fn event_dates(event: EventView, days: Text, zone: Option<Text>) -> Option<
    (WireView, Option<WireView>),
> {
    match event.start {
        None => None,
        Some(start) => {
            let first = model::classified_date(start, days);
            let end = match event.end {
                Some(end) => match model::classified_date(end, days) {
                    When::Day(last) => day_behind(last),
                    value => Some(wired(value, zone)),
                },
                None => match first {
                    When::Day(day) => day_behind(day),
                    _ => None,
                },
            };
            Some((wired(first, zone), end))
        },
    }
}

pub open spec fn dates_view(r: Option<(WireDate, Option<WireDate>)>) -> Option<
    (WireView, Option<WireView>),
> {
    match r {
        Some((start, end)) => Some((start@, ical::wire_view(end))),
        None => None,
    }
}

fn date_behind(day: Day) -> (r: Option<WireDate>)
    ensures
        ical::wire_view(r) == day_behind(day.nth()),
{
    let number = day.number();
    match day.next() {
        Some(next) => Some(WireDate::Date(next)),
        None => None,
    }
}

/// DTSTART and DTEND as a client sees them. `None` without a start: a VEVENT without
/// DTSTART is not a calendar entry.
pub fn wire_dates(event: &Event, config: &CalendarConfig) -> (r: Option<
    (WireDate, Option<WireDate>),
>)
    ensures
        dates_view(r) == event_dates(event@, config.date_only_timezone@, None),
{
    zoned_dates(event, config, None)
}

fn zoned_dates(event: &Event, config: &CalendarConfig, zone: Option<&Zone>) -> (r: Option<
    (WireDate, Option<WireDate>),
>)
    ensures
        dates_view(r) == event_dates(event@, config.date_only_timezone@, zone_view(zone)),
{
    let tz = &config.date_only_timezone;
    match &event.start {
        None => None,
        Some(start) => {
            let first = start.classify(tz);
            let end = match &event.end {
                Some(end) => match end.classify(tz) {
                    CalendarValue::AllDay(last) => date_behind(last),
                    value => Some(wire_value(value, zone)),
                },
                None => match first {
                    CalendarValue::AllDay(day) => date_behind(day),
                    CalendarValue::Instant(_) => None,
                },
            };
            Some((wire_value(first, zone), end))
        },
    }
}

/// The number of a revision: the second at which the object was changed, within what
/// the property can hold.
pub open spec fn revision(modified: int) -> int {
    if modified < 0 {
        0
    } else if modified > 4_294_967_295 {
        4_294_967_295
    } else {
        modified
    }
}

pub fn sequence_for(modified: Instant) -> (r: u32)
    ensures
        r == revision(modified.second()),
{
    let second = modified.seconds();
    if second < 0 {
        0
    } else if second > 4_294_967_295 {
        4_294_967_295
    } else {
        second as u32
    }
}

/// A moment of UTC as `20260831T093000Z`.
pub open spec fn stamp_text(second: int) -> Text {
    time::compact_second(second) + "Z"@
}

pub(crate) fn stamp_of(at: Instant) -> (r: String)
    ensures
        r@ == stamp_text(at.second()),
{
    let mut r = time::second_label(at.seconds());
    r.append("Z");
    r
}

/// The lines of one alarm. The calendar app reads only `-PT…` durations, so days and
/// weeks are written as minutes. What it is known by and when it was made follow from
/// the event, so that an event that did not change is written the same way again.
pub open spec fn alarm_lines(
    name: Text,
    owner: Text,
    index: int,
    lead: (int, int),
    modified: int,
) -> Seq<LineView> {
    Seq::<LineView>::empty().push(
        ical::line_of("ACTION"@, "DISPLAY"@, Seq::empty()),
    ).push(ical::line_of("DESCRIPTION"@, name, Seq::empty())).push(
        ical::line_of(
            "TRIGGER"@,
            "-PT"@ + text::decimal((lead.0 / 60) as nat) + "M"@,
            Seq::empty(),
        ),
    ).push(
        ical::line_of("UID"@, owner + "-"@ + text::decimal(index as nat), Seq::empty()),
    ).push(ical::line_of("DTSTAMP"@, stamp_text(modified), Seq::empty()))
}

/// The alarms of these leads.
pub open spec fn alarms_of(
    name: Text,
    owner: Text,
    leads: Seq<(int, int)>,
    modified: int,
) -> Seq<Seq<LineView>> {
    Seq::new(leads.len(), |i: int| alarm_lines(name, owner, i, leads[i], modified))
}

/// The lines that say what a component is known by, what it is called and when it was
/// changed.
pub open spec fn head_of(uid: Text, name: Text, modified: int) -> Seq<LineView> {
    Seq::<LineView>::empty().push(ical::line_of("UID"@, uid, Seq::empty())).push(
        ical::line_of("SUMMARY"@, name, Seq::empty()),
    ).push(ical::line_of("DTSTAMP"@, stamp_text(modified), Seq::empty())).push(
        ical::line_of("SEQUENCE"@, text::decimal(revision(modified) as nat), Seq::empty()),
    )
}

/// When an event was last changed, as far as is known.
pub open spec fn modified_at(event: EventView, fallback: Instant) -> int {
    match event.last_modified {
        Some(at) => at.second(),
        None => fallback.second(),
    }
}

/// One VEVENT under a UID.
pub open spec fn vevent_of(
    event: EventView,
    uid: Text,
    days: Text,
    fallback: Instant,
    zone: Option<Text>,
) -> Option<PartView> {
    match event_dates(event, days, zone) {
        None => None,
        Some((start, end)) => {
            let modified = modified_at(event, fallback);
            let head = head_of(uid, event.name, modified);
            let started = ical::with_line(head, ical::date_under("DTSTART"@, Some(start)));
            let ended = ical::with_line(started, ical::date_under("DTEND"@, end));
            let located = ical::with_line(ended, ical::text_under("LOCATION"@, event.location));
            let linked = ical::with_line(located, ical::text_under("URL"@, event.object_url));
            Some(
                PartView {
                    once: ical::with_line(
                        linked,
                        ical::text_under("DESCRIPTION"@, event.object_url),
                    ),
                    many: ical::category_lines(event.tags),
                    alarms: alarms_of(
                        event.name,
                        uid + "-"@ + event.object_id,
                        leads_of(event.reminder_names),
                        modified,
                    ),
                },
            )
        },
    }
}

fn alarm_for(name: &str, owner: &str, index: usize, lead: &Span, modified: Instant) -> (r: Vec<Line>)
    ensures
        ical::lines(r@) == alarm_lines(
            name@,
            owner@,
            index as int,
            (lead.second(), lead.nano()),
            modified.second(),
        ),
{
    let mut r: Vec<Line> = Vec::new();
    assert(ical::lines(r@) == Seq::<LineView>::empty());
    ical::put_line(&mut r, "ACTION", "DISPLAY".to_owned());
    ical::put_line(&mut r, "DESCRIPTION", name.to_owned());
    let mut trigger = "-PT".to_owned();
    trigger.append(text::number(lead.seconds() / 60).as_str());
    trigger.append("M");
    ical::put_line(&mut r, "TRIGGER", trigger);
    let mut uid = owner.to_owned();
    uid.append("-");
    uid.append(text::number(index as u64).as_str());
    ical::put_line(&mut r, "UID", uid);
    ical::put_line(&mut r, "DTSTAMP", stamp_of(modified));
    r
}

pub(crate) fn push_date(list: &mut Vec<Line>, key: &str, date: &WireDate)
    ensures
        ical::lines(final(list)@) == ical::lines(old(list)@).push(
            ical::line_of(key@, ical::date_text(date@).0, ical::date_text(date@).1),
        ),
{
    let ghost before = list@;
    let line = ical::date_line(key, date, false);
    list.push(line);
    assert(ical::lines(list@) == ical::lines(before).push(line@));
}

pub(crate) fn categories_of(tags: &Vec<String>) -> (r: Vec<Line>)
    ensures
        ical::lines(r@) == ical::category_lines(text::texts(tags@)),
{
    let mut r: Vec<Line> = Vec::new();
    let mut i: usize = 0;
    while i < tags.len()
        invariant
            i <= tags@.len(),
            r@.len() == i,
            forall|j: int|
                0 <= j < i ==> (#[trigger] r@[j])@ == ical::multi_of(
                    "CATEGORIES"@,
                    tags@[j]@,
                    Seq::empty(),
                ),
        decreases tags@.len() - i,
    {
        let line = Line {
            part: String::new(),
            multi: true,
            key: "CATEGORIES".to_owned(),
            value: tags[i].clone(),
            params: Vec::new(),
        };
        assert(line@ == ical::multi_of("CATEGORIES"@, tags@[i as int]@, Seq::empty()));
        r.push(line);
        i += 1;
    }
    assert(ical::lines(r@) == ical::category_lines(text::texts(tags@)));
    r
}

pub open spec fn part_view(part: Option<Part>) -> Option<PartView> {
    match part {
        Some(part) => Some(part@),
        None => None,
    }
}

/// One VEVENT. `uid` is the series' UID for a replaced occurrence.
fn vevent_for(
    event: &Event,
    uid: &str,
    config: &CalendarConfig,
    fallback: Instant,
    zone: Option<&Zone>,
) -> (r: Option<Part>)
    ensures
        part_view(r) == vevent_of(
            event@,
            uid@,
            config.date_only_timezone@,
            fallback,
            zone_view(zone),
        ),
{
    let (start, end) = match zoned_dates(event, config, zone) {
        Some(found) => found,
        None => {
            return None;
        },
    };
    let modified = match event.last_modified {
        Some(at) => at,
        None => fallback,
    };
    let mut once: Vec<Line> = Vec::new();
    assert(ical::lines(once@) == Seq::<LineView>::empty());
    ical::put_line(&mut once, "UID", uid.to_owned());
    ical::put_line(&mut once, "SUMMARY", event.name.clone());
    ical::put_line(&mut once, "DTSTAMP", stamp_of(modified));
    ical::put_line(&mut once, "SEQUENCE", text::number(sequence_for(modified) as u64));
    push_date(&mut once, "DTSTART", &start);
    if let Some(end) = &end {
        push_date(&mut once, "DTEND", end);
    }
    if let Some(location) = &event.location {
        ical::put_line(&mut once, "LOCATION", location.clone());
    }
    if let Some(url) = &event.object_url {
        ical::put_line(&mut once, "URL", url.clone());
        // Also where a client shows it.
        ical::put_line(&mut once, "DESCRIPTION", url.clone());
    }
    let many = categories_of(&event.tags);
    let mut owner = uid.to_owned();
    owner.append("-");
    owner.append(event.object_id.as_str());
    let leads = event.leads();
    let ghost lengths = leads_of(event@.reminder_names);
    let mut alarms: Vec<Vec<Line>> = Vec::new();
    let mut i: usize = 0;
    while i < leads.len()
        invariant
            i <= leads@.len(),
            spans(leads@) == lengths,
            alarms@.len() == i,
            forall|j: int|
                0 <= j < i ==> ical::lines((#[trigger] alarms@[j])@) == alarm_lines(
                    event.name@,
                    owner@,
                    j,
                    lengths[j],
                    modified.second(),
                ),
        decreases leads@.len() - i,
    {
        assert(lengths[i as int] == (leads@[i as int].second(), leads@[i as int].nano()));
        alarms.push(alarm_for(event.name.as_str(), owner.as_str(), i, &leads[i], modified));
        i += 1;
    }
    assert(lengths.len() == leads@.len());
    let part = Part { once, many, alarms };
    assert(part@.alarms == alarms_of(event.name@, owner@, lengths, modified.second()));
    Some(part)
}

proof fn lemma_vevent_stamped(
    event: EventView,
    uid: Text,
    days: Text,
    fallback: Instant,
    zone: Option<Text>,
)
    requires
        vevent_of(event, uid, days, fallback, zone) is Some,
    ensures
        ({
            let part = vevent_of(event, uid, days, fallback, zone)->0;
            &&& part.once.len() >= 5
            &&& part.once[0].key == "UID"@
            &&& part.once[2].key == "DTSTAMP"@
            &&& forall|j: int| 0 <= j < part.alarms.len() ==> ical::stamped(#[trigger] part.alarms[j])
        }),
{
    let part = vevent_of(event, uid, days, fallback, zone)->0;
    assert forall|j: int| 0 <= j < part.alarms.len() implies ical::stamped(
        #[trigger] part.alarms[j],
    ) by {
        assert(part.alarms[j][3].key == "UID"@);
        assert(part.alarms[j][4].key == "DTSTAMP"@);
    }
}

// ------------------------------------------------------------------ what can be written

/// Whether an event can be written under a UID: its lines fold, as many alarms as it may
/// have among them.
pub open spec fn folds_under(event: EventView, uid: Text) -> bool {
    &&& ical::text_folds("UID"@, uid)
    &&& ical::text_folds("SUMMARY"@, event.name)
    &&& ical::text_folds_if_any("LOCATION"@, event.location)
    &&& ical::text_folds_if_any("URL"@, event.object_url)
    &&& ical::text_folds_if_any("DESCRIPTION"@, event.object_url)
    &&& ical::texts_fold("CATEGORIES"@, event.tags)
    &&& event.reminder_names.len() > 0 ==> ical::text_folds("DESCRIPTION"@, event.name)
    &&& ical::numbers_fold(uid + "-"@ + event.object_id, event.reminder_names.len() as int)
}

/// Whether an event can be written, or a series with the objects that replace its
/// occurrences.
pub open spec fn series_folds(master: EventView, replacements: Seq<&Event>) -> bool {
    &&& folds_under(master, master.uid())
    &&& master.rrule matches Some(rule) ==> ical::text_folds("RRULE"@, text::trimmed(rule))
    &&& master.rrule is Some ==> forall|i: int|
        0 <= i < replacements.len() ==> folds_under((#[trigger] replacements[i])@, master.uid())
}

/// Whether the entry of an event's deadline can be written, if there is one.
pub open spec fn entry_folds(event: EventView, language: Language) -> bool {
    match entry_of(event, language) {
        Some(entry) => folds_under(entry, entry.uid()),
        None => true,
    }
}

/// Whether an event can be written as it is served among others.
pub open spec fn served_folds(event: EventView, all: Seq<Event>, language: Language) -> bool {
    inside_a_series(event, all) || series_folds(event, replacements_in(all, event.object_id))
        && entry_folds(event, language)
}

/// Whether some events can all be written as they are served.
pub open spec fn events_fold(events: Seq<Event>, language: Language) -> bool {
    forall|i: int| 0 <= i < events.len() ==> served_folds((#[trigger] events[i])@, events, language)
}

fn can_write_under(event: &Event, uid: &str) -> (r: bool)
    ensures
        r == folds_under(event@, uid@),
{
    let mut owner = uid.to_owned();
    owner.append("-");
    owner.append(event.object_id.as_str());
    let count: usize = event.reminder_names.len();
    ical::can_write_text("UID", uid) && ical::can_write_text("SUMMARY", event.name.as_str())
        && ical::can_write_if_any("LOCATION", &event.location) && ical::can_write_if_any(
        "URL",
        &event.object_url,
    ) && ical::can_write_if_any("DESCRIPTION", &event.object_url) && ical::can_write_texts(
        "CATEGORIES",
        &event.tags,
    ) && (count == 0 || ical::can_write_text("DESCRIPTION", event.name.as_str()))
        && ical::can_number(owner.as_str(), count)
}

/// Whether an event or a series can be written.
pub fn can_write(master: &Event, replacements: &Vec<&Event>) -> (r: bool)
    ensures
        r == series_folds(master@, replacements@),
{
    let uid = master.uid();
    if !can_write_under(master, uid.as_str()) {
        return false;
    }
    match &master.rrule {
        Some(rule) => if !ical::can_write_text("RRULE", text::trim(rule.as_str())) {
            return false;
        },
        None => {
            return true;
        },
    }
    let mut i: usize = 0;
    while i < replacements.len()
        invariant
            i <= replacements@.len(),
            uid@ == master@.uid(),
            master@.rrule is Some,
            forall|j: int|
                0 <= j < i ==> folds_under((#[trigger] replacements@[j])@, master@.uid()),
        decreases replacements@.len() - i,
    {
        if !can_write_under(replacements[i], uid.as_str()) {
            return false;
        }
        i += 1;
    }
    true
}

/// Whether the entry of an event's deadline can be written, if there is one.
pub fn can_write_entry(event: &Event, language: Language) -> (r: bool)
    ensures
        r == entry_folds(event@, language),
{
    match deadline_entry(event, language) {
        Some(entry) => can_write_under(&entry, entry.uid().as_str()),
        None => true,
    }
}

/// Whether some events can all be written as they are served.
pub fn can_write_all(events: &Vec<Event>, language: Language) -> (r: bool)
    ensures
        r == events_fold(events@, language),
{
    let mut i: usize = 0;
    while i < events.len()
        invariant
            i <= events@.len(),
            forall|j: int|
                0 <= j < i ==> served_folds((#[trigger] events@[j])@, events@, language),
        decreases events@.len() - i,
    {
        if !replaces_an_occurrence(&events[i], events) {
            let replacements = replacements_of(events[i].object_id.as_str(), events);
            if !can_write(&events[i], &replacements) || !can_write_entry(&events[i], language) {
                return false;
            }
        }
        i += 1;
    }
    true
}

proof fn lemma_leads(names: Seq<Text>)
    ensures
        leads_of(names).len() <= names.len(),
    decreases names.len(),
{
    if names.len() > 0 {
        lemma_leads(names.drop_last());
    }
}

proof fn lemma_alarms_fold(name: Text, owner: Text, leads: Seq<(int, int)>, modified: int)
    requires
        leads.len() > 0 ==> ical::text_folds("DESCRIPTION"@, name),
        ical::numbers_fold(owner, leads.len() as int),
    ensures
        forall|j: int|
            0 <= j < alarms_of(name, owner, leads, modified).len() ==> ical::lines_fold(
                #[trigger] alarms_of(name, owner, leads, modified)[j],
            ),
{
    let all = alarms_of(name, owner, leads, modified);
    assert forall|j: int| 0 <= j < all.len() implies ical::lines_fold(#[trigger] all[j]) by {
        let minutes = text::decimal((leads[j].0 / 60) as nat);
        let before = "-PT"@ + minutes + "M"@;
        let trigger = ical::line_of("TRIGGER"@, before, Seq::empty());
        reveal_strlit("-PT");
        reveal_strlit("M");
        ical::lemma_ascii_keys();
        ical::lemma_decimal_figures((leads[j].0 / 60) as nat);
        assert(ical::figures(before)) by {
            assert forall|i: int| 0 <= i < before.len() implies text::alphanumeric(
                #[trigger] before[i],
            ) || before[i] == '+' || before[i] == '-' by {
                if 3 <= i < 3 + minutes.len() {
                    assert(before[i] == minutes[i - 3]);
                }
            }
        }
        ical::lemma_figures_ascii(before);
        assert(ical::line_folds(trigger));
        ical::lemma_compact_figures(0, modified);
        ical::lemma_alarm_folds(
            name,
            trigger,
            ical::numbered(owner, j),
            stamp_text(modified),
        );
    }
}

/// What is written of an event whose texts fold does.
#[verifier::spinoff_prover]
proof fn lemma_vevent_folds(
    event: EventView,
    uid: Text,
    days: Text,
    fallback: Instant,
    zone: Option<Text>,
)
    requires
        folds_under(event, uid),
        zone matches Some(name) ==> fold::ascii(name),
    ensures
        vevent_of(event, uid, days, fallback, zone) matches Some(part) ==> ical::part_folds(part),
{
    if let Some((start, end)) = event_dates(event, days, zone) {
        let modified = modified_at(event, fallback);
        ical::lemma_ascii_keys();
        ical::lemma_compact_figures(0, modified);
        ical::lemma_decimal_figures(revision(modified) as nat);
        ical::lemma_head_folds(
            uid,
            event.name,
            stamp_text(modified),
            text::decimal(revision(modified) as nat),
        );
        let head = head_of(uid, event.name, modified);
        let started = ical::with_line(head, ical::date_under("DTSTART"@, Some(start)));
        let ended = ical::with_line(started, ical::date_under("DTEND"@, end));
        let located = ical::with_line(ended, ical::text_under("LOCATION"@, event.location));
        let linked = ical::with_line(located, ical::text_under("URL"@, event.object_url));
        ical::lemma_date_folds("DTSTART"@, start);
        ical::lemma_lines_fold(head, ical::date_under("DTSTART"@, Some(start)));
        if let Some(end) = end {
            ical::lemma_date_folds("DTEND"@, end);
        }
        ical::lemma_lines_fold(started, ical::date_under("DTEND"@, end));
        ical::lemma_lines_fold(ended, ical::text_under("LOCATION"@, event.location));
        ical::lemma_lines_fold(located, ical::text_under("URL"@, event.object_url));
        ical::lemma_lines_fold(linked, ical::text_under("DESCRIPTION"@, event.object_url));
        ical::lemma_categories_fold(event.tags);
        lemma_leads(event.reminder_names);
        lemma_alarms_fold(
            event.name,
            uid + "-"@ + event.object_id,
            leads_of(event.reminder_names),
            modified,
        );
    }
}

proof fn lemma_excluded_fold(exdates: Seq<DateView>, days: Text, zone: Option<Text>)
    requires
        zone matches Some(name) ==> fold::ascii(name),
    ensures
        ical::lines_fold(excluded_lines(exdates, days, zone)),
{
    let all = excluded_lines(exdates, days, zone);
    assert forall|i: int| 0 <= i < all.len() implies ical::line_folds(#[trigger] all[i]) by {
        let date = wired(model::classified_date(exdates[i], days), zone);
        ical::lemma_ascii_keys();
        ical::lemma_date_folds("EXDATE"@, date);
    }
}

proof fn lemma_put_folds(s: Seq<(int, &Event)>, key: int, event: &Event, uid: Text)
    requires
        forall|i: int| 0 <= i < s.len() ==> folds_under((#[trigger] s[i]).1@, uid),
        folds_under(event@, uid),
    ensures
        forall|i: int|
            0 <= i < order::insert_stable(s, key, event).len() ==> folds_under(
                (#[trigger] order::insert_stable(s, key, event)[i]).1@,
                uid,
            ),
    decreases s.len(),
{
    if s.len() > 0 && s.last().0 > key {
        let front = s.drop_last();
        assert forall|i: int| 0 <= i < front.len() implies folds_under(
            (#[trigger] front[i]).1@,
            uid,
        ) by {
            assert(front[i] == s[i]);
        }
        lemma_put_folds(front, key, event, uid);
        assert(folds_under(s[s.len() - 1].1@, uid));
        let before = order::insert_stable(front, key, event);
        let all = order::insert_stable(s, key, event);
        assert(all == before.push(s.last()));
        assert forall|i: int| 0 <= i < all.len() implies folds_under((#[trigger] all[i]).1@, uid)
            by {
            if i < before.len() {
                assert(all[i] == before[i]);
            }
        }
    } else {
        let all = order::insert_stable(s, key, event);
        assert forall|i: int| 0 <= i < all.len() implies folds_under((#[trigger] all[i]).1@, uid)
            by {
            if i < s.len() {
                assert(all[i] == s[i]);
            }
        }
    }
}

/// Those that replace occurrences fold in whatever order.
proof fn lemma_ordered_fold(replacements: Seq<&Event>, uid: Text)
    requires
        forall|i: int|
            0 <= i < replacements.len() ==> folds_under((#[trigger] replacements[i])@, uid),
    ensures
        forall|i: int|
            0 <= i < by_occurrence(replacements).len() ==> folds_under(
                (#[trigger] by_occurrence(replacements)[i]).1@,
                uid,
            ),
    decreases replacements.len(),
{
    if replacements.len() > 0 {
        let front = replacements.drop_last();
        assert forall|i: int| 0 <= i < front.len() implies folds_under((#[trigger] front[i])@, uid)
            by {
            assert(front[i] == replacements[i]);
        }
        lemma_ordered_fold(front, uid);
        let last = replacements[replacements.len() - 1];
        assert(folds_under(last@, uid));
        if let Some(at) = last@.occurrence {
            lemma_put_folds(by_occurrence(front), total_of(at), last, uid);
        }
    }
}

proof fn lemma_replaced_fold(
    replacements: Seq<(int, &Event)>,
    uid: Text,
    days: Text,
    fallback: Instant,
    zone: Option<Text>,
)
    requires
        forall|i: int|
            0 <= i < replacements.len() ==> folds_under((#[trigger] replacements[i]).1@, uid),
        zone matches Some(name) ==> fold::ascii(name),
    ensures
        forall|i: int|
            0 <= i < replaced_parts(replacements, uid, days, fallback, zone).len()
                ==> ical::part_folds(
                #[trigger] replaced_parts(replacements, uid, days, fallback, zone)[i],
            ),
    decreases replacements.len(),
{
    if replacements.len() > 0 {
        let front = replacements.drop_last();
        assert forall|i: int| 0 <= i < front.len() implies folds_under(
            (#[trigger] front[i]).1@,
            uid,
        ) by {
            assert(front[i] == replacements[i]);
        }
        lemma_replaced_fold(front, uid, days, fallback, zone);
        let event = replacements[replacements.len() - 1].1@;
        assert(folds_under(event, uid));
        lemma_vevent_folds(event, uid, days, fallback, zone);
        if let (Some(part), Some(occurrence)) = (
            vevent_of(event, uid, days, fallback, zone),
            event.occurrence,
        ) {
            let date = wired(model::classified_date(occurrence, days), zone);
            ical::lemma_ascii_keys();
            ical::lemma_date_folds("RECURRENCE-ID"@, date);
            ical::lemma_lines_fold(part.once, ical::date_under("RECURRENCE-ID"@, Some(date)));
            let at = ical::date_text(date);
            let once = part.once.push(ical::line_of("RECURRENCE-ID"@, at.0, at.1));
            assert(ical::part_folds(PartView { once, ..part }));
        }
        let before = replaced_parts(front, uid, days, fallback, zone);
        let all = replaced_parts(replacements, uid, days, fallback, zone);
        assert forall|i: int| 0 <= i < all.len() implies ical::part_folds(#[trigger] all[i]) by {
            if i < before.len() {
                assert(all[i] == before[i]);
            }
        }
    }
}

/// What is written of an event or a series whose texts fold does.
proof fn lemma_series_folds(
    master: EventView,
    replacements: Seq<&Event>,
    days: Text,
    clock: Text,
    fallback: Instant,
)
    requires
        series_folds(master, replacements),
        fold::ascii(clock),
    ensures
        series_parts(master, replacements, days, clock, fallback) matches Some(parts) ==> forall|
            i: int,
        |
            0 <= i < parts.len() ==> ical::part_folds(#[trigger] parts[i]),
{
    let zone = if master.rrule is Some {
        Some(clock)
    } else {
        None
    };
    lemma_vevent_folds(master, master.uid(), days, fallback, zone);
    if let Some(first) = vevent_of(master, master.uid(), days, fallback, zone) {
        if let Some(rule) = master.rrule {
            ical::lemma_ascii_keys();
            let line = ical::text_under("RRULE"@, Some(text::trimmed(rule)));
            ical::lemma_lines_fold(first.once, line);
            lemma_excluded_fold(master.exdates, days, zone);
            let many = first.many + excluded_lines(master.exdates, days, zone);
            assert forall|i: int| 0 <= i < many.len() implies ical::line_folds(
                #[trigger] many[i],
            ) by {
                if i < first.many.len() {
                    assert(many[i] == first.many[i]);
                } else {
                    let left_out = excluded_lines(master.exdates, days, zone);
                    assert(many[i] == left_out[i - first.many.len()]);
                }
            }
            lemma_ordered_fold(replacements, master.uid());
            lemma_replaced_fold(
                by_occurrence(replacements),
                master.uid(),
                days,
                fallback,
                zone,
            );
        }
    }
}

/// The moment of a date, in nanoseconds since 1970.
pub open spec fn total_of(date: DateView) -> int {
    date.second * 1_000_000_000 + date.nano
}

/// The objects that replace occurrences, in the order of those.
pub open spec fn by_occurrence(replacements: Seq<&Event>) -> Seq<(int, &Event)>
    decreases replacements.len(),
{
    if replacements.len() == 0 {
        Seq::empty()
    } else {
        let before = by_occurrence(replacements.drop_last());
        match replacements.last()@.occurrence {
            Some(at) => order::insert_stable(before, total_of(at), replacements.last()),
            None => before,
        }
    }
}

/// The VEVENTs that replace occurrences of a series, each with its RECURRENCE-ID.
pub open spec fn replaced_parts(
    replacements: Seq<(int, &Event)>,
    uid: Text,
    days: Text,
    fallback: Instant,
    zone: Option<Text>,
) -> Seq<PartView>
    decreases replacements.len(),
{
    if replacements.len() == 0 {
        Seq::empty()
    } else {
        let before = replaced_parts(replacements.drop_last(), uid, days, fallback, zone);
        let event = replacements.last().1@;
        match (vevent_of(event, uid, days, fallback, zone), event.occurrence) {
            (Some(part), Some(occurrence)) => {
                let at = ical::date_text(wired(model::classified_date(occurrence, days), zone));
                before.push(
                    PartView {
                        once: part.once.push(ical::line_of("RECURRENCE-ID"@, at.0, at.1)),
                        ..part
                    },
                )
            },
            _ => before,
        }
    }
}

/// The lines of the excluded occurrences.
pub open spec fn excluded_lines(exdates: Seq<DateView>, days: Text, zone: Option<Text>) -> Seq<
    LineView,
> {
    Seq::new(
        exdates.len(),
        |i: int|
            ical::multi_of(
                "EXDATE"@,
                ical::date_text(wired(model::classified_date(exdates[i], days), zone)).0,
                ical::date_text(wired(model::classified_date(exdates[i], days), zone)).1,
            ),
    )
}

/// The VEVENTs of a resource: a standalone event, or a series, the master with RRULE
/// and EXDATE and then one VEVENT per replaced occurrence.
pub open spec fn series_parts(
    master: EventView,
    replacements: Seq<&Event>,
    days: Text,
    clock: Text,
    fallback: Instant,
) -> Option<Seq<PartView>> {
    let zone = if master.rrule is Some {
        Some(clock)
    } else {
        None
    };
    match vevent_of(master, master.uid(), days, fallback, zone) {
        None => None,
        Some(first) => match master.rrule {
            None => Some(seq![first]),
            Some(rule) => Some(
                seq![
                    PartView {
                        once: first.once.push(
                            ical::line_of("RRULE"@, text::trimmed(rule), Seq::empty()),
                        ),
                        many: first.many + excluded_lines(master.exdates, days, zone),
                        ..first
                    },
                ] + replaced_parts(
                    by_occurrence(replacements),
                    master.uid(),
                    days,
                    fallback,
                    zone,
                ),
            ),
        },
    }
}

/// The text of the resource of an event or a series; none without a start.
pub open spec fn series_text(
    master: EventView,
    replacements: Seq<&Event>,
    config: CalendarConfig,
    fallback: Instant,
) -> Option<Text> {
    match series_parts(
        master,
        replacements,
        config.date_only_timezone@,
        config.timezone@,
        fallback,
    ) {
        None => None,
        Some(parts) => Some(ical::calendar_text(config.name@, config.timezone@, parts)),
    }
}

/// Whether a text is read as the resource that it was written for: it ends with a line
/// break, and plain lines come back as they were.
pub open spec fn legible(
    body: Text,
    master: EventView,
    replacements: Seq<&Event>,
    config: CalendarConfig,
    fallback: Instant,
) -> bool {
    let parts = series_parts(
        master,
        replacements,
        config.date_only_timezone@,
        config.timezone@,
        fallback,
    )->0;
    &&& body.len() > 0 && body.last() == '\n'
    &&& ical::plain_document(config.name@, config.timezone@, parts) ==> ical::read_back(
        ical::event_lines_in(body),
        parts,
    ) && ical::alarms_read_back(ical::inner_lines_in(body), parts) && nesting::shallow(body)
}

fn put_excluded(
    many: &mut Vec<Line>,
    exdates: &Vec<AnytypeDate>,
    days: &Zone,
    zone: Option<&Zone>,
)
    ensures
        ical::lines(final(many)@) == ical::lines(old(many)@) + excluded_lines(
            dates(exdates@),
            days@,
            zone_view(zone),
        ),
{
    let ghost before = ical::lines(many@);
    let ghost wanted = excluded_lines(dates(exdates@), days@, zone_view(zone));
    let mut i: usize = 0;
    assert(before + wanted.take(0) == before);
    while i < exdates.len()
        invariant
            i <= exdates@.len(),
            wanted == excluded_lines(dates(exdates@), days@, zone_view(zone)),
            ical::lines(many@) == before + wanted.take(i as int),
        decreases exdates@.len() - i,
    {
        let ghost so_far = many@;
        let line = ical::date_line("EXDATE", &wire_value(exdates[i].classify(days), zone), true);
        assert(line@ == wanted[i as int]);
        many.push(line);
        assert(ical::lines(many@) == ical::lines(so_far).push(line@));
        i += 1;
        assert(wanted.take(i as int) == wanted.take(i - 1).push(wanted[i - 1]));
    }
    assert(wanted.take(wanted.len() as int) == wanted);
}

fn in_order_of_occurrence<'a>(replacements: &Vec<&'a Event>) -> (r: Vec<(i128, &'a Event)>)
    ensures
        order::keyed(r@) == by_occurrence(replacements@),
{
    let mut r: Vec<(i128, &'a Event)> = Vec::new();
    let mut i: usize = 0;
    assert(order::keyed(r@) == by_occurrence(replacements@.take(0)));
    while i < replacements.len()
        invariant
            i <= replacements@.len(),
            order::keyed(r@) == by_occurrence(replacements@.take(i as int)),
        decreases replacements@.len() - i,
    {
        assert(replacements@.take(i + 1).drop_last() == replacements@.take(i as int));
        assert(replacements@.take(i + 1).last() == replacements@[i as int]);
        let one = replacements[i];
        if let Some(at) = &one.occurrence {
            order::put_stable(&mut r, at.parsed.in_nanos(), one);
        }
        i += 1;
    }
    assert(replacements@.take(replacements@.len() as int) == replacements@);
    r
}

fn put_replaced(
    list: &mut Vec<Part>,
    replacements: &Vec<(i128, &Event)>,
    uid: &str,
    config: &CalendarConfig,
    fallback: Instant,
    zone: Option<&Zone>,
)
    requires
        ical::all_stamped(ical::parts(old(list)@)),
    ensures
        ical::parts(final(list)@) == ical::parts(old(list)@) + replaced_parts(
            order::keyed(replacements@),
            uid@,
            config.date_only_timezone@,
            fallback,
            zone_view(zone),
        ),
        ical::all_stamped(ical::parts(final(list)@)),
{
    let ghost before = ical::parts(list@);
    let ghost all = order::keyed(replacements@);
    let ghost days = config.date_only_timezone@;
    let ghost there = zone_view(zone);
    let mut i: usize = 0;
    assert(before + replaced_parts(all.take(0), uid@, days, fallback, there) == before);
    while i < replacements.len()
        invariant
            i <= replacements@.len(),
            all == order::keyed(replacements@),
            days == config.date_only_timezone@,
            there == zone_view(zone),
            ical::parts(list@) == before + replaced_parts(
                all.take(i as int),
                uid@,
                days,
                fallback,
                there,
            ),
            ical::all_stamped(ical::parts(list@)),
        decreases replacements@.len() - i,
    {
        assert(all.take(i + 1).drop_last() == all.take(i as int));
        let one = replacements[i].1;
        assert(all.take(i + 1).last().1 == one);
        let ghost so_far = list@;
        if let Some(occurrence) = &one.occurrence {
            if let Some(part) = vevent_for(one, uid, config, fallback, zone) {
                let mut part = part;
                let ghost plain = part@;
                proof {
                    lemma_vevent_stamped(one@, uid@, days, fallback, there);
                }
                let value = occurrence.classify(&config.date_only_timezone);
                push_date(&mut part.once, "RECURRENCE-ID", &wire_value(value, zone));
                proof {
                    assert(part@.once[0].key == "UID"@);
                    assert(part@.once[2].key == "DTSTAMP"@);
                    assert(ical::stamped(part@.once));
                    assert(part@.alarms == plain.alarms);
                }
                list.push(part);
                proof {
                    assert(ical::parts(list@) == ical::parts(so_far).push(part@));
                }
            }
        }
        i += 1;
    }
    assert(all.take(all.len() as int) == all);
}

/// A standalone event, or a series: the master with RRULE and EXDATE, then one VEVENT
/// with RECURRENCE-ID per replaced occurrence, all in one resource as one UID
/// requires.
pub fn render_series(
    master: &Event,
    replacements: &Vec<&Event>,
    config: &CalendarConfig,
    fallback: Instant,
) -> (r: Option<String>)
    requires
        series_folds(master@, replacements@),
        ical::name_folds(config.name@),
    ensures
        text::text_of(r) == series_text(master@, replacements@, *config, fallback),
        r matches Some(body) ==> legible(body@, master@, replacements@, *config, fallback),
{
    let uid = master.uid();
    let zone = if master.rrule.is_some() {
        Some(&config.timezone)
    } else {
        None
    };
    let ghost days = config.date_only_timezone@;
    let ghost there = zone_view(zone);
    let mut first = match vevent_for(master, uid.as_str(), config, fallback, zone) {
        Some(part) => part,
        None => {
            return None;
        },
    };
    proof {
        lemma_vevent_stamped(master@, uid@, days, fallback, there);
    }
    let ghost plain = first@;
    let mut list: Vec<Part> = Vec::new();
    match &master.rrule {
        None => {
            proof {
                assert(ical::stamped(first@.once));
            }
            list.push(first);
            assert(ical::parts(list@) == seq![plain]);
        },
        Some(rule) => {
            ical::put_line(&mut first.once, "RRULE", text::trim(rule.as_str()).to_owned());
            put_excluded(&mut first.many, &master.exdates, &config.date_only_timezone, zone);
            proof {
                assert(first@.once[0].key == "UID"@);
                assert(first@.once[2].key == "DTSTAMP"@);
                assert(ical::stamped(first@.once));
                assert(first@.alarms == plain.alarms);
            }
            list.push(first);
            assert(ical::parts(list@) == seq![first@]);
            let ordered = in_order_of_occurrence(replacements);
            put_replaced(&mut list, &ordered, uid.as_str(), config, fallback, zone);
        },
    }
    let clock = config.timezone.name();
    proof {
        lemma_series_folds(master@, replacements@, days, clock@, fallback);
    }
    Some(ical::write_calendar(config.name.as_str(), clock, &list))
}

pub fn render_event(event: &Event, config: &CalendarConfig, fallback: Instant) -> (r: Option<
    String,
>)
    requires
        series_folds(event@, Seq::empty()),
        ical::name_folds(config.name@),
    ensures
        text::text_of(r) == series_text(event@, Seq::empty(), *config, fallback),
        r matches Some(body) ==> legible(body@, event@, Seq::empty(), *config, fallback),
{
    render_series(event, &Vec::new(), config, fallback)
}

/// The resource of an event or a series.
pub open spec fn series_resource(
    master: EventView,
    replacements: Seq<&Event>,
    config: CalendarConfig,
    fallback: Instant,
) -> Option<feed::ResourceView> {
    match series_text(master, replacements, config, fallback) {
        None => None,
        Some(ics) => Some(feed::served_as(master.object_id, ics)),
    }
}

pub open spec fn resource_view(r: Option<Resource>) -> Option<feed::ResourceView> {
    match r {
        Some(r) => Some(r@),
        None => None,
    }
}

pub fn resource_for(
    master: &Event,
    replacements: &Vec<&Event>,
    config: &CalendarConfig,
    fallback: Instant,
) -> (r: Option<Resource>)
    requires
        series_folds(master@, replacements@),
        ical::name_folds(config.name@),
    ensures
        resource_view(r) == series_resource(master@, replacements@, *config, fallback),
{
    match render_series(master, replacements, config, fallback) {
        Some(ics) => Some(feed::resource_of(master.object_id.as_str(), ics)),
        None => None,
    }
}

// ------------------------------------------------------------------ the collection

/// Whether an event replaces an occurrence of a series.
pub open spec fn stands_for(event: EventView, master: Text) -> bool {
    event.series == Some(master) && event.occurrence is Some
}

pub open spec fn replacements_in<'a>(events: Seq<Event>, master: Text) -> Seq<&'a Event>
    decreases events.len(),
{
    if events.len() == 0 {
        Seq::empty()
    } else {
        let before = replacements_in(events.drop_last(), master);
        if stands_for(events.last()@, master) {
            before.push(&events.last())
        } else {
            before
        }
    }
}

/// Objects replacing occurrences of `master_id`.
pub fn replacements_of<'a>(master_id: &str, events: &'a Vec<Event>) -> (r: Vec<&'a Event>)
    ensures
        r@ == replacements_in(events@, master_id@),
{
    let mut r: Vec<&'a Event> = Vec::new();
    let mut i: usize = 0;
    while i < events.len()
        invariant
            i <= events@.len(),
            r@ == replacements_in(events@.take(i as int), master_id@),
        decreases events@.len() - i,
    {
        assert(events@.take(i + 1).drop_last() == events@.take(i as int));
        assert(events@.take(i + 1).last() == events@[i as int]);
        if text::is_text(&events[i].series, master_id) && events[i].occurrence.is_some() {
            r.push(&events[i]);
        }
        i += 1;
    }
    assert(events@.take(events@.len() as int) == events@);
    r
}

/// Whether some event is the master of a series under this id.
pub open spec fn recurs(events: Seq<Event>, id: Text) -> bool {
    exists|i: int|
        0 <= i < events.len() && (#[trigger] events[i])@.object_id == id && events[i]@.rrule is Some
}

/// Whether an event is served inside its series' resource.
pub open spec fn inside_a_series(event: EventView, events: Seq<Event>) -> bool {
    event.occurrence is Some && event.series is Some && recurs(events, event.series->0)
}

/// Served inside its series' resource rather than on its own. An object whose series
/// is gone or no longer recurs is served as a plain event, so it never disappears
/// from the calendar.
pub fn replaces_an_occurrence(event: &Event, events: &Vec<Event>) -> (r: bool)
    ensures
        r == inside_a_series(event@, events@),
{
    if event.occurrence.is_none() {
        return false;
    }
    match &event.series {
        None => false,
        Some(series) => {
            let mut i: usize = 0;
            while i < events.len()
                invariant
                    i <= events@.len(),
                    event.occurrence is Some,
                    event.series == Some(*series),
                    forall|j: int|
                        0 <= j < i ==> !((#[trigger] events@[j])@.object_id == series@
                            && events@[j]@.rrule is Some),
                decreases events@.len() - i,
            {
                if text::same(events[i].object_id.as_str(), series.as_str())
                    && events[i].rrule.is_some() {
                    assert(events@[i as int]@.object_id == series@);
                    return true;
                }
                i += 1;
            }
            false
        },
    }
}

/// The resources of some events, by name.
pub open spec fn event_objects(
    some: Seq<Event>,
    all: Seq<Event>,
    config: CalendarConfig,
    fallback: Instant,
) -> Seq<(Text, feed::ResourceView)>
    decreases some.len(),
{
    if some.len() == 0 {
        Seq::empty()
    } else {
        let before = event_objects(some.drop_last(), all, config, fallback);
        let event = some.last()@;
        if inside_a_series(event, all) {
            before
        } else {
            let with_event = match series_resource(
                event,
                replacements_in(all, event.object_id),
                config,
                fallback,
            ) {
                Some(resource) => table::put(before, event.served_name(), resource),
                None => before,
            };
            match entry_of(event, config.language) {
                None => with_event,
                Some(entry) => match series_resource(entry, Seq::empty(), config, fallback) {
                    Some(resource) => table::put(with_event, entry.served_name(), resource),
                    None => with_event,
                },
            }
        }
    }
}

pub struct EventSnapshot {
    pub objects: Table<Resource>,
    pub ctag: String,
}

/// The resources of the events and the tag of them all.
pub fn snapshot_of(events: &Vec<Event>, config: &CalendarConfig, fallback: Instant) -> (r:
    EventSnapshot)
    requires
        events_fold(events@, config.language),
        ical::name_folds(config.name@),
    ensures
        table::views(r.objects@) == event_objects(events@, events@, *config, fallback),
        r.ctag@ == feed::ctag_of(table::views(r.objects@)),
{
    let mut objects: Table<Resource> = Table::new();
    let mut i: usize = 0;
    assert(table::views(objects@) == event_objects(events@.take(0), events@, *config, fallback));
    while i < events.len()
        invariant
            i <= events@.len(),
            events_fold(events@, config.language),
            ical::name_folds(config.name@),
            table::views(objects@) == event_objects(
                events@.take(i as int),
                events@,
                *config,
                fallback,
            ),
        decreases events@.len() - i,
    {
        assert(events@.take(i + 1).drop_last() == events@.take(i as int));
        assert(events@.take(i + 1).last() == events@[i as int]);
        let event = &events[i];
        assert(served_folds(event@, events@, config.language));
        if !replaces_an_occurrence(event, events) {
            let replacements = replacements_of(event.object_id.as_str(), events);
            if let Some(resource) = resource_for(event, &replacements, config, fallback) {
                let name = event.resource_name();
                proof {
                    table::lemma_views_put(objects@, name@, resource);
                }
                objects.insert(name, resource);
            }
            if let Some(entry) = deadline_entry(event, config.language) {
                let nothing: Vec<&Event> = Vec::new();
                assert(nothing@ == Seq::<&Event>::empty());
                if let Some(resource) = resource_for(&entry, &nothing, config, fallback) {
                    let name = entry.resource_name();
                    proof {
                        table::lemma_views_put(objects@, name@, resource);
                    }
                    objects.insert(name, resource);
                }
            }
        }
        i += 1;
    }
    assert(events@.take(events@.len() as int) == events@);
    let ctag = feed::collection_ctag(&objects);
    EventSnapshot { objects, ctag }
}

/// What is read for one resource: the object, and for a series the objects that point
/// at it.
pub open spec fn pointing_at(events: Seq<Event>, master: Text) -> Seq<Event>
    decreases events.len(),
{
    if events.len() == 0 {
        Seq::empty()
    } else {
        let before = pointing_at(events.drop_last(), master);
        if events.last()@.series == Some(master) {
            before.push(events.last())
        } else {
            before
        }
    }
}

/// What a fresh read of one resource comes to once its object is read.
pub enum SeriesRead {
    /// All is known: the object and the objects that replace its occurrences, or that
    /// there is none.
    Known(Option<(Event, Vec<Event>)>),
    /// A series: the events are to be listed for the objects that replace its occurrences.
    List(Event),
}

/// What is left to read of a resource: nothing where there is no object, or where it has
/// no rule and so no occurrences to replace.
pub fn series_read(found: Option<Event>) -> (r: SeriesRead)
    ensures
        match found {
            None => r == SeriesRead::Known(None),
            Some(event) => if event.rrule is Some {
                r == SeriesRead::List(event)
            } else {
                r matches SeriesRead::Known(Some((master, replacements))) && master == event
                    && replacements@.len() == 0
            },
        },
{
    match found {
        None => SeriesRead::Known(None),
        Some(event) => if event.rrule.is_some() {
            SeriesRead::List(event)
        } else {
            SeriesRead::Known(Some((event, Vec::new())))
        },
    }
}

/// A series and, of all events, those that replace its occurrences.
pub fn series_among(master: Event, object_id: &str, events: Vec<Event>) -> (r: (Event, Vec<Event>))
    ensures
        r.0 == master,
        r.1@ == pointing_at(events@, object_id@),
{
    let mut events = events;
    keep_pointing_at(&mut events, object_id);
    (master, events)
}

/// Keeps the objects that point at a series.
fn keep_pointing_at(events: &mut Vec<Event>, master_id: &str)
    ensures
        final(events)@ == pointing_at(old(events)@, master_id@),
{
    let ghost all = events@;
    let mut at: usize = 0;
    let ghost mut done: int = 0;
    assert(all.skip(0) == all);
    while at < events.len()
        invariant
            0 <= done <= all.len(),
            at == pointing_at(all.take(done), master_id@).len(),
            events@ == pointing_at(all.take(done), master_id@) + all.skip(done),
        decreases all.len() - done,
    {
        let ghost before = pointing_at(all.take(done), master_id@);
        proof {
            assert(all.take(done + 1).drop_last() == all.take(done));
            assert(all.take(done + 1).last() == all[done]);
            assert(events@[at as int] == all[done]);
            assert(all.skip(done).drop_first() == all.skip(done + 1));
        }
        if text::is_text(&events[at].series, master_id) {
            at += 1;
            assert(before + all.skip(done) == before.push(all[done]) + all.skip(done + 1));
        } else {
            events.remove(at);
            assert((before + all.skip(done)).remove(at as int) == before + all.skip(done + 1));
        }
        proof {
            done = done + 1;
        }
    }
    proof {
        assert(all.skip(done).len() == 0);
        assert(all.take(done) == all);
        assert(pointing_at(all, master_id@) + all.skip(done) == pointing_at(all, master_id@));
    }
}

/// When an event is announced: its moment, or a time of its day.
pub open spec fn announced(
    start: Option<DateView>,
    config: CalendarConfig,
    all_day_time: int,
) -> Option<(int, int)> {
    match start {
        None => None,
        Some(start) => match model::classified_date(start, config.date_only_timezone@) {
            When::At(second, nano) => Some((second, nano)),
            When::Day(day) => match time::first_moment(
                config.timezone@,
                day * 86_400 + all_day_time,
            ) {
                Some(second) => Some((second, 0)),
                None => None,
            },
        },
    }
}

/// A moment for an event's start, for reminders.
pub fn start_instant(event: &Event, config: &CalendarConfig, all_day_time: u32) -> (r: Option<
    Instant,
>)
    requires
        all_day_time < 86_400,
    ensures
        match r {
            Some(at) => announced(event@.start, *config, all_day_time as int) == Some(
                (at.second(), at.nano()),
            ),
            None => announced(event@.start, *config, all_day_time as int) is None,
        },
{
    match &event.start {
        None => None,
        Some(start) => match start.classify(&config.date_only_timezone) {
            CalendarValue::Instant(at) => Some(at),
            CalendarValue::AllDay(day) => config.timezone.earliest_of(day, all_day_time),
        },
    }
}

// ------------------------------------------------------------------ recurrence

/// The moment that an occurrence of a rule is stored as: a whole day is its first
/// moment, where it has one.
pub open spec fn occurrence_moment(second: int, zone: Text, all_day: bool) -> int {
    if all_day {
        match time::first_moment(zone, time::day_of(time::local_at(zone, second)) * 86_400) {
            Some(first) => first,
            None => second,
        }
    } else {
        second
    }
}

/// The occurrences that are left of those that a rule gives, in the space's shape of
/// dates. Those out of reach are left out.
pub open spec fn left_of(
    found: Seq<int>,
    zone: Text,
    all_day: bool,
    skipped: Seq<(int, int)>,
) -> Seq<DateView>
    decreases found.len(),
{
    if found.len() == 0 {
        Seq::empty()
    } else {
        let before = left_of(found.drop_last(), zone, all_day, skipped);
        let second = found.last();
        if time::FIRST_SECOND <= second <= time::LAST_SECOND {
            let at = occurrence_moment(second, zone, all_day);
            if skipped.contains((at, 0)) {
                before
            } else {
                match model::date_of(time::rfc3339_text(at, 0)) {
                    Some(date) => before.push(date),
                    None => before,
                }
            }
        } else {
            before
        }
    }
}

pub open spec fn moments(v: Seq<Instant>) -> Seq<(int, int)> {
    Seq::new(v.len(), |i: int| (v[i].second(), v[i].nano()))
}

/// The moments of dates.
pub open spec fn date_moments(v: Seq<DateView>) -> Seq<(int, int)> {
    Seq::new(v.len(), |i: int| (v[i].second, v[i].nano))
}

fn holds_moment(list: &Vec<Instant>, at: Instant) -> (r: bool)
    ensures
        r == moments(list@).contains((at.second(), at.nano())),
{
    let mut i: usize = 0;
    while i < list.len()
        invariant
            i <= list@.len(),
            forall|j: int| 0 <= j < i ==> #[trigger] moments(list@)[j] != (at.second(), at.nano()),
        decreases list@.len() - i,
    {
        if list[i].seconds() == at.seconds() && list[i].nanos() == at.nanos() {
            assert(moments(list@)[i as int] == (at.second(), at.nano()));
            return true;
        }
        i += 1;
    }
    false
}

/// Whether what is written of an occurrence that is not skipped is read as it again, in the
/// years that RFC 3339 can write.
pub open spec fn occurrence_kept(
    second: int,
    zone: Text,
    all_day: bool,
    skipped: Seq<(int, int)>,
) -> bool {
    let at = occurrence_moment(second, zone, all_day);
    time::FIRST_SECOND <= second <= time::LAST_SECOND && !skipped.contains((at, 0))
        && writeback::in_four_digit_years(at) ==> time::rfc3339(time::rfc3339_text(at, 0)) == Some(
        (at, 0int, 0int),
    )
}

pub open spec fn occurrences_kept(
    found: Seq<int>,
    zone: Text,
    all_day: bool,
    skipped: Seq<(int, int)>,
) -> bool {
    forall|n: int|
        0 <= n < found.len() ==> occurrence_kept(#[trigger] found[n], zone, all_day, skipped)
}

/// What is left of the occurrences that a rule gives.
pub fn keep_occurrences(
    found: &Vec<i64>,
    tz: &Zone,
    all_day: bool,
    skipped: &Vec<Instant>,
) -> (r: Vec<AnytypeDate>)
    ensures
        dates(r@) == left_of(
            recurrence::seconds(found@),
            tz@,
            all_day,
            moments(skipped@),
        ),
        occurrences_kept(recurrence::seconds(found@), tz@, all_day, moments(skipped@)),
{
    let ghost all = recurrence::seconds(found@);
    let mut r: Vec<AnytypeDate> = Vec::new();
    let mut i: usize = 0;
    assert(dates(r@) == left_of(all.take(0), tz@, all_day, moments(skipped@)));
    while i < found.len()
        invariant
            i <= found@.len(),
            all == recurrence::seconds(found@),
            dates(r@) == left_of(all.take(i as int), tz@, all_day, moments(skipped@)),
            occurrences_kept(all.take(i as int), tz@, all_day, moments(skipped@)),
        decreases found@.len() - i,
    {
        assert(all.take(i + 1).drop_last() == all.take(i as int));
        assert(all.take(i + 1).last() == found@[i as int]);
        let ghost before = r@;
        if let Some(occurrence) = Instant::new(found[i], 0) {
            let at = if all_day {
                let (day, _) = tz.show(occurrence);
                match tz.earliest_of(day, 0) {
                    Some(first) => first,
                    None => occurrence,
                }
            } else {
                occurrence
            };
            assert(at.second() == occurrence_moment(found@[i as int] as int, tz@, all_day)
                && at.nano() == 0);
            if !holds_moment(skipped, at) {
                if let Some(date) = AnytypeDate::parse(time::rfc3339_of(at).as_str()) {
                    r.push(date);
                    assert(dates(r@) == dates(before).push(date@));
                }
            }
        }
        proof {
            let one = all.take(i + 1);
            assert forall|n: int| 0 <= n < one.len() implies occurrence_kept(
                #[trigger] one[n],
                tz@,
                all_day,
                moments(skipped@),
            ) by {
                if n < i {
                    assert(all.take(i as int)[n] == one[n]);
                }
            }
        }
        i += 1;
    }
    assert(all.take(all.len() as int) == all);
    r
}

/// Whether a moment lies between two others.
pub open spec fn within(at: DateView, from: Instant, to: Instant) -> bool {
    from.total() <= total_of(at) <= to.total()
}

/// What the starts of an event's occurrences between two moments are: what is left of
/// those of its rule. A rule that stands on one line decides which these are; otherwise
/// they are some. `None` is a rule that cannot be read.
pub open spec fn occurrences_are(
    event: EventView,
    zone: Text,
    replaced: Seq<(int, int)>,
    from: Instant,
    to: Instant,
    r: Option<Seq<DateView>>,
) -> bool {
    match (event.start, event.rrule) {
        (None, _) => r == Some(Seq::<DateView>::empty()),
        (Some(start), None) => r == Some(
            if within(start, from, to) {
                seq![start]
            } else {
                Seq::empty()
            },
        ),
        (Some(start), Some(rule)) => exists|found: Option<Seq<int>>|
            {
                &&& recurrence::one_line(text::trimmed(rule)) ==> found
                    == recurrence::anchored_between(rule, start, zone, from, to, 1000)
                &&& !recurrence::days_cut(text::trimmed(rule)) ==> found is None
                &&& r == #[trigger] left_when(
                    found,
                    zone,
                    recurrence::start_of(model::classified_date(start, zone), zone).1,
                    date_moments(event.exdates) + replaced,
                )
            },
    }
}

/// What is left of the starts of a rule, where it could be read.
pub open spec fn left_when(
    found: Option<Seq<int>>,
    zone: Text,
    all_day: bool,
    skipped: Seq<(int, int)>,
) -> Option<Seq<DateView>> {
    match found {
        Some(found) => Some(left_of(found, zone, all_day, skipped)),
        None => None,
    }
}

pub open spec fn occurrences_view(r: Result<Vec<AnytypeDate>, String>) -> Option<Seq<DateView>> {
    match r {
        Ok(list) => Some(dates(list@)),
        Err(_) => None,
    }
}

/// Starts of a series' occurrences within `[from, to]`, in the space's date shape so
/// they classify like a stored start. The rule is expanded in local time, so a
/// daylight-saving change keeps the wall clock. Excluded dates and occurrences in
/// `replaced` are left out; an event without a rule yields its own start when it falls
/// in the window.
pub fn occurrences_between(
    event: &Event,
    tz: &Zone,
    replaced: &Vec<Instant>,
    from: Instant,
    to: Instant,
) -> (r: Result<Vec<AnytypeDate>, String>)
    ensures
        occurrences_are(event@, tz@, moments(replaced@), from, to, occurrences_view(r)),
{
    let start = match &event.start {
        Some(start) => start,
        None => {
            let r: Vec<AnytypeDate> = Vec::new();
            assert(dates(r@) == Seq::<DateView>::empty());
            return Ok(r);
        },
    };
    let rule = match &event.rrule {
        Some(rule) => rule,
        None => {
            let mut r: Vec<AnytypeDate> = Vec::new();
            let at = start.parsed.in_nanos();
            if from.in_nanos() <= at && at <= to.in_nanos() {
                r.push(start.copy());
                assert(dates(r@) == seq![start@]);
            } else {
                assert(dates(r@) == Seq::<DateView>::empty());
            }
            return Ok(r);
        },
    };
    let (_, all_day) = recurrence::rule_start(start, tz);
    let mut skipped: Vec<Instant> = Vec::new();
    let ghost wanted = date_moments(event@.exdates) + moments(replaced@);
    let mut i: usize = 0;
    while i < event.exdates.len()
        invariant
            i <= event.exdates@.len(),
            wanted == date_moments(event@.exdates) + moments(replaced@),
            moments(skipped@) == wanted.take(i as int),
        decreases event.exdates@.len() - i,
    {
        let ghost before = skipped@;
        skipped.push(event.exdates[i].parsed);
        assert(moments(skipped@) == moments(before).push(wanted[i as int]));
        i += 1;
        assert(wanted.take(i as int) == wanted.take(i - 1).push(wanted[i - 1]));
    }
    let mut k: usize = 0;
    while k < replaced.len()
        invariant
            k <= replaced@.len(),
            wanted == date_moments(event@.exdates) + moments(replaced@),
            moments(skipped@) == wanted.take(event.exdates@.len() + k),
        decreases replaced@.len() - k,
    {
        let ghost before = skipped@;
        skipped.push(replaced[k]);
        assert(moments(skipped@) == moments(before).push(
            wanted[event.exdates@.len() + k as int],
        ));
        k += 1;
        assert(wanted.take(event.exdates@.len() + k) == wanted.take(
            event.exdates@.len() + k - 1,
        ).push(wanted[event.exdates@.len() + k - 1]));
    }
    assert(wanted.take(wanted.len() as int) == wanted);
    match recurrence::between_of_rule(rule.as_str(), start, tz, from, to, 1000) {
        Ok(found) => {
            let r = keep_occurrences(&found, tz, all_day, &skipped);
            let ghost starts = Some(recurrence::seconds(found@));
            assert(Some(dates(r@)) == left_when(starts, tz@, all_day, wanted));
            Ok(r)
        },
        Err(why) => {
            assert(left_when(None, tz@, all_day, wanted) is None);
            Err(why)
        },
    }
}

/// The events as they were last read.
pub struct EventCache {
    /// What was read, and when, in nanoseconds of a clock that never goes back.
    pub held: Option<(u64, EventSnapshot)>,
}

impl EventCache {
    pub fn new() -> (r: EventCache)
        ensures
            r.held is None,
    {
        EventCache { held: None }
    }

    /// Whether what was read at a moment is still served at another.
    pub open spec fn fresh(taken: u64, now: u64, ttl: Span) -> bool {
        now - taken < ttl.length()
    }

    /// What is served without reading the space again: what was read less than `ttl`
    /// ago.
    pub fn snapshot<'a>(&'a self, now: u64, ttl: &Span) -> (r: Option<&'a EventSnapshot>)
        ensures
            match (r, self.held) {
                (Some(snapshot), Some((taken, held))) => *snapshot == held && Self::fresh(
                    taken,
                    now,
                    *ttl,
                ),
                (Some(_), None) => false,
                (None, Some((taken, _))) => !Self::fresh(taken, now, *ttl),
                (None, None) => true,
            },
    {
        match &self.held {
            Some((taken, snapshot)) => {
                let age: i128 = now as i128 - *taken as i128;
                if age < ttl.in_nanos() {
                    Some(snapshot)
                } else {
                    None
                }
            },
            None => None,
        }
    }

    pub fn store(&mut self, now: u64, snapshot: EventSnapshot)
        ensures
            final(self).held == Some((now, snapshot)),
    {
        self.held = Some((now, snapshot));
    }

    /// Makes the next request read the space again.
    pub fn invalidate(&mut self)
        ensures
            final(self).held is None,
    {
        self.held = None;
    }
}

// ------------------------------------------------------------------ what is served

/// No event disappears from the calendar: one with a start that is not inside a series that
/// still recurs is served under its name. Where no event behind it takes that name, what is
/// served is the event with all that replaces its occurrences.
pub proof fn law_no_event_disappears(
    some: Seq<Event>,
    all: Seq<Event>,
    config: CalendarConfig,
    fallback: Instant,
    i: int,
)
    requires
        0 <= i < some.len(),
        some[i]@.start is Some,
        some[i]@.occurrence is None || some[i]@.series is None || forall|j: int|
            0 <= j < all.len() ==> (#[trigger] all[j])@.object_id != some[i]@.series->0
                || all[j]@.rrule is None,
    ensures
        table::at(event_objects(some, all, config, fallback), some[i]@.served_name()) is Some,
        (forall|k: int|
            i <= k < some.len() ==> !names_entry(
                (#[trigger] some[k])@,
                config.language,
                some[i]@.served_name(),
            ) && (k > i ==> some[k]@.served_name() != some[i]@.served_name())) ==> (table::at(
            event_objects(some, all, config, fallback),
            some[i]@.served_name(),
        ) matches Some(served) && Some(served) == series_resource(
            some[i]@,
            replacements_in(all, some[i]@.object_id),
            config,
            fallback,
        )),
    decreases some.len(),
{
    let front = some.drop_last();
    let before = event_objects(front, all, config, fallback);
    let event = some.last()@;
    let name = some[i]@.served_name();
    let alone = forall|k: int|
        i <= k < some.len() ==> !names_entry((#[trigger] some[k])@, config.language, name) && (k > i
            ==> some[k]@.served_name() != name);
    if i < front.len() {
        assert(front[i] == some[i]);
        law_no_event_disappears(front, all, config, fallback, i);
        if alone {
            assert forall|k: int| i <= k < front.len() implies !names_entry(
                (#[trigger] front[k])@,
                config.language,
                name,
            ) && (k > i ==> front[k]@.served_name() != name) by {
                assert(front[k] == some[k]);
            }
        }
    }
    assert(some[some.len() - 1] == some.last());
    if !inside_a_series(event, all) {
        let own = series_resource(
            event,
            replacements_in(all, event.object_id),
            config,
            fallback,
        );
        let with_event = match own {
            Some(resource) => table::put(before, event.served_name(), resource),
            None => before,
        };
        if let Some(resource) = own {
            table::lemma_at_put(before, event.served_name(), resource, name);
        }
        if let Some(entry) = entry_of(event, config.language) {
            if let Some(resource) = series_resource(entry, Seq::empty(), config, fallback) {
                table::lemma_at_put(with_event, entry.served_name(), resource, name);
            }
        }
    }
}

/// Whether the entry for the deadline of an event is served under a name.
pub open spec fn names_entry(event: EventView, language: Language, name: Text) -> bool {
    entry_of(event, language) matches Some(entry) && entry.served_name() == name
}

/// The deadline of a single event has an entry in the calendar: on the deadline, under a name
/// that says so, with the tags, the link and the reminders of the event, and with no length.
/// A series has none.
pub proof fn law_a_deadline_has_an_entry(
    some: Seq<Event>,
    all: Seq<Event>,
    config: CalendarConfig,
    fallback: Instant,
    i: int,
)
    requires
        0 <= i < some.len(),
    ensures
        entry_of(some[i]@, config.language) is Some <==> some[i]@.deadline is Some
            && some[i]@.rrule is None,
        entry_of(some[i]@, config.language) matches Some(entry) ==> {
            &&& entry.start == some[i]@.deadline
            &&& entry.end is None
            &&& entry.tags == some[i]@.tags
            &&& entry.reminder_names == some[i]@.reminder_names
            &&& entry.object_url == some[i]@.object_url
            &&& entry.object_id == some[i]@.object_id
            &&& text::starts_with(entry.name, some[i]@.name)
            &&& entry.uid() == some[i]@.uid() + "-deadline"@
            &&& !inside_a_series(some[i]@, all) ==> table::at(
                event_objects(some, all, config, fallback),
                entry.served_name(),
            ) is Some
        },
    decreases some.len(),
{
    let front = some.drop_last();
    let before = event_objects(front, all, config, fallback);
    let event = some.last()@;
    if let Some(entry) = entry_of(some[i]@, config.language) {
        let name = entry.served_name();
        let start = some[i]@.name;
        assert(entry.name.subrange(0, start.len() as int) == start);
        if i < front.len() {
            assert(front[i] == some[i]);
            law_a_deadline_has_an_entry(front, all, config, fallback, i);
        }
        if !inside_a_series(event, all) {
            let own = series_resource(
                event,
                replacements_in(all, event.object_id),
                config,
                fallback,
            );
            let with_event = match own {
                Some(resource) => table::put(before, event.served_name(), resource),
                None => before,
            };
            if let Some(resource) = own {
                table::lemma_at_put(before, event.served_name(), resource, name);
            }
            if let Some(last) = entry_of(event, config.language) {
                if let Some(resource) = series_resource(last, Seq::empty(), config, fallback) {
                    table::lemma_at_put(with_event, last.served_name(), resource, name);
                }
            }
        }
    }
}

proof fn lemma_stable_holds<T>(s: Seq<(int, T)>, key: int, value: T, i: int)
    ensures
        order::insert_stable(s, key, value).contains((key, value)),
        0 <= i < s.len() ==> order::insert_stable(s, key, value).contains(s[i]),
    decreases s.len(),
{
    let r = order::insert_stable(s, key, value);
    if s.len() == 0 || s.last().0 <= key {
        assert(r[s.len() as int] == (key, value));
        if 0 <= i < s.len() {
            assert(r[i] == s[i]);
        }
    } else {
        let front = s.drop_last();
        let inner = order::insert_stable(front, key, value);
        lemma_stable_holds(front, key, value, i);
        let m = choose|m: int| 0 <= m < inner.len() && inner[m] == (key, value);
        assert(r[m] == (key, value));
        if 0 <= i < front.len() {
            let n = choose|n: int| 0 <= n < inner.len() && inner[n] == front[i];
            assert(r[n] == s[i]);
        } else if i == front.len() {
            assert(r[r.len() - 1] == s[i]);
        }
    }
}

proof fn lemma_all_by_occurrence(replacements: Seq<&Event>, i: int)
    requires
        0 <= i < replacements.len(),
        replacements[i]@.occurrence is Some,
    ensures
        by_occurrence(replacements).contains(
            (total_of(replacements[i]@.occurrence->0), replacements[i]),
        ),
    decreases replacements.len(),
{
    let front = replacements.drop_last();
    let before = by_occurrence(front);
    let entry = (total_of(replacements[i]@.occurrence->0), replacements[i]);
    if i < front.len() {
        lemma_all_by_occurrence(front, i);
        let m = choose|m: int| 0 <= m < before.len() && before[m] == entry;
        if let Some(at) = replacements.last()@.occurrence {
            lemma_stable_holds(before, total_of(at), replacements.last(), m);
        }
    } else {
        lemma_stable_holds(before, entry.0, entry.1, -1);
    }
}

proof fn lemma_replaced_part(
    ordered: Seq<(int, &Event)>,
    uid: Text,
    days: Text,
    fallback: Instant,
    zone: Option<Text>,
    i: int,
) -> (k: int)
    requires
        0 <= i < ordered.len(),
        ordered[i].1@.occurrence is Some,
        ordered[i].1@.start is Some,
    ensures
        0 <= k < replaced_parts(ordered, uid, days, fallback, zone).len(),
        stands_in(
            replaced_parts(ordered, uid, days, fallback, zone)[k],
            ordered[i].1@,
            uid,
            days,
            fallback,
            zone,
        ),
    decreases ordered.len(),
{
    let front = ordered.drop_last();
    let before = replaced_parts(front, uid, days, fallback, zone);
    let parts = replaced_parts(ordered, uid, days, fallback, zone);
    if i < front.len() {
        let k = lemma_replaced_part(front, uid, days, fallback, zone, i);
        assert(parts[k] == before[k]);
        k
    } else {
        assert(parts.last().once.drop_last() == vevent_of(
            ordered[i].1@,
            uid,
            days,
            fallback,
            zone,
        )->0.once);
        parts.len() - 1
    }
}

/// Whether a VEVENT shows an event in place of an occurrence: it is the VEVENT of that event
/// with one line more, the RECURRENCE-ID of the occurrence.
pub open spec fn stands_in(
    part: PartView,
    event: EventView,
    uid: Text,
    days: Text,
    fallback: Instant,
    zone: Option<Text>,
) -> bool {
    &&& event.occurrence is Some
    &&& part.once.len() > 0
    &&& part.once.last().key == "RECURRENCE-ID"@
    &&& ical::date_under(
        "RECURRENCE-ID"@,
        Some(wired(model::classified_date(event.occurrence->0, days), zone)),
    ) == Some(part.once.last())
    &&& vevent_of(event, uid, days, fallback, zone) == Some(
        PartView { once: part.once.drop_last(), ..part },
    )
}

/// The resource of a series holds every object that replaces an occurrence: a VEVENT with
/// the UID of the series that shows the object, with the occurrence as its RECURRENCE-ID.
/// Its first VEVENT is that of the series, with the rule as its last line and an EXDATE for
/// every occurrence that is left out.
pub proof fn law_a_series_shows_what_replaces_it(
    master: EventView,
    replacements: Seq<&Event>,
    days: Text,
    clock: Text,
    fallback: Instant,
)
    requires
        master.start is Some,
        master.rrule is Some,
    ensures
        ({
            let parts = series_parts(master, replacements, days, clock, fallback)->0;
            let own = vevent_of(master, master.uid(), days, fallback, Some(clock))->0;
            &&& series_parts(master, replacements, days, clock, fallback) is Some
            &&& parts.len() > 0
            &&& parts[0].once == own.once.push(
                ical::line_of("RRULE"@, text::trimmed(master.rrule->0), Seq::empty()),
            )
            &&& parts[0].alarms == own.alarms
            &&& parts[0].many.len() == own.many.len() + master.exdates.len()
            &&& forall|i: int| 0 <= i < own.many.len() ==> parts[0].many[i] == own.many[i]
            &&& forall|i: int|
                0 <= i < master.exdates.len() ==> {
                    let line = parts[0].many[own.many.len() + i];
                    let at = ical::date_text(
                        wired(#[trigger] model::classified_date(master.exdates[i], days), Some(clock)),
                    );
                    line.key == "EXDATE"@ && line.value == at.0 && line.params == at.1
                }
            &&& forall|i: int|
                0 <= i < replacements.len() && (#[trigger] replacements[i])@.start is Some
                    && replacements[i]@.occurrence is Some ==> exists|k: int|
                    0 < k < parts.len() && stands_in(
                        #[trigger] parts[k],
                        replacements[i]@,
                        master.uid(),
                        days,
                        fallback,
                        Some(clock),
                    )
        }),
{
    let zone = Some(clock);
    let parts = series_parts(master, replacements, days, clock, fallback)->0;
    let ordered = by_occurrence(replacements);
    let rest = replaced_parts(ordered, master.uid(), days, fallback, zone);
    assert forall|i: int|
        0 <= i < replacements.len() && (#[trigger] replacements[i])@.start is Some
            && replacements[i]@.occurrence is Some implies exists|k: int|
        0 < k < parts.len() && stands_in(
            #[trigger] parts[k],
            replacements[i]@,
            master.uid(),
            days,
            fallback,
            Some(clock),
        ) by {
        lemma_all_by_occurrence(replacements, i);
        let entry = (total_of(replacements[i]@.occurrence->0), replacements[i]);
        let m = choose|m: int| 0 <= m < ordered.len() && ordered[m] == entry;
        let k = lemma_replaced_part(ordered, master.uid(), days, fallback, zone, m);
        assert(parts[k + 1] == rest[k]);
    }
}

/// Every event that points at a series with an occurrence replaces it there, and nothing else
/// does.
pub proof fn law_what_replaces_an_occurrence(events: Seq<Event>, master: Text, i: int)
    ensures
        0 <= i < events.len() && events[i]@.series == Some(master) && events[i]@.occurrence is Some
            ==> replacements_in(events, master).contains(&events[i]),
        0 <= i < replacements_in(events, master).len() ==> replacements_in(
            events,
            master,
        )[i]@.series == Some(master) && events.contains(*replacements_in(events, master)[i]),
    decreases events.len(),
{
    if events.len() > 0 {
        let front = events.drop_last();
        let before = replacements_in(front, master);
        let r = replacements_in(events, master);
        law_what_replaces_an_occurrence(front, master, i);
        assert(events[events.len() - 1] == events.last());
        if 0 <= i < front.len() && before.contains(&front[i]) {
            let m = choose|m: int| 0 <= m < before.len() && before[m] == &front[i];
            assert(r[m] == &events[i]);
        }
        if i == front.len() && stands_for(events.last()@, master) {
            assert(r[r.len() - 1] == &events[i]);
        }
        if 0 <= i < r.len() {
            if i < before.len() {
                assert(r[i] == before[i]);
                let n = choose|n: int| 0 <= n < front.len() && front[n] == *before[i];
                assert(events[n] == *r[i]);
            } else {
                assert(events.contains(events.last()));
            }
        }
    }
}

/// An event reminds by each of its leads: it has an alarm for each, which goes off as many
/// whole minutes before the event as the lead has.
pub proof fn law_each_lead_gives_an_alarm(
    event: EventView,
    uid: Text,
    days: Text,
    fallback: Instant,
    zone: Option<Text>,
    i: int,
)
    requires
        event.start is Some,
        0 <= i < leads_of(event.reminder_names).len(),
        leads_of(event.reminder_names)[i].0 >= 0,
    ensures
        vevent_of(event, uid, days, fallback, zone) matches Some(part) && i < part.alarms.len()
            && exists|minutes: nat, n: int|
            0 <= n < part.alarms[i].len() && (#[trigger] part.alarms[i][n]).key == "TRIGGER"@
                && part.alarms[i][n].value == "-PT"@ + #[trigger] text::decimal(minutes) + "M"@
                && minutes * 60 <= leads_of(event.reminder_names)[i].0 < minutes * 60 + 60,
{
    let part = vevent_of(event, uid, days, fallback, zone)->0;
    let lead = leads_of(event.reminder_names)[i].0;
    let minutes: nat = (lead / 60) as nat;
    assert(part.alarms[i][2].key == "TRIGGER"@);
    assert(part.alarms[i][2].value == "-PT"@ + text::decimal(minutes) + "M"@);
}

/// Of the occurrences that a rule gives, those that are excluded or replaced are left out,
/// and every other one is kept: a moment as it is, and a whole day as its first moment.
pub proof fn law_what_is_left_of_the_occurrences(
    found: Seq<int>,
    zone: Text,
    all_day: bool,
    skipped: Seq<(int, int)>,
    i: int,
)
    requires
        occurrences_kept(found, zone, all_day, skipped),
        forall|n: int|
            0 <= n < found.len() ==> time::FIRST_SECOND <= #[trigger] found[n] <= time::LAST_SECOND
                && writeback::in_four_digit_years(occurrence_moment(found[n], zone, all_day)),
    ensures
        0 <= i < found.len() && !skipped.contains(
            (occurrence_moment(found[i], zone, all_day), 0),
        ) ==> exists|k: int|
            0 <= k < left_of(found, zone, all_day, skipped).len() && (#[trigger] left_of(
                found,
                zone,
                all_day,
                skipped,
            )[k]).second == occurrence_moment(found[i], zone, all_day),
        0 <= i < left_of(found, zone, all_day, skipped).len() ==> !skipped.contains(
            (left_of(found, zone, all_day, skipped)[i].second, 0),
        ) && exists|n: int|
            0 <= n < found.len() && left_of(found, zone, all_day, skipped)[i].second
                == occurrence_moment(#[trigger] found[n], zone, all_day),
        !all_day ==> occurrence_moment(found[i], zone, all_day) == found[i],
        all_day ==> (time::first_moment(
            zone,
            time::day_of(time::local_at(zone, found[i])) * 86_400,
        ) matches Some(first) ==> occurrence_moment(found[i], zone, all_day) == first),
    decreases found.len(),
{
    if found.len() > 0 {
        let front = found.drop_last();
        let before = left_of(front, zone, all_day, skipped);
        let r = left_of(found, zone, all_day, skipped);
        assert forall|n: int| 0 <= n < front.len() implies occurrence_kept(
            #[trigger] front[n],
            zone,
            all_day,
            skipped,
        ) && time::FIRST_SECOND <= front[n] <= time::LAST_SECOND && writeback::in_four_digit_years(
            occurrence_moment(front[n], zone, all_day),
        ) by {
            assert(front[n] == found[n]);
        }
        law_what_is_left_of_the_occurrences(front, zone, all_day, skipped, i);
        assert(found[found.len() - 1] == found.last());
        let at = occurrence_moment(found.last(), zone, all_day);
        assert(occurrence_kept(found[found.len() - 1], zone, all_day, skipped));
        event_changes::lemma_stored_is_trimmed(at);
        if 0 <= i < front.len() {
            assert(front[i] == found[i]);
            if !skipped.contains((occurrence_moment(found[i], zone, all_day), 0)) {
                let k = choose|k: int|
                    0 <= k < before.len() && (#[trigger] before[k]).second == occurrence_moment(
                        found[i],
                        zone,
                        all_day,
                    );
                assert(r[k] == before[k]);
            }
        } else if i == front.len() && !skipped.contains((at, 0)) {
            assert(r[before.len() as int].second == at);
        }
        if 0 <= i < r.len() {
            if i < before.len() {
                assert(r[i] == before[i]);
                let n = choose|n: int|
                    0 <= n < front.len() && before[i].second == occurrence_moment(
                        #[trigger] front[n],
                        zone,
                        all_day,
                    );
                assert(found[n] == front[n]);
            } else {
                assert(found[found.len() - 1] == found.last());
            }
        }
    }
}

/// An event is announced at its start: at its moment, or at the hour for whole days on its
/// day, by the clocks of the calendar's zone. Without a start it is not announced.
pub proof fn law_when_an_event_is_announced(
    start: DateView,
    config: CalendarConfig,
    all_day_time: int,
)
    ensures
        announced(None, config, all_day_time) is None,
        model::classified_date(start, config.date_only_timezone@) matches When::At(second, nano)
            ==> announced(Some(start), config, all_day_time) == Some((second, nano)),
        model::classified_date(start, config.date_only_timezone@) matches When::Day(day) ==> (
        announced(Some(start), config, all_day_time) matches Some((second, nano)) ==> nano == 0
            && time::first_moment(config.timezone@, day * 86_400 + all_day_time) == Some(second)),
        model::classified_date(start, config.date_only_timezone@) matches When::Day(day) ==> (
        time::first_moment(config.timezone@, day * 86_400 + all_day_time) is Some ==> announced(
            Some(start),
            config,
            all_day_time,
        ) is Some),
{
}

/// A later change is a later revision, as far as the number can tell.
pub proof fn law_a_later_change_is_a_later_revision(a: int, b: int)
    requires
        a <= b,
    ensures
        revision(a) <= revision(b),
        0 <= a < b <= 4_294_967_295 ==> revision(a) < revision(b),
        0 <= revision(a) <= 4_294_967_295,
{
}

/// What is served is stamped with the last change of its object, and with the time of the
/// reading only where that is not known.
pub proof fn law_a_stamp_is_the_last_change(event: EventView, fallback: Instant)
    ensures
        event.last_modified matches Some(at) ==> modified_at(event, fallback) == at.second(),
        event.last_modified is None ==> modified_at(event, fallback) == fallback.second(),
{
}

/// Every name that is a length of time gives a lead of that length, and nothing else does.
pub proof fn law_every_named_lead_counts(names: Seq<Text>, i: int)
    ensures
        0 <= i < names.len() && time::span_text(text::trimmed(names[i])) is Some ==> leads_of(
            names,
        ).contains(time::span_text(text::trimmed(names[i]))->0),
        0 <= i < leads_of(names).len() ==> exists|k: int|
            0 <= k < names.len() && time::span_text(text::trimmed(#[trigger] names[k])) == Some(
                leads_of(names)[i],
            ),
    decreases names.len(),
{
    if names.len() > 0 {
        let front = names.drop_last();
        let before = leads_of(front);
        let r = leads_of(names);
        law_every_named_lead_counts(front, i);
        assert(names[names.len() - 1] == names.last());
        if 0 <= i < front.len() && time::span_text(text::trimmed(names[i])) is Some {
            let m = choose|m: int|
                0 <= m < before.len() && before[m] == time::span_text(text::trimmed(front[i]))->0;
            assert(r[m] == time::span_text(text::trimmed(names[i]))->0);
        }
        if i == front.len() && time::span_text(text::trimmed(names[i])) is Some {
            assert(r[r.len() - 1] == time::span_text(text::trimmed(names[i]))->0);
        }
        if 0 <= i < r.len() && i < before.len() {
            assert(r[i] == before[i]);
            let k = choose|k: int|
                0 <= k < front.len() && time::span_text(text::trimmed(#[trigger] front[k]))
                    == Some(before[i]);
            assert(names[k] == front[k]);
        }
    }
}

} // verus!
