//! Recurring tasks and events: a `recurring_task` or `recurring_event` object holds
//! the rule, and ordinary tasks or events stand for its occurrences. Events are
//! generated the way tasks are; a meeting made for an occurrence is an event of its
//! own, with its own document, created from the event template named as the series,
//! or from the event type's only template.
//!
//! The generator keeps one invariant per series: a task exists for the first
//! occurrence whose day is after today. So the task for next Saturday appears on this
//! Saturday, the day of the previous occurrence, whether or not this Saturday's task
//! is done. Today's occurrence is made too when it has no instance, so a series that
//! starts today shows today. Occurrences missed while the service was down are not
//! created afterwards; only today's and the next one are.
//!
//! An instance is matched to an occurrence by the *day* of its `occurrence` property,
//! not the moment, so a date-only anchor and a timed one compare the same way and a
//! hand-made instance at a slightly different hour still counts.
use vstd::prelude::*;

use crate::model;
use crate::model::{AnytypeDate, DateView};
use crate::object;
use crate::object::{Icon, Object, Property, PropertyValue, Setting, SettingView};
use crate::recurrence;
use crate::text;
use crate::text::Text;
use crate::time;
use crate::time::{Day, Instant, Span, Zone};

verus! {

pub const SERIES_TYPE: &'static str = "recurring_task";

pub const TASK_TYPE: &'static str = "task";

pub const EVENT_SERIES_TYPE: &'static str = "recurring_event";

pub const EVENT_TYPE: &'static str = "event";

/// What a series makes.
#[derive(Debug, Clone, Copy, PartialEq, Eq, Structural)]
pub enum Kind {
    Task,
    Event,
}

impl Kind {
    pub fn series_type(self) -> (r: &'static str)
        ensures
            r@ == (match self {
                Kind::Task => SERIES_TYPE@,
                Kind::Event => EVENT_SERIES_TYPE@,
            }),
    {
        match self {
            Kind::Task => SERIES_TYPE,
            Kind::Event => EVENT_SERIES_TYPE,
        }
    }

    pub fn instance_type(self) -> (r: &'static str)
        ensures
            r@ == (match self {
                Kind::Task => TASK_TYPE@,
                Kind::Event => EVENT_TYPE@,
            }),
    {
        match self {
            Kind::Task => TASK_TYPE,
            Kind::Event => EVENT_TYPE,
        }
    }
}

/// Occurrences before a rule is declared unusable. A daily rule reaches ten years in
/// 3650 steps, so this only trips on a rule that never passes today.
pub const MAX_STEPS: usize = 10_000;

/// A series object, as far as the generator needs it.
#[derive(Debug, Clone)]
pub struct Series {
    pub id: String,
    pub name: String,
    pub rrule: Option<String>,
    pub anchor: Option<AnytypeDate>,
    pub priority: Option<String>,
    pub tags: Vec<String>,
    pub reminder_leads: Vec<String>,
    /// An event series' end on its first day; the length of every meeting.
    pub end: Option<AnytypeDate>,
    pub address: Option<String>,
    /// Given to every event the series makes.
    pub icon: Option<Icon>,
    /// Every property the object has, for `carried`.
    pub extra: Vec<Property>,
}

/// Keys the generator sets from its own fields, and those the space keeps for itself:
/// `carried` leaves them alone.
pub open spec fn own_key(key: Text) -> bool {
    ||| key == "name"@
    ||| key == "rrule"@
    ||| key == "start_date"@
    ||| key == "end_date"@
    ||| key == "address"@
    ||| key == "tag"@
    ||| key == "reminder_lead"@
    ||| key == "series"@
    ||| key == "occurrence"@
    ||| key == "ical_uid"@
    ||| key == "exdate"@
    ||| key == "backlinks"@
    ||| key == "links"@
    ||| key == "mentions"@
    ||| key == "creator"@
    ||| key == "created_date"@
    ||| key == "added_date"@
    ||| key == "last_modified_date"@
    ||| key == "last_modified_by"@
    ||| key == "last_opened_date"@
}

fn is_own_key(key: &str) -> (r: bool)
    ensures
        r == own_key(key@),
{
    text::same(key, "name") || text::same(key, "rrule") || text::same(key, "start_date")
        || text::same(key, "end_date") || text::same(key, "address") || text::same(key, "tag")
        || text::same(key, "reminder_lead") || text::same(key, "series") || text::same(
        key,
        "occurrence",
    ) || text::same(key, "ical_uid") || text::same(key, "exdate") || text::same(key, "backlinks")
        || text::same(key, "links") || text::same(key, "mentions") || text::same(key, "creator")
        || text::same(key, "created_date") || text::same(key, "added_date") || text::same(
        key,
        "last_modified_date",
    ) || text::same(key, "last_modified_by") || text::same(key, "last_opened_date")
}

/// A property that a series hands to an event it makes.
#[derive(Debug, PartialEq)]
pub enum Carried<'a> {
    /// As the series has it.
    Same(&'a Property),
    /// A date, moved with the occurrence.
    Moved { key: &'a String, date: String },
}

#[verifier::ext_equal]
pub enum CarriedView {
    Same(Property),
    Moved { key: Text, date: Text },
}

impl<'a> View for Carried<'a> {
    type V = CarriedView;

    open spec fn view(&self) -> CarriedView {
        match self {
            Carried::Same(property) => CarriedView::Same(**property),
            Carried::Moved { key, date } => CarriedView::Moved { key: key@, date: date@ },
        }
    }
}

pub open spec fn carried_views(v: Seq<Carried>) -> Seq<CarriedView> {
    Seq::new(v.len(), |i: int| v[i]@)
}

/// The moment so many nanoseconds after 1970 as text, where it is within reach.
pub open spec fn text_at(total: int) -> Option<Text> {
    let second = total / 1_000_000_000;
    if time::FIRST_SECOND <= second <= time::LAST_SECOND {
        Some(time::rfc3339_text(second, total % 1_000_000_000))
    } else {
        None
    }
}

/// What becomes of one property: a date moves with the occurrence, and an empty value
/// is not handed on.
pub open spec fn carried_value(property: Property, shift: Option<int>) -> Option<CarriedView> {
    match property.value {
        PropertyValue::Date { date } => match (model::date_of(date@), shift) {
            (Some(at), Some(by)) => match text_at(at.second * 1_000_000_000 + at.nano + by) {
                Some(moved) => Some(CarriedView::Moved { key: property.key@, date: moved }),
                None => None,
            },
            _ => None,
        },
        PropertyValue::Text { text } => if text::trimmed(text@).len() == 0 {
            None
        } else {
            Some(CarriedView::Same(property))
        },
        PropertyValue::MultiSelect { multi_select } => if multi_select@.len() == 0 {
            None
        } else {
            Some(CarriedView::Same(property))
        },
        PropertyValue::Objects { objects } => if objects@.len() == 0 {
            None
        } else {
            Some(CarriedView::Same(property))
        },
        PropertyValue::Files { files } => if files@.len() == 0 {
            None
        } else {
            Some(CarriedView::Same(property))
        },
        _ => Some(CarriedView::Same(property)),
    }
}

/// How far an occurrence lies behind the series' first one.
pub open spec fn shift_of(series: Series, occurrence: Instant) -> Option<int> {
    match series.anchor {
        Some(anchor) => Some(occurrence.total() - anchor.parsed.total()),
        None => None,
    }
}

/// What is handed on of some properties.
pub open spec fn carried_of(
    extra: Seq<Property>,
    event_keys: Seq<Text>,
    shift: Option<int>,
) -> Seq<CarriedView>
    decreases extra.len(),
{
    if extra.len() == 0 {
        Seq::empty()
    } else {
        let before = carried_of(extra.drop_last(), event_keys, shift);
        let one = extra.last();
        if event_keys.contains(one.key@) && !own_key(one.key@) {
            match carried_value(one, shift) {
                Some(value) => before.push(value),
                None => before,
            }
        } else {
            before
        }
    }
}

fn moved_date(date: &str, shift: Option<i128>) -> (r: Option<String>)
    requires
        shift matches Some(by) ==> -17_000_000_000_000_000_000_000 <= by
            <= 17_000_000_000_000_000_000_000,
    ensures
        text::text_of(r) == (match (model::date_of(date@), shift) {
            (Some(at), Some(by)) => text_at(at.second * 1_000_000_000 + at.nano + by),
            _ => None,
        }),
{
    match (AnytypeDate::parse(date), shift) {
        (Some(at), Some(by)) => match time::instant_at(at.parsed.in_nanos() + by) {
            Some(moved) => Some(time::rfc3339_of(moved)),
            None => None,
        },
        _ => None,
    }
}

fn carry<'a>(property: &'a Property, shift: Option<i128>) -> (r: Option<Carried<'a>>)
    requires
        shift matches Some(by) ==> -17_000_000_000_000_000_000_000 <= by
            <= 17_000_000_000_000_000_000_000,
    ensures
        match r {
            Some(one) => carried_value(
                *property,
                match shift {
                    Some(by) => Some(by as int),
                    None => None,
                },
            ) == Some(one@),
            None => carried_value(
                *property,
                match shift {
                    Some(by) => Some(by as int),
                    None => None,
                },
            ) is None,
        },
{
    let empty = match &property.value {
        PropertyValue::Date { date } => {
            return match moved_date(date.as_str(), shift) {
                Some(date) => Some(Carried::Moved { key: &property.key, date }),
                None => None,
            };
        },
        PropertyValue::Text { text } => text::trim(text.as_str()).is_empty(),
        PropertyValue::MultiSelect { multi_select } => multi_select.len() == 0,
        PropertyValue::Objects { objects } => objects.len() == 0,
        PropertyValue::Files { files } => files.len() == 0,
        _ => false,
    };
    if empty {
        None
    } else {
        Some(Carried::Same(property))
    }
}

/// What an event series hands to every event it makes beyond the fields the generator
/// sets itself: each property that the event type also has and that holds a value. A
/// date moves with the occurrence, so a deadline two days before the first meeting is
/// two days before every one. The space refuses a property the type lacks, and with it
/// the whole event, so those are left out.
pub fn carried<'a>(series: &'a Series, event_keys: &Vec<String>, occurrence: Instant) -> (r: Vec<
    Carried<'a>,
>)
    ensures
        carried_views(r@) == carried_of(
            series.extra@,
            text::texts(event_keys@),
            shift_of(*series, occurrence),
        ),
{
    let shift: Option<i128> = match &series.anchor {
        Some(anchor) => Some(occurrence.in_nanos() - anchor.parsed.in_nanos()),
        None => None,
    };
    let ghost by = shift_of(*series, occurrence);
    let ghost all = series.extra@;
    let mut r: Vec<Carried<'a>> = Vec::new();
    let mut i: usize = 0;
    assert(carried_views(r@) == carried_of(all.take(0), text::texts(event_keys@), by));
    while i < series.extra.len()
        invariant
            i <= series.extra@.len(),
            all == series.extra@,
            by == (match shift {
                Some(by) => Some(by as int),
                None => None,
            }),
            shift matches Some(n) ==> -17_000_000_000_000_000_000_000 <= n
                <= 17_000_000_000_000_000_000_000,
            carried_views(r@) == carried_of(all.take(i as int), text::texts(event_keys@), by),
        decreases series.extra@.len() - i,
    {
        assert(all.take(i + 1).drop_last() == all.take(i as int));
        assert(all.take(i + 1).last() == all[i as int]);
        let one = &series.extra[i];
        let ghost before = r@;
        if text::listed(event_keys, one.key.as_str()) && !is_own_key(one.key.as_str()) {
            if let Some(value) = carry(one, shift) {
                r.push(value);
                assert(carried_views(r@) == carried_views(before).push(value@));
            }
        }
        i += 1;
    }
    assert(all.take(all.len() as int) == all);
    r
}

/// A property that the event type lacks, or that the generator sets itself, is never
/// handed on.
pub proof fn law_only_shared_properties_are_carried(
    extra: Seq<Property>,
    event_keys: Seq<Text>,
    shift: Option<int>,
    i: int,
)
    requires
        0 <= i < carried_of(extra, event_keys, shift).len(),
    ensures
        ({
            let key = match carried_of(extra, event_keys, shift)[i] {
                CarriedView::Same(property) => property.key@,
                CarriedView::Moved { key, date } => key,
            };
            event_keys.contains(key) && !own_key(key)
        }),
    decreases extra.len(),
{
    if i < carried_of(extra.drop_last(), event_keys, shift).len() {
        law_only_shared_properties_are_carried(extra.drop_last(), event_keys, shift, i);
    }
}

/// The name of the event made for one occurrence: the series' name and the day, so
/// that meetings of one series can be told apart in lists and links.
pub fn event_name(series: &Series, day: Day) -> (r: String)
    ensures
        r@ == text::trimmed(series.name@) + " "@ + time::dotted_day(day.nth()),
{
    let mut r = text::trim(series.name.as_str()).to_owned();
    r.append(" ");
    r.append(day.dotted().as_str());
    r
}

/// The end of an occurrence as long as the series' first one.
pub open spec fn end_of(series: Series, occurrence: Instant) -> Option<Text> {
    match (series.anchor, series.end) {
        (Some(start), Some(end)) => {
            let length = end.parsed.total() - start.parsed.total();
            if length > 0 {
                text_at(occurrence.total() + length)
            } else {
                None
            }
        },
        _ => None,
    }
}

/// The end of the event made for an occurrence, as long as the series' first one.
/// `None` when the series has no end after its start.
pub fn event_end(series: &Series, occurrence: Instant) -> (r: Option<String>)
    ensures
        text::text_of(r) == end_of(*series, occurrence),
{
    match (&series.anchor, &series.end) {
        (Some(start), Some(end)) => {
            let length: i128 = end.parsed.in_nanos() - start.parsed.in_nanos();
            if length > 0 {
                match time::instant_at(occurrence.in_nanos() + length) {
                    Some(at) => Some(time::rfc3339_of(at)),
                    None => None,
                }
            } else {
                None
            }
        },
        _ => None,
    }
}

/// An icon as it can be given to a new object. The API reads an image icon back as
/// the file's download URL, and takes only the file's id.
pub fn reusable_icon(icon: Icon) -> (r: Icon)
    ensures
        match icon {
            Icon::File { file } => r matches Icon::File { file: id } && id@ == text::split(
                file@,
                '/',
            ).last(),
            other => r == other,
        },
{
    match icon {
        Icon::File { file } => {
            let parts = text::split_at_each(file.as_str(), '/');
            proof {
                lemma_split_is_not_empty(file@, '/');
            }
            let n = parts.len();
            assert(text::texts(parts@).len() == n);
            Icon::File { file: parts[n - 1].clone() }
        },
        other => other,
    }
}

proof fn lemma_split_is_not_empty(s: Text, c: char)
    ensures
        text::split(s, c).len() > 0,
{
    reveal_with_fuel(text::split, 1);
}

/// A task or event that belongs to a series.
#[derive(Debug, Clone)]
pub struct Instance {
    /// The object's own id: which one satisfied an occurrence.
    pub object_id: String,
    pub series_id: String,
    pub occurrence: Option<AnytypeDate>,
}

/// A task the generator wants to exist.
#[derive(Debug, Clone)]
pub struct Planned<'a> {
    pub series: &'a Series,
    /// RFC 3339, UTC, in the same shape the space stores: a date-only anchor yields
    /// local midnight, e.g. `2026-10-12T20:00:00Z` for 13 Oct.
    pub occurrence: String,
    pub day: Day,
}

#[verifier::ext_equal]
pub struct PlannedView {
    pub series: Series,
    pub occurrence: Text,
    pub day: int,
}

impl<'a> View for Planned<'a> {
    type V = PlannedView;

    open spec fn view(&self) -> PlannedView {
        PlannedView {
            series: *self.series,
            occurrence: self.occurrence@,
            day: self.day.nth(),
        }
    }
}

pub open spec fn planned_views(v: Seq<Planned>) -> Seq<PlannedView> {
    Seq::new(v.len(), |i: int| v[i]@)
}

// ------------------------------------------------------------------ occurrences

/// What has been found of the occurrences of a rule: their seconds and days, or the
/// day whose midnight does not exist; and whether enough has been found.
#[verifier::ext_equal]
pub struct Found {
    pub list: Result<Seq<(int, int)>, int>,
    pub enough: bool,
}

/// Whether one of them lies after a day.
pub open spec fn some_after(list: Seq<(int, int)>, today: int) -> bool {
    exists|i: int| 0 <= i < list.len() && (#[trigger] list[i]).1 > today
}

/// What is found among these starts of occurrences: those whose day is `today` or
/// later, until one is past `until` and one after `today` is there. A whole day is
/// stored as its first moment, so that a change of the clocks cannot shift it off the
/// day boundary.
pub open spec fn found_among(
    starts: Seq<int>,
    zone: Text,
    all_day: bool,
    today: int,
    until: int,
) -> Found
    decreases starts.len(),
{
    if starts.len() == 0 {
        Found { list: Ok(Seq::empty()), enough: false }
    } else {
        let before = found_among(starts.drop_last(), zone, all_day, today, until);
        let second = starts.last();
        let day = time::day_of(time::local_at(zone, second));
        match before.list {
            Err(_) => before,
            Ok(list) => if before.enough || !(time::FIRST_SECOND <= second
                <= time::LAST_SECOND) {
                before
            } else if day > until && some_after(list, today) {
                Found { enough: true, ..before }
            } else if day < today {
                before
            } else if all_day {
                match time::first_moment(zone, day * 86_400) {
                    Some(first) => Found { list: Ok(list.push((first, day))), enough: false },
                    None => Found { list: Err(day), enough: false },
                }
            } else {
                Found { list: Ok(list.push((second, day))), enough: false }
            },
        }
    }
}

pub open spec fn found_view(v: Seq<(Instant, Day)>) -> Seq<(int, int)> {
    Seq::new(v.len(), |i: int| (v[i].0.second(), v[i].1.nth()))
}

fn any_after(list: &Vec<(Instant, Day)>, today: Day) -> (r: bool)
    ensures
        r == some_after(found_view(list@), today.nth()),
{
    let mut i: usize = 0;
    while i < list.len()
        invariant
            i <= list@.len(),
            forall|j: int| 0 <= j < i ==> (#[trigger] found_view(list@)[j]).1 <= today.nth(),
        decreases list@.len() - i,
    {
        if list[i].1.number() > today.number() {
            assert(found_view(list@)[i as int].1 > today.nth());
            return true;
        }
        i += 1;
    }
    false
}

/// The occurrences to come among the first ones of a rule, or the day whose midnight
/// does not exist.
pub fn upcoming_among(
    starts: &Vec<i64>,
    tz: &Zone,
    all_day: bool,
    today: Day,
    until: Day,
) -> (r: Result<Vec<(Instant, Day)>, Day>)
    ensures
        match found_among(
            recurrence::seconds(starts@),
            tz@,
            all_day,
            today.nth(),
            until.nth(),
        ).list {
            Ok(list) => r is Ok && found_view(r->Ok_0@) == list && forall|i: int|
                0 <= i < r->Ok_0@.len() ==> (#[trigger] r->Ok_0@[i]).0.nano() == 0,
            Err(day) => r is Err && r->Err_0.nth() == day,
        },
{
    let ghost all = recurrence::seconds(starts@);
    let mut list: Vec<(Instant, Day)> = Vec::new();
    let mut i: usize = 0;
    let mut enough = false;
    assert(found_view(list@) == Seq::<(int, int)>::empty());
    while i < starts.len()
        invariant
            i <= starts@.len(),
            all == recurrence::seconds(starts@),
            found_among(all.take(i as int), tz@, all_day, today.nth(), until.nth()) == (Found {
                list: Ok(found_view(list@)),
                enough,
            }),
            forall|k: int| 0 <= k < list@.len() ==> (#[trigger] list@[k]).0.nano() == 0,
        decreases starts@.len() - i,
    {
        assert(all.take(i + 1).drop_last() == all.take(i as int));
        assert(all.take(i + 1).last() == starts@[i as int]);
        let ghost before = list@;
        if !enough {
            if let Some(occurrence) = Instant::new(starts[i], 0) {
                let (day, _) = tz.show(occurrence);
                if day.number() > until.number() && any_after(&list, today) {
                    enough = true;
                } else if day.number() >= today.number() {
                    let at = if all_day {
                        match tz.earliest_of(day, 0) {
                            Some(first) => first,
                            None => {
                                proof {
                                    lemma_found_failed(
                                        all,
                                        i + 1,
                                        tz@,
                                        all_day,
                                        today.nth(),
                                        until.nth(),
                                    );
                                }
                                return Err(day);
                            },
                        }
                    } else {
                        occurrence
                    };
                    list.push((at, day));
                    assert(found_view(list@) == found_view(before).push(
                        (at.second(), day.nth()),
                    ));
                }
            }
        }
        i += 1;
    }
    assert(all.take(all.len() as int) == all);
    Ok(list)
}

proof fn lemma_found_failed(
    starts: Seq<int>,
    n: int,
    zone: Text,
    all_day: bool,
    today: int,
    until: int,
)
    requires
        0 <= n <= starts.len(),
        found_among(starts.take(n), zone, all_day, today, until).list is Err,
    ensures
        found_among(starts, zone, all_day, today, until).list == found_among(
            starts.take(n),
            zone,
            all_day,
            today,
            until,
        ).list,
    decreases starts.len() - n,
{
    if n < starts.len() {
        assert(starts.take(n + 1).drop_last() == starts.take(n));
        lemma_found_failed(starts, n + 1, zone, all_day, today, until);
    } else {
        assert(starts.take(n) == starts);
    }
}

/// What is said of a day whose midnight does not exist.
pub open spec fn no_midnight(day: int, zone: Text) -> Text {
    "midnight of "@ + time::dashed_day(day) + " does not exist in "@ + zone
}

/// Occurrences by their seconds and days, or why there are none.
pub open spec fn upcoming_view(r: Result<Vec<(Instant, Day)>, String>) -> Result<
    Seq<(int, int)>,
    Text,
> {
    match r {
        Ok(list) => Ok(found_view(list@)),
        Err(why) => Err(why@),
    }
}

/// What the occurrences to come of a rule are that starts at these seconds, or that
/// cannot be read.
pub open spec fn upcoming_from(
    starts: Option<Seq<int>>,
    rule: Text,
    anchor: DateView,
    zone: Text,
    today: int,
    until: int,
    r: Result<Seq<(int, int)>, Text>,
) -> bool {
    match starts {
        None => r is Err,
        Some(starts) => match found_among(
            starts,
            zone,
            recurrence::start_of(model::classified_date(anchor, zone), zone).1,
            today,
            until,
        ).list {
            Ok(list) => r == Ok::<Seq<(int, int)>, Text>(list),
            Err(day) => r == Err::<Seq<(int, int)>, Text>(
                recurrence::complaint(rule, no_midnight(day, zone)),
            ),
        },
    }
}

/// What the occurrences to come of a rule are. Where the rule stands on one line, it
/// decides the seconds at which it starts; otherwise they are some. A rule in which a day
/// is cut in the middle of a character has none.
pub open spec fn upcoming_is(
    rule: Text,
    anchor: DateView,
    zone: Text,
    today: int,
    until: int,
    r: Result<Seq<(int, int)>, Text>,
) -> bool {
    exists|starts: Option<Seq<int>>|
        {
            &&& recurrence::one_line(text::trimmed(rule)) ==> starts
                == recurrence::anchored_starts(rule, anchor, zone, MAX_STEPS as int)
            &&& !recurrence::days_cut(text::trimmed(rule)) ==> starts is None
            &&& #[trigger] upcoming_from(starts, rule, anchor, zone, today, until, r)
        }
}

/// The occurrences whose local day is `today` or later and no later than `until`, and
/// always the first one after `today` even when it falls later. Today's is there so
/// that a series starting today makes today's instance; one already made is matched
/// and skipped. Empty means the rule has ended.
pub fn upcoming(rule: &str, anchor: &AnytypeDate, tz: &Zone, today: Day, until: Day) -> (r: Result<
    Vec<(Instant, Day)>,
    String,
>)
    ensures
        upcoming_is(rule@, anchor@, tz@, today.nth(), until.nth(), upcoming_view(r)),
        r is Ok ==> forall|i: int| 0 <= i < r->Ok_0@.len() ==> (#[trigger] r->Ok_0@[i]).0.nano() == 0,
{
    let (_, all_day) = recurrence::rule_start(anchor, tz);
    let starts = match recurrence::first_of_rule(rule, anchor, tz, MAX_STEPS) {
        Ok(starts) => starts,
        Err(why) => {
            let r = Err(why);
            assert(upcoming_from(
                None,
                rule@,
                anchor@,
                tz@,
                today.nth(),
                until.nth(),
                upcoming_view(r),
            ));
            return r;
        },
    };
    let r = match upcoming_among(&starts, tz, all_day, today, until) {
        Ok(list) => Ok(list),
        Err(day) => {
            let mut why = "midnight of ".to_owned();
            why.append(day.dashed().as_str());
            why.append(" does not exist in ");
            why.append(tz.name());
            Err(recurrence::complain(rule, why.as_str()))
        },
    };
    assert(upcoming_from(
        Some(recurrence::seconds(starts@)),
        rule@,
        anchor@,
        tz@,
        today.nth(),
        until.nth(),
        upcoming_view(r),
    ));
    r
}

/// The first of some occurrences after a day.
pub open spec fn first_after(list: Seq<(int, int)>, today: int) -> Option<(int, int)>
    decreases list.len(),
{
    if list.len() == 0 {
        None
    } else if list[0].1 > today {
        Some(list[0])
    } else {
        first_after(list.drop_first(), today)
    }
}

/// The first occurrence of `rule`, anchored at `anchor`, whose local day in `tz` is
/// after `today`. `Ok(None)` means the rule has ended.
pub fn next_after(rule: &str, anchor: &AnytypeDate, tz: &Zone, today: Day) -> (r: Result<
    Option<(Instant, Day)>,
    String,
>)
    ensures
        exists|found: Result<Seq<(int, int)>, Text>|
            #[trigger] upcoming_is(rule@, anchor@, tz@, today.nth(), today.nth(), found) && (
            match found {
                Err(why) => r is Err && r->Err_0@ == why,
                Ok(list) => r is Ok && (match r->Ok_0 {
                    Some((at, day)) => first_after(list, today.nth()) == Some(
                        (at.second(), day.nth()),
                    ),
                    None => first_after(list, today.nth()) is None,
                }),
            }),
{
    let found = upcoming(rule, anchor, tz, today, today);
    let ghost seen = upcoming_view(found);
    assert(upcoming_is(rule@, anchor@, tz@, today.nth(), today.nth(), seen));
    match found {
        Err(why) => Err(why),
        Ok(list) => {
            let ghost all = found_view(list@);
            let mut i: usize = 0;
            assert(all.skip(0) == all);
            while i < list.len()
                invariant
                    i <= list@.len(),
                    all == found_view(list@),
                    seen == Ok::<Seq<(int, int)>, Text>(all),
                    upcoming_is(rule@, anchor@, tz@, today.nth(), today.nth(), seen),
                    first_after(all, today.nth()) == first_after(all.skip(i as int), today.nth()),
                decreases list@.len() - i,
            {
                assert(all.skip(i as int).drop_first() == all.skip(i + 1));
                assert(all.skip(i as int)[0] == (list@[i as int].0.second(), list@[i as int].1.nth()));
                if list[i].1.number() > today.number() {
                    return Ok(Some((list[i].0, list[i].1)));
                }
                i += 1;
            }
            Ok(None)
        },
    }
}

/// Nothing before today is found, and an occurrence past `until` only where no earlier
/// one lies after today.
pub proof fn law_only_today_and_what_comes(
    starts: Seq<int>,
    zone: Text,
    all_day: bool,
    today: int,
    until: int,
)
    ensures
        found_among(starts, zone, all_day, today, until).list matches Ok(list) ==> (forall|i: int|
            0 <= i < list.len() ==> (#[trigger] list[i]).1 >= today) && (forall|i: int, j: int|
            0 <= j < i < list.len() && (#[trigger] list[i]).1 > until ==> (#[trigger] list[j]).1
                <= today),
    decreases starts.len(),
{
    if starts.len() > 0 {
        law_only_today_and_what_comes(starts.drop_last(), zone, all_day, today, until);
    }
}

// ------------------------------------------------------------------ planning

/// Whether an instance stands for the occurrence of a series on a day.
pub open spec fn satisfies(instance: Instance, series: Text, zone: Text, day: int) -> bool {
    instance.series_id@ == series && instance.occurrence is Some && time::day_of(
        time::local_at(zone, instance.occurrence->0.parsed.second()),
    ) == day
}

pub open spec fn has_instance(instances: Seq<Instance>, series: Text, zone: Text, day: int) -> bool {
    exists|i: int| 0 <= i < instances.len() && satisfies(#[trigger] instances[i], series, zone, day)
}

fn instance_exists(instances: &Vec<Instance>, series: &str, tz: &Zone, day: Day) -> (r: bool)
    ensures
        r == has_instance(instances@, series@, tz@, day.nth()),
{
    let mut i: usize = 0;
    while i < instances.len()
        invariant
            i <= instances@.len(),
            forall|j: int|
                0 <= j < i ==> !satisfies(#[trigger] instances@[j], series@, tz@, day.nth()),
        decreases instances@.len() - i,
    {
        if text::same(instances[i].series_id.as_str(), series) {
            if let Some(date) = &instances[i].occurrence {
                let (shown, _) = tz.show(date.parsed);
                if shown.number() == day.number() {
                    assert(satisfies(instances@[i as int], series@, tz@, day.nth()));
                    return true;
                }
            }
        }
        i += 1;
    }
    false
}

/// What is planned for these occurrences: those without an instance.
pub open spec fn missing(
    series: Series,
    wanted: Seq<(int, int)>,
    instances: Seq<Instance>,
    zone: Text,
) -> Seq<PlannedView>
    decreases wanted.len(),
{
    if wanted.len() == 0 {
        Seq::empty()
    } else {
        let before = missing(series, wanted.drop_last(), instances, zone);
        let (second, day) = wanted.last();
        if has_instance(instances, series.id@, zone, day) {
            before
        } else {
            before.push(PlannedView { series, occurrence: time::rfc3339_text(second, 0), day })
        }
    }
}

/// What is wanted of one series: its occurrences to come, or why there are none; `None`
/// where it has no rule or no start.
pub open spec fn wanted_is(
    series: Series,
    zone: Text,
    today: int,
    until: int,
    wanted: Option<Result<Seq<(int, int)>, Text>>,
) -> bool {
    match (series.rrule, series.anchor) {
        (Some(rule), Some(anchor)) => wanted is Some && upcoming_is(
            rule@,
            anchor@,
            zone,
            today,
            until,
            wanted->0,
        ),
        _ => wanted is None,
    }
}

/// What is planned for all series, and what is said of those that cannot be used.
pub open spec fn plan_of(
    series: Seq<Series>,
    wanted: Seq<Option<Result<Seq<(int, int)>, Text>>>,
    instances: Seq<Instance>,
    zone: Text,
) -> (Seq<PlannedView>, Seq<Text>)
    decreases series.len(),
{
    if series.len() == 0 || wanted.len() != series.len() {
        (Seq::empty(), Seq::empty())
    } else {
        let before = plan_of(series.drop_last(), wanted.drop_last(), instances, zone);
        let one = series.last();
        match wanted.last() {
            None => (
                before.0,
                before.1.push(
                    recurrence::complaint(
                        one.name@,
                        "no rule or no start date, nothing to generate"@,
                    ),
                ),
            ),
            Some(Err(why)) => (
                before.0,
                before.1.push(recurrence::complaint(one.name@, "bad rule "@ + why)),
            ),
            Some(Ok(list)) => (before.0 + missing(one, list, instances, zone), before.1),
        }
    }
}

/// The part of a plan that concerns one series, where its occurrences to come are
/// known.
pub fn plan_one<'a>(
    planned: &mut Vec<Planned<'a>>,
    one: &'a Series,
    wanted: &Vec<(Instant, Day)>,
    instances: &Vec<Instance>,
    tz: &Zone,
)
    requires
        forall|i: int| 0 <= i < wanted@.len() ==> (#[trigger] wanted@[i]).0.nano() == 0,
    ensures
        planned_views(final(planned)@) == planned_views(old(planned)@) + missing(
            *one,
            found_view(wanted@),
            instances@,
            tz@,
        ),
{
    let ghost start = planned_views(planned@);
    let ghost all = found_view(wanted@);
    let mut i: usize = 0;
    assert(start + missing(*one, all.take(0), instances@, tz@) == start);
    while i < wanted.len()
        invariant
            i <= wanted@.len(),
            all == found_view(wanted@),
            forall|i: int| 0 <= i < wanted@.len() ==> (#[trigger] wanted@[i]).0.nano() == 0,
            planned_views(planned@) == start + missing(
                *one,
                all.take(i as int),
                instances@,
                tz@,
            ),
        decreases wanted@.len() - i,
    {
        assert(all.take(i + 1).drop_last() == all.take(i as int));
        assert(all.take(i + 1).last() == (wanted@[i as int].0.second(), wanted@[i as int].1.nth()));
        let (at, day) = (wanted[i].0, wanted[i].1);
        let ghost before = planned@;
        if !instance_exists(instances, one.id.as_str(), tz, day) {
            let next = Planned { series: one, occurrence: time::rfc3339_of(at), day };
            planned.push(next);
            assert(planned_views(planned@) == planned_views(before).push(next@));
        }
        i += 1;
    }
    assert(all.take(all.len() as int) == all);
}

/// Decides which tasks or events are missing, for every occurrence from today to
/// `until` and at least the next one. Problems with one series are reported and never
/// stop the others.
pub fn plan_until<'a>(
    series: &'a Vec<Series>,
    instances: &Vec<Instance>,
    tz: &Zone,
    today: Day,
    until: Day,
) -> (r: (Vec<Planned<'a>>, Vec<String>))
    ensures
        exists|wanted: Seq<Option<Result<Seq<(int, int)>, Text>>>|
            wanted.len() == series@.len() && (forall|i: int|
                0 <= i < series@.len() ==> wanted_is(
                    series@[i],
                    tz@,
                    today.nth(),
                    until.nth(),
                    #[trigger] wanted[i],
                )) && (planned_views(r.0@), text::texts(r.1@)) == #[trigger] plan_of(
                series@,
                wanted,
                instances@,
                tz@,
            ),
{
    let mut planned: Vec<Planned<'a>> = Vec::new();
    let mut warnings: Vec<String> = Vec::new();
    let ghost mut wanted: Seq<Option<Result<Seq<(int, int)>, Text>>> = Seq::empty();
    let mut i: usize = 0;
    assert(planned_views(planned@) == Seq::<PlannedView>::empty());
    assert(text::texts(warnings@) == Seq::<Text>::empty());
    while i < series.len()
        invariant
            i <= series@.len(),
            wanted.len() == i,
            forall|k: int|
                0 <= k < i ==> wanted_is(
                    series@[k],
                    tz@,
                    today.nth(),
                    until.nth(),
                    #[trigger] wanted[k],
                ),
            (planned_views(planned@), text::texts(warnings@)) == plan_of(
                series@.take(i as int),
                wanted,
                instances@,
                tz@,
            ),
        decreases series@.len() - i,
    {
        let one = &series[i];
        let ghost said = warnings@;
        let ghost so_far = wanted;
        assert(series@.take(i + 1).drop_last() == series@.take(i as int));
        assert(series@.take(i + 1).last() == *one);
        match (&one.rrule, &one.anchor) {
            (Some(rule), Some(anchor)) => {
                let found = upcoming(rule.as_str(), anchor, tz, today, until);
                proof {
                    wanted = so_far.push(Some(upcoming_view(found)));
                    assert(wanted.drop_last() == so_far);
                }
                match found {
                    Ok(list) => {
                        plan_one(&mut planned, one, &list, instances, tz);
                    },
                    Err(why) => {
                        let words = text::glue("bad rule ", why.as_str());
                        let warning = recurrence::complain(one.name.as_str(), words.as_str());
                        warnings.push(warning);
                        assert(text::texts(warnings@) == text::texts(said).push(warning@));
                    },
                }
            },
            _ => {
                proof {
                    wanted = so_far.push(None);
                    assert(wanted.drop_last() == so_far);
                }
                let warning = recurrence::complain(
                    one.name.as_str(),
                    "no rule or no start date, nothing to generate",
                );
                warnings.push(warning);
                assert(text::texts(warnings@) == text::texts(said).push(warning@));
            },
        }
        i += 1;
    }
    proof {
        assert(series@.take(series@.len() as int) == series@);
        assert((planned_views(planned@), text::texts(warnings@)) == plan_of(
            series@,
            wanted,
            instances@,
            tz@,
        ));
    }
    (planned, warnings)
}

/// Decides which tasks are missing for the next occurrence alone.
pub fn plan<'a>(series: &'a Vec<Series>, instances: &Vec<Instance>, tz: &Zone, today: Day) -> (r: (
    Vec<Planned<'a>>,
    Vec<String>,
))
    ensures
        exists|wanted: Seq<Option<Result<Seq<(int, int)>, Text>>>|
            wanted.len() == series@.len() && (forall|i: int|
                0 <= i < series@.len() ==> wanted_is(
                    series@[i],
                    tz@,
                    today.nth(),
                    today.nth(),
                    #[trigger] wanted[i],
                )) && (planned_views(r.0@), text::texts(r.1@)) == #[trigger] plan_of(
                series@,
                wanted,
                instances@,
                tz@,
            ),
{
    plan_until(series, instances, tz, today, today)
}

/// An occurrence that has an instance is never planned again.
pub proof fn law_nothing_is_planned_twice(
    series: Series,
    wanted: Seq<(int, int)>,
    instances: Seq<Instance>,
    zone: Text,
    i: int,
)
    requires
        0 <= i < missing(series, wanted, instances, zone).len(),
    ensures
        !has_instance(
            instances,
            series.id@,
            zone,
            missing(series, wanted, instances, zone)[i].day,
        ),
    decreases wanted.len(),
{
    let before = missing(series, wanted.drop_last(), instances, zone);
    if i < before.len() {
        law_nothing_is_planned_twice(series, wanted.drop_last(), instances, zone, i);
    }
}

/// Every occurrence to come that has no instance is planned.
pub proof fn law_every_missing_occurrence_is_planned(
    series: Series,
    wanted: Seq<(int, int)>,
    instances: Seq<Instance>,
    zone: Text,
    k: int,
)
    requires
        0 <= k < wanted.len(),
        !has_instance(instances, series.id@, zone, wanted[k].1),
    ensures
        exists|i: int|
            0 <= i < missing(series, wanted, instances, zone).len() && (#[trigger] missing(
                series,
                wanted,
                instances,
                zone,
            )[i]).day == wanted[k].1,
    decreases wanted.len(),
{
    let before = missing(series, wanted.drop_last(), instances, zone);
    let after = missing(series, wanted, instances, zone);
    if k < wanted.len() - 1 {
        law_every_missing_occurrence_is_planned(series, wanted.drop_last(), instances, zone, k);
        let i = choose|i: int| 0 <= i < before.len() && (#[trigger] before[i]).day == wanted[k].1;
        assert(after[i] == before[i]);
    } else {
        assert(after[before.len() as int].day == wanted[k].1);
    }
}

/// The last day for which occurrences are made: so many whole days after today.
pub fn last_day(today: Day, horizon: &Span) -> (r: Option<Day>)
    ensures
        (r is Some) == (today.nth() + horizon.second() / 86_400 <= time::LAST_DAY),
        r is Some ==> r->0.nth() == today.nth() + horizon.second() / 86_400,
{
    let ahead: i64 = (horizon.seconds() / 86_400) as i64;
    Day::new(today.number() + ahead)
}

// ------------------------------------------------------------------ objects

/// The series that an object stands for.
pub open spec fn series_is(object: Object, r: Series) -> bool {
    let p = object.properties@;
    &&& r.id@ == object.id@
    &&& r.name@ == (match object.name {
        Some(name) => name@,
        None => Seq::<char>::empty(),
    })
    &&& text::text_of(r.rrule) == object::text_in(p, "rrule"@)
    &&& model::date_view(r.anchor) == object::date_in(p, "start_date"@)
    &&& text::text_of(r.priority) == (match object::value_of(p, "priority"@) {
        Some(PropertyValue::Select { select }) => Some(select.id@),
        _ => None,
    })
    &&& text::texts(r.tags@) == object::ids_in(p, "tag"@)
    &&& text::texts(r.reminder_leads@) == object::ids_in(p, "reminder_lead"@)
    &&& model::date_view(r.end) == object::date_in(p, "end_date"@)
    &&& text::text_of(r.address) == object::text_in(p, "address"@)
    &&& r.extra == object.properties
    &&& match object.icon {
        Some(Icon::File { file }) => r.icon matches Some(Icon::File { file: id }) && id@
            == text::split(file@, '/').last(),
        other => r.icon == other,
    }
}

pub fn to_series(object: Object) -> (r: Series)
    ensures
        series_is(object, r),
{
    let rrule = object::text(&object, "rrule");
    let anchor = object::date(&object, "start_date");
    let priority = match object.get_property("priority") {
        Some(PropertyValue::Select { select }) => Some(select.id.clone()),
        _ => None,
    };
    let tags = object::tag_ids(&object, "tag");
    let reminder_leads = object::tag_ids(&object, "reminder_lead");
    let end = object::date(&object, "end_date");
    let address = object::text(&object, "address");
    let name = match object.name {
        Some(name) => name,
        None => String::new(),
    };
    let icon = match object.icon {
        Some(icon) => Some(reusable_icon(icon)),
        None => None,
    };
    Series {
        id: object.id,
        name,
        rrule,
        anchor,
        priority,
        tags,
        reminder_leads,
        end,
        address,
        icon,
        extra: object.properties,
    }
}

/// The instances that an object stands for: one for each series it links to.
pub fn instances_of(object: &Object) -> (r: Vec<Instance>)
    ensures
        r@.len() == object::links_in(object.properties@, "series"@).len(),
        forall|i: int|
            0 <= i < r@.len() ==> (#[trigger] r@[i]).object_id@ == object.id@
                && r@[i].series_id@ == object::links_in(object.properties@, "series"@)[i]
                && model::date_view(r@[i].occurrence) == object::date_in(
                object.properties@,
                "occurrence"@,
            ),
{
    let links = object::links(object, "series");
    let ghost wanted = object::links_in(object.properties@, "series"@);
    let mut r: Vec<Instance> = Vec::new();
    let mut i: usize = 0;
    assert(wanted.len() == links@.len());
    while i < links.len()
        invariant
            i <= links@.len(),
            wanted == text::texts(links@),
            r@.len() == i,
            forall|k: int|
                0 <= k < i ==> (#[trigger] r@[k]).object_id@ == object.id@ && r@[k].series_id@
                    == wanted[k] && model::date_view(r@[k].occurrence) == object::date_in(
                    object.properties@,
                    "occurrence"@,
                ),
        decreases links@.len() - i,
    {
        r.push(
            Instance {
                object_id: object.id.clone(),
                series_id: links[i].clone(),
                occurrence: object::date(object, "occurrence"),
            },
        );
        i += 1;
    }
    r
}

/// A template as far as it is chosen by.
#[derive(Debug)]
pub struct Template {
    pub id: String,
    pub name: Option<String>,
}

/// The first template with a name, without white space around it.
pub open spec fn template_named(templates: Seq<Template>, name: Text) -> Option<Text>
    decreases templates.len(),
{
    if templates.len() == 0 {
        None
    } else {
        let first = templates[0];
        if first.name is Some && text::trimmed(first.name->0@) == name {
            Some(first.id@)
        } else {
            template_named(templates.drop_first(), name)
        }
    }
}

/// The event template named as the series, or else the event type's only template.
/// The API does not say which template is a type's default, so a type with several
/// and none named as the series gets none.
pub fn template_for(templates: &Vec<Template>, name: &str) -> (r: Option<String>)
    ensures
        text::text_of(r) == (match template_named(templates@, text::trimmed(name@)) {
            Some(id) => Some(id),
            None => if templates@.len() == 1 {
                Some(templates@[0].id@)
            } else {
                None
            },
        }),
{
    let wanted = text::trim(name);
    let ghost all = templates@;
    let mut i: usize = 0;
    assert(all.skip(0) == all);
    while i < templates.len()
        invariant
            i <= all.len(),
            all == templates@,
            wanted@ == text::trimmed(name@),
            template_named(all, wanted@) == template_named(all.skip(i as int), wanted@),
        decreases all.len() - i,
    {
        assert(all.skip(i as int).drop_first() == all.skip(i + 1));
        if let Some(shown) = &templates[i].name {
            if text::same(text::trim(shown.as_str()), wanted) {
                return Some(templates[i].id.clone());
            }
        }
        i += 1;
    }
    if templates.len() == 1 {
        Some(templates[0].id.clone())
    } else {
        None
    }
}

/// What every object made for an occurrence gets: its series, its occurrence, and
/// where it stands in the calendar.
pub open spec fn placed_settings(planned: PlannedView, key: Text) -> Seq<SettingView> {
    Seq::<SettingView>::empty().push(
        SettingView::Objects { key: "series"@, objects: seq![planned.series.id@] },
    ).push(SettingView::Date { key: "occurrence"@, date: Some(planned.occurrence) }).push(
        SettingView::Date { key, date: Some(planned.occurrence) },
    )
}

/// Options behind other settings, unless there are none.
pub open spec fn with_ids(list: Seq<SettingView>, key: Text, ids: Seq<Text>) -> Seq<SettingView> {
    if ids.len() > 0 {
        list.push(SettingView::MultiSelect { key, ids })
    } else {
        list
    }
}

fn place(planned: &Planned, key: &str) -> (r: Vec<Setting>)
    ensures
        object::settings(r@) == placed_settings(planned@, key@),
{
    let mut r: Vec<Setting> = Vec::new();
    assert(object::settings(r@) == Seq::<SettingView>::empty());
    let mut objects: Vec<String> = Vec::new();
    objects.push(planned.series.id.clone());
    assert(text::texts(objects@) == seq![planned.series.id@]);
    object::put_setting(&mut r, Setting::Objects { key: "series".to_owned(), objects });
    object::put_setting(
        &mut r,
        Setting::Date { key: "occurrence".to_owned(), date: Some(planned.occurrence.clone()) },
    );
    object::put_setting(
        &mut r,
        Setting::Date { key: key.to_owned(), date: Some(planned.occurrence.clone()) },
    );
    r
}

fn put_ids(list: &mut Vec<Setting>, key: &str, ids: &Vec<String>)
    ensures
        object::settings(final(list)@) == with_ids(
            object::settings(old(list)@),
            key@,
            text::texts(ids@),
        ),
{
    if ids.len() > 0 {
        object::put_setting(
            list,
            Setting::MultiSelect { key: key.to_owned(), ids: text::copy_list(ids) },
        );
    }
}

/// The properties of a task made for an occurrence.
pub open spec fn task_settings(planned: PlannedView) -> Seq<SettingView> {
    let placed = placed_settings(planned, "scheduled"@);
    let ranked = match planned.series.priority {
        Some(priority) => placed.push(
            SettingView::Select { key: "priority"@, id: priority@ },
        ),
        None => placed,
    };
    with_ids(
        with_ids(ranked, "tag"@, text::texts(planned.series.tags@)),
        "reminder_lead"@,
        text::texts(planned.series.reminder_leads@),
    )
}

/// The task for one occurrence: what the series carries.
pub fn task_properties(planned: &Planned) -> (r: Vec<Setting>)
    ensures
        object::settings(r@) == task_settings(planned@),
{
    let mut r = place(planned, "scheduled");
    if let Some(priority) = &planned.series.priority {
        object::put_setting(
            &mut r,
            Setting::Select { key: "priority".to_owned(), id: priority.clone() },
        );
    }
    put_ids(&mut r, "tag", &planned.series.tags);
    put_ids(&mut r, "reminder_lead", &planned.series.reminder_leads);
    r
}

/// The properties of an event made for an occurrence, beyond those it carries.
pub open spec fn event_settings(planned: PlannedView, at: Instant) -> Seq<SettingView> {
    let placed = placed_settings(planned, "start_date"@);
    let ended = match end_of(planned.series, at) {
        Some(end) => placed.push(SettingView::Date { key: "end_date"@, date: Some(end) }),
        None => placed,
    };
    let located = match planned.series.address {
        Some(address) => ended.push(SettingView::Text { key: "address"@, text: address@ }),
        None => ended,
    };
    with_ids(
        with_ids(located, "tag"@, text::texts(planned.series.tags@)),
        "reminder_lead"@,
        text::texts(planned.series.reminder_leads@),
    )
}

/// The event for one occurrence: its place, tags and reminders, and the length of the
/// series' first meeting. `at` is the moment of the occurrence.
pub fn event_properties(planned: &Planned, at: Instant) -> (r: Vec<Setting>)
    ensures
        object::settings(r@) == event_settings(planned@, at),
{
    let mut r = place(planned, "start_date");
    if let Some(end) = event_end(planned.series, at) {
        object::put_setting(
            &mut r,
            Setting::Date { key: "end_date".to_owned(), date: Some(end) },
        );
    }
    if let Some(address) = &planned.series.address {
        object::put_setting(
            &mut r,
            Setting::Text { key: "address".to_owned(), text: address.clone() },
        );
    }
    put_ids(&mut r, "tag", &planned.series.tags);
    put_ids(&mut r, "reminder_lead", &planned.series.reminder_leads);
    r
}

// ------------------------------------------------------------------ one pass

/// What a pass asks for next. Each object is claimed before it is created: the claim
/// covers the gap in which a just-created object is not yet visible to search, and it
/// keeps one that was deleted by hand from coming back.
#[derive(Debug, Clone, Copy, PartialEq, Eq, Structural)]
pub enum Step {
    /// Claim the occurrence at this place of the plan.
    Claim(usize),
    /// Create the object at this place of the plan.
    Create(usize),
    /// Release the claim, so that the next pass tries again.
    Release(usize),
    /// Nothing is left to do.
    Done,
}

/// What came of a step.
#[derive(Debug, Clone, Copy, PartialEq, Eq, Structural)]
pub enum Outcome {
    /// The occurrence is claimed now.
    Claimed,
    /// It had been claimed before.
    AlreadyClaimed,
    Created,
    CreateFailed,
    Released,
}

/// How far a pass has come.
#[derive(Debug, Clone, Copy, PartialEq, Eq, Structural)]
pub struct Pass {
    pub planned: usize,
    pub step: Step,
    pub created: usize,
    pub already: usize,
    pub failed: usize,
}

/// The step for a place of the plan.
pub open spec fn step_at(place: int, planned: int) -> Step {
    if place < planned {
        Step::Claim(place as usize)
    } else {
        Step::Done
    }
}

impl Pass {
    /// The numbers count the places that are behind.
    pub open spec fn counts(self) -> bool {
        match self.step {
            Step::Claim(at) => at < self.planned && self.created + self.already + self.failed
                == at,
            Step::Create(at) => at < self.planned && self.created + self.already + self.failed
                == at,
            Step::Release(at) => at < self.planned && self.failed > 0 && self.created
                + self.already + self.failed == at + 1,
            Step::Done => self.created + self.already + self.failed == self.planned,
        }
    }

    /// What an outcome leads to.
    pub open spec fn after(self, outcome: Outcome) -> Pass {
        match (self.step, outcome) {
            (Step::Claim(at), Outcome::Claimed) => Pass { step: Step::Create(at), ..self },
            (Step::Claim(at), Outcome::AlreadyClaimed) => Pass {
                step: step_at(at + 1, self.planned as int),
                already: (self.already + 1) as usize,
                ..self
            },
            (Step::Create(at), Outcome::Created) => Pass {
                step: step_at(at + 1, self.planned as int),
                created: (self.created + 1) as usize,
                ..self
            },
            (Step::Create(at), Outcome::CreateFailed) => Pass {
                step: Step::Release(at),
                failed: (self.failed + 1) as usize,
                ..self
            },
            (Step::Release(at), Outcome::Released) => Pass {
                step: step_at(at + 1, self.planned as int),
                ..self
            },
            _ => self,
        }
    }

    /// A pass over a plan of so many objects.
    pub fn new(planned: usize) -> (r: Pass)
        ensures
            r == (Pass {
                planned,
                step: step_at(0, planned as int),
                created: 0,
                already: 0,
                failed: 0,
            }),
            r.counts(),
    {
        Pass {
            planned,
            step: if 0 < planned {
                Step::Claim(0)
            } else {
                Step::Done
            },
            created: 0,
            already: 0,
            failed: 0,
        }
    }

    /// Takes in what came of the step; an outcome that the step cannot have changes
    /// nothing.
    pub fn take(&mut self, outcome: Outcome)
        requires
            old(self).counts(),
        ensures
            *final(self) == old(self).after(outcome),
            final(self).counts(),
    {
        match (self.step, outcome) {
            (Step::Claim(at), Outcome::Claimed) => {
                self.step = Step::Create(at);
            },
            (Step::Claim(at), Outcome::AlreadyClaimed) => {
                self.already = self.already + 1;
                self.step = self.next_place(at);
            },
            (Step::Create(at), Outcome::Created) => {
                self.created = self.created + 1;
                self.step = self.next_place(at);
            },
            (Step::Create(at), Outcome::CreateFailed) => {
                self.failed = self.failed + 1;
                self.step = Step::Release(at);
            },
            (Step::Release(at), Outcome::Released) => {
                self.step = self.next_place(at);
            },
            _ => {},
        }
    }

    fn next_place(&self, at: usize) -> (r: Step)
        requires
            at < self.planned,
        ensures
            r == step_at(at + 1, self.planned as int),
    {
        if at + 1 < self.planned {
            Step::Claim(at + 1)
        } else {
            Step::Done
        }
    }
}

/// Nothing is created that was not claimed right before.
pub proof fn law_created_only_after_a_claim(pass: Pass, outcome: Outcome, at: usize)
    requires
        pass.counts(),
        pass.after(outcome).step == Step::Create(at),
        pass.step != Step::Create(at),
    ensures
        pass.step == Step::Claim(at),
        outcome == Outcome::Claimed,
{
}

/// A claim whose object could not be created is released before anything else.
pub proof fn law_a_failed_create_is_released(pass: Pass, at: usize)
    requires
        pass.counts(),
        pass.step == Step::Create(at),
    ensures
        pass.after(Outcome::CreateFailed).step == Step::Release(at),
{
}

/// Whether a warning is news; it is remembered, so that a series without a date does
/// not repeat itself with every pass.
pub fn is_news(reported: &mut Vec<String>, warning: &str) -> (r: bool)
    ensures
        r == !text::texts(old(reported)@).contains(warning@),
        text::texts(final(reported)@) == (if r {
            text::texts(old(reported)@).push(warning@)
        } else {
            text::texts(old(reported)@)
        }),
{
    let ghost before = reported@;
    if text::listed(reported, warning) {
        false
    } else {
        reported.push(warning.to_owned());
        assert(text::texts(reported@) == text::texts(before).push(warning@));
        true
    }
}

// ---------------------------------------------------------- what is made of a series

/// The key of a setting.
pub open spec fn key_of(setting: SettingView) -> Text {
    match setting {
        SettingView::Date { key, .. } => key,
        SettingView::Text { key, .. } => key,
        SettingView::Options { key, .. } => key,
        SettingView::Objects { key, .. } => key,
        SettingView::Checkbox { key, .. } => key,
        SettingView::Select { key, .. } => key,
        SettingView::MultiSelect { key, .. } => key,
    }
}

/// Whether no key is set twice.
pub open spec fn keys_once(list: Seq<SettingView>) -> bool {
    forall|i: int, j: int|
        0 <= i < j < list.len() ==> key_of(#[trigger] list[i]) != key_of(#[trigger] list[j])
}

/// Whether a setting is one that an object made for an occurrence has from its series: it
/// holds under its key what the series holds under that key, or says which series and which
/// occurrence it was made for. `at` is the key of its place in the calendar.
pub open spec fn from_series(
    setting: SettingView,
    object: Object,
    planned: PlannedView,
    at: Text,
) -> bool {
    let p = object.properties@;
    match setting {
        SettingView::MultiSelect { key, ids } => (key == "tag"@ || key == "reminder_lead"@)
            && ids.len() > 0 && ids == object::ids_in(p, key),
        SettingView::Select { key, id } => key == "priority"@ && (match object::value_of(p, key) {
            Some(PropertyValue::Select { select }) => select.id@ == id,
            _ => false,
        }),
        SettingView::Text { key, text } => key == "address"@ && object::text_in(p, key) == Some(
            text,
        ),
        SettingView::Objects { key, objects } => key == "series"@ && objects == seq![object.id@],
        SettingView::Date { key, date } => key == "occurrence"@ && date == Some(planned.occurrence)
            || key == at && date == Some(planned.occurrence) || key == "end_date"@,
        _ => false,
    }
}

proof fn lemma_keys()
    ensures
        "series"@.len() == 6,
        "occurrence"@.len() == 10,
        "scheduled"@.len() == 9,
        "priority"@.len() == 8,
        "tag"@.len() == 3,
        "reminder_lead"@.len() == 13,
        "start_date"@.len() == 10,
        "end_date"@.len() == 8,
        "address"@.len() == 7,
        "start_date"@ != "occurrence"@,
        "priority"@ != "end_date"@,
{
    reveal_strlit("series");
    reveal_strlit("occurrence");
    reveal_strlit("scheduled");
    reveal_strlit("priority");
    reveal_strlit("tag");
    reveal_strlit("reminder_lead");
    reveal_strlit("start_date");
    reveal_strlit("end_date");
    reveal_strlit("address");
    assert("start_date"@[0] != "occurrence"@[0]);
    assert("priority"@[0] != "end_date"@[0]);
}

/// A task made for an occurrence holds what its series holds, under the same keys: the tags
/// and the reminders of the series, neither more nor fewer, and its priority. It is linked
/// to the series, stands for the occurrence, and is planned for its moment. No key is set
/// twice, and nothing stands under another key.
pub proof fn law_a_task_holds_what_its_series_holds(object: Object, planned: PlannedView)
    requires
        series_is(object, planned.series),
    ensures
        keys_once(task_settings(planned)),
        forall|i: int|
            0 <= i < task_settings(planned).len() ==> from_series(
                #[trigger] task_settings(planned)[i],
                object,
                planned,
                "scheduled"@,
            ) && key_of(task_settings(planned)[i]) != "end_date"@ && key_of(
                task_settings(planned)[i],
            ) != "address"@,
        task_settings(planned).contains(
            SettingView::Objects { key: "series"@, objects: seq![object.id@] },
        ),
        task_settings(planned).contains(
            SettingView::Date { key: "occurrence"@, date: Some(planned.occurrence) },
        ),
        task_settings(planned).contains(
            SettingView::Date { key: "scheduled"@, date: Some(planned.occurrence) },
        ),
        forall|key: Text|
            (key == "tag"@ || key == "reminder_lead"@) && (#[trigger] object::ids_in(
                object.properties@,
                key,
            )).len() > 0 ==> task_settings(planned).contains(
                SettingView::MultiSelect { key, ids: object::ids_in(object.properties@, key) },
            ),
        object::value_of(object.properties@, "priority"@) matches Some(
            PropertyValue::Select { select },
        ) ==> task_settings(planned).contains(
            SettingView::Select { key: "priority"@, id: select.id@ },
        ),
{
    lemma_keys();
    let list = task_settings(planned);
    let placed = placed_settings(planned, "scheduled"@);
    assert(list[0] == placed[0] && list[1] == placed[1] && list[2] == placed[2]);
    assert forall|key: Text|
        (key == "tag"@ || key == "reminder_lead"@) && (#[trigger] object::ids_in(
            object.properties@,
            key,
        )).len() > 0 implies list.contains(
        SettingView::MultiSelect { key, ids: object::ids_in(object.properties@, key) },
    ) by {
        let ranked: int = if planned.series.priority is Some {
            4
        } else {
            3
        };
        let wanted = SettingView::MultiSelect { key, ids: object::ids_in(object.properties@, key) };
        if key == "tag"@ {
            assert(list[ranked] == wanted);
        } else {
            assert(list[list.len() - 1] == wanted);
        }
    }
    if planned.series.priority is Some {
        assert(list[3] == SettingView::Select {
            key: "priority"@,
            id: planned.series.priority->0@,
        });
    }
}

/// An event made for an occurrence holds what its series holds, under the same keys: its
/// tags, its reminders and its place, neither more nor fewer. It is linked to the series,
/// stands for the occurrence and starts at its moment. No key is set twice, and nothing
/// stands under another key.
pub proof fn law_an_event_holds_what_its_series_holds(
    object: Object,
    planned: PlannedView,
    at: Instant,
)
    requires
        series_is(object, planned.series),
    ensures
        keys_once(event_settings(planned, at)),
        forall|i: int|
            0 <= i < event_settings(planned, at).len() ==> from_series(
                #[trigger] event_settings(planned, at)[i],
                object,
                planned,
                "start_date"@,
            ) && key_of(event_settings(planned, at)[i]) != "priority"@,
        event_settings(planned, at).contains(
            SettingView::Objects { key: "series"@, objects: seq![object.id@] },
        ),
        event_settings(planned, at).contains(
            SettingView::Date { key: "occurrence"@, date: Some(planned.occurrence) },
        ),
        event_settings(planned, at).contains(
            SettingView::Date { key: "start_date"@, date: Some(planned.occurrence) },
        ),
        forall|key: Text|
            (key == "tag"@ || key == "reminder_lead"@) && (#[trigger] object::ids_in(
                object.properties@,
                key,
            )).len() > 0 ==> event_settings(planned, at).contains(
                SettingView::MultiSelect { key, ids: object::ids_in(object.properties@, key) },
            ),
        object::text_in(object.properties@, "address"@) matches Some(text) ==> event_settings(
            planned,
            at,
        ).contains(SettingView::Text { key: "address"@, text }),
{
    lemma_keys();
    let list = event_settings(planned, at);
    let placed = placed_settings(planned, "start_date"@);
    assert(list[0] == placed[0] && list[1] == placed[1] && list[2] == placed[2]);
    let ended: int = if end_of(planned.series, at) is Some {
        4
    } else {
        3
    };
    let located: int = if planned.series.address is Some {
        ended + 1
    } else {
        ended
    };
    assert forall|key: Text|
        (key == "tag"@ || key == "reminder_lead"@) && (#[trigger] object::ids_in(
            object.properties@,
            key,
        )).len() > 0 implies list.contains(
        SettingView::MultiSelect { key, ids: object::ids_in(object.properties@, key) },
    ) by {
        let wanted = SettingView::MultiSelect { key, ids: object::ids_in(object.properties@, key) };
        if key == "tag"@ {
            assert(list[located] == wanted);
        } else {
            assert(list[list.len() - 1] == wanted);
        }
    }
    if planned.series.address is Some {
        assert(list[ended] == SettingView::Text {
            key: "address"@,
            text: planned.series.address->0@,
        });
    }
}

/// An event made for an occurrence lasts as long as the first one of its series: its end
/// lies as far behind its start as the end of the series behind the start of the series. It
/// has no end where the series has none behind its start.
pub proof fn law_an_event_is_as_long_as_the_first(
    object: Object,
    planned: PlannedView,
    at: Instant,
    i: int,
)
    requires
        series_is(object, planned.series),
        0 <= i < event_settings(planned, at).len(),
        key_of(event_settings(planned, at)[i]) == "end_date"@,
    ensures
        ({
            let start = object::date_in(object.properties@, "start_date"@);
            let end = object::date_in(object.properties@, "end_date"@);
            &&& start is Some && end is Some
            &&& exists|second: int, nano: int|
                {
                    &&& 0 <= nano < 1_000_000_000
                    &&& event_settings(planned, at)[i] == (SettingView::Date {
                        key: "end_date"@,
                        date: Some(#[trigger] time::rfc3339_text(second, nano)),
                    })
                    &&& (second * 1_000_000_000 + nano) - at.total() == (end->0.second
                        * 1_000_000_000 + end->0.nano) - (start->0.second * 1_000_000_000
                        + start->0.nano)
                    &&& (second * 1_000_000_000 + nano) - at.total() > 0
                }
        }),
{
    lemma_keys();
    let list = event_settings(planned, at);
    let placed = placed_settings(planned, "start_date"@);
    assert(list[0] == placed[0] && list[1] == placed[1] && list[2] == placed[2]);
    let series = planned.series;
    assert(end_of(series, at) is Some);
    assert(list[3] == (SettingView::Date { key: "end_date"@, date: end_of(series, at) }));
    assert(i == 3);
    let total = at.total() + (series.end->0.parsed.total() - series.anchor->0.parsed.total());
    assert(total == total / 1_000_000_000 * 1_000_000_000 + total % 1_000_000_000);
    assert(end_of(series, at) == Some(
        time::rfc3339_text(total / 1_000_000_000, total % 1_000_000_000),
    ));
}

/// An event whose series lasts some time has an end, as far as a moment can be written.
pub proof fn law_an_event_of_a_lasting_series_ends(
    object: Object,
    planned: PlannedView,
    at: Instant,
)
    requires
        series_is(object, planned.series),
        object::date_in(object.properties@, "start_date"@) matches Some(start) && (object::date_in(
            object.properties@,
            "end_date"@,
        ) matches Some(end) && {
            let length = (end.second * 1_000_000_000 + end.nano) - (start.second * 1_000_000_000
                + start.nano);
            length > 0 && time::FIRST_SECOND <= (at.total() + length) / 1_000_000_000
                <= time::LAST_SECOND
        }),
    ensures
        exists|i: int|
            0 <= i < event_settings(planned, at).len() && key_of(
                #[trigger] event_settings(planned, at)[i],
            ) == "end_date"@,
{
    let list = event_settings(planned, at);
    assert(end_of(planned.series, at) is Some);
    assert(list[3] == (SettingView::Date { key: "end_date"@, date: end_of(planned.series, at) }));
}

/// Whether a property holds something that can be handed on as it is.
pub open spec fn holds_something(value: PropertyValue) -> bool {
    match value {
        PropertyValue::Date { .. } => false,
        PropertyValue::Text { text } => text::trimmed(text@).len() > 0,
        PropertyValue::MultiSelect { multi_select } => multi_select@.len() > 0,
        PropertyValue::Objects { objects } => objects@.len() > 0,
        PropertyValue::Files { files } => files@.len() > 0,
        _ => true,
    }
}

/// Every property that the event type shares and that the generator does not set itself is
/// handed on: one that holds something as it is, and a date as far from the occurrence as
/// it is from the start of the series.
pub proof fn law_every_shared_property_is_carried(
    extra: Seq<Property>,
    event_keys: Seq<Text>,
    series: Series,
    occurrence: Instant,
    k: int,
)
    requires
        0 <= k < extra.len(),
        event_keys.contains(extra[k].key@),
        !own_key(extra[k].key@),
    ensures
        ({
            let made = carried_of(extra, event_keys, shift_of(series, occurrence));
            &&& holds_something(extra[k].value) ==> made.contains(CarriedView::Same(extra[k]))
            &&& (extra[k].value matches PropertyValue::Date { date } && model::date_of(
                date@,
            ) is Some && series.anchor is Some) ==> {
                let far = (model::date_of(extra[k].value->date@)->0.second * 1_000_000_000
                    + model::date_of(extra[k].value->date@)->0.nano)
                    - series.anchor->0.parsed.total();
                let second = (occurrence.total() + far) / 1_000_000_000;
                time::FIRST_SECOND <= second <= time::LAST_SECOND ==> made.contains(
                    CarriedView::Moved {
                        key: extra[k].key@,
                        date: time::rfc3339_text(
                            second,
                            (occurrence.total() + far) % 1_000_000_000,
                        ),
                    },
                )
            }
        }),
    decreases extra.len(),
{
    let shift = shift_of(series, occurrence);
    let made = carried_of(extra, event_keys, shift);
    let before = carried_of(extra.drop_last(), event_keys, shift);
    if k < extra.len() - 1 {
        law_every_shared_property_is_carried(
            extra.drop_last(),
            event_keys,
            series,
            occurrence,
            k,
        );
        assert forall|one: CarriedView| before.contains(one) implies #[trigger] made.contains(
            one,
        ) by {
            let i = choose|i: int| 0 <= i < before.len() && before[i] == one;
            assert(made[i] == one);
        }
    } else {
        if carried_value(extra[k], shift) is Some {
            assert(made[made.len() - 1] == carried_value(extra[k], shift)->0);
        }
    }
}

/// The day of a start.
pub open spec fn start_day(starts: Seq<int>, zone: Text, k: int) -> int {
    time::day_of(time::local_at(zone, starts[k]))
}

/// Whether starts come in the order of their days.
pub open spec fn in_order(starts: Seq<int>, zone: Text) -> bool {
    forall|j: int, k: int|
        0 <= j <= k < starts.len() ==> #[trigger] start_day(starts, zone, j)
            <= #[trigger] start_day(starts, zone, k)
}

proof fn lemma_in_order(starts: Seq<int>, zone: Text)
    requires
        in_order(starts, zone),
        starts.len() > 0,
    ensures
        in_order(starts.drop_last(), zone),
{
    assert forall|j: int, k: int| 0 <= j <= k < starts.drop_last().len() implies #[trigger]
    start_day(starts.drop_last(), zone, j) <= #[trigger] start_day(starts.drop_last(), zone, k) by {
        assert(start_day(starts, zone, j) <= start_day(starts, zone, k));
    }
}

/// The search only ends where a start lay past the last day and one after today was found.
proof fn lemma_enough(starts: Seq<int>, zone: Text, all_day: bool, today: int, until: int)
    ensures
        found_among(starts, zone, all_day, today, until).enough ==> (found_among(
            starts,
            zone,
            all_day,
            today,
            until,
        ).list matches Ok(list) && some_after(list, today)) && exists|k: int|
            0 <= k < starts.len() && #[trigger] start_day(starts, zone, k) > until,
    decreases starts.len(),
{
    if starts.len() > 0 {
        let front = starts.drop_last();
        lemma_enough(front, zone, all_day, today, until);
        if found_among(starts, zone, all_day, today, until).enough {
            if found_among(front, zone, all_day, today, until).enough {
                let k = choose|k: int|
                    0 <= k < front.len() && #[trigger] start_day(front, zone, k) > until;
                assert(start_day(starts, zone, k) > until);
            } else {
                assert(start_day(starts, zone, starts.len() - 1) > until);
            }
        }
    }
}

/// Every occurrence from today to the last day is found, on its day, and at its second or at
/// the first moment of the day where it is for the whole day. Beyond the last day the next
/// one after today is found.
pub proof fn law_every_occurrence_in_time_is_found(
    starts: Seq<int>,
    zone: Text,
    all_day: bool,
    today: int,
    until: int,
    k: int,
)
    requires
        0 <= k < starts.len(),
        in_order(starts, zone),
        time::FIRST_SECOND <= starts[k] <= time::LAST_SECOND,
        today <= start_day(starts, zone, k),
        today <= until,
    ensures
        found_among(starts, zone, all_day, today, until).list matches Ok(list) ==> ({
            &&& start_day(starts, zone, k) <= until ==> exists|i: int|
                0 <= i < list.len() && (#[trigger] list[i]).1 == start_day(starts, zone, k) && (
                if all_day {
                    time::first_moment(zone, list[i].1 * 86_400) == Some(list[i].0)
                } else {
                    list[i].0 == starts[k]
                })
            &&& start_day(starts, zone, k) > today ==> some_after(list, today)
        }),
    decreases starts.len(),
{
    let front = starts.drop_last();
    let before = found_among(front, zone, all_day, today, until);
    let now = found_among(starts, zone, all_day, today, until);
    lemma_enough(front, zone, all_day, today, until);
    if now.list is Ok {
        let list = now.list->Ok_0;
        let had = before.list->Ok_0;
        if k < starts.len() - 1 {
            lemma_in_order(starts, zone);
            assert(start_day(front, zone, k) == start_day(starts, zone, k));
            law_every_occurrence_in_time_is_found(front, zone, all_day, today, until, k);
            assert forall|i: int| 0 <= i < had.len() implies list[i] == #[trigger] had[i] by {}
            if start_day(starts, zone, k) <= until {
                let i = choose|i: int|
                    0 <= i < had.len() && (#[trigger] had[i]).1 == start_day(starts, zone, k) && (
                    if all_day {
                        time::first_moment(zone, had[i].1 * 86_400) == Some(had[i].0)
                    } else {
                        had[i].0 == starts[k]
                    });
                assert(list[i] == had[i]);
            }
            if some_after(had, today) {
                let i = choose|i: int| 0 <= i < had.len() && (#[trigger] had[i]).1 > today;
                assert(list[i] == had[i]);
            }
        } else {
            if before.enough {
                let j = choose|j: int|
                    0 <= j < front.len() && #[trigger] start_day(front, zone, j) > until;
                assert(start_day(starts, zone, j) <= start_day(starts, zone, k));
                assert(start_day(starts, zone, j) == start_day(front, zone, j));
            } else if start_day(starts, zone, k) > until && some_after(had, today) {
            } else {
                assert(list == had.push(list[list.len() - 1]));
                assert(list[list.len() - 1].1 == start_day(starts, zone, k));
            }
        }
    }
}

/// The next occurrence is the first after today: it lies after today, and none of those
/// before it does. None is given only where none lies after today.
pub proof fn law_the_next_occurrence_is_the_first_after_today(list: Seq<(int, int)>, today: int)
    ensures
        match first_after(list, today) {
            Some(next) => exists|i: int|
                0 <= i < list.len() && #[trigger] list[i] == next && next.1 > today && forall|
                    j: int,
                |
                    0 <= j < i ==> (#[trigger] list[j]).1 <= today,
            None => !some_after(list, today),
        },
    decreases list.len(),
{
    if list.len() > 0 {
        if list[0].1 <= today {
            let rest = list.drop_first();
            law_the_next_occurrence_is_the_first_after_today(rest, today);
            if first_after(rest, today) is Some {
                let i = choose|i: int|
                    0 <= i < rest.len() && #[trigger] rest[i] == first_after(rest, today)->0
                        && forall|j: int| 0 <= j < i ==> (#[trigger] rest[j]).1 <= today;
                assert(list[i + 1] == rest[i]);
                assert forall|j: int| 0 <= j < i + 1 implies (#[trigger] list[j]).1 <= today by {
                    if j > 0 {
                        assert(rest[j - 1] == list[j]);
                    }
                }
            } else {
                assert forall|j: int| 0 <= j < list.len() implies (#[trigger] list[j]).1
                    <= today by {
                    if j > 0 {
                        assert(rest[j - 1] == list[j]);
                    }
                }
            }
        } else {
            assert(list[0].1 > today);
        }
    }
}

/// What is planned of a series is exactly what it lacks: something planned is for the
/// moment and the day of one of its occurrences that has no instance, and for each such
/// occurrence something is planned.
pub proof fn law_a_plan_is_what_a_series_lacks(
    series: Series,
    wanted: Seq<(int, int)>,
    instances: Seq<Instance>,
    zone: Text,
    one: PlannedView,
)
    ensures
        missing(series, wanted, instances, zone).contains(one) <==> one.series == series && exists|
            k: int,
        |
            0 <= k < wanted.len() && one.day == (#[trigger] wanted[k]).1 && one.occurrence
                == time::rfc3339_text(wanted[k].0, 0) && !has_instance(
                instances,
                series.id@,
                zone,
                wanted[k].1,
            ),
    decreases wanted.len(),
{
    let all = missing(series, wanted, instances, zone);
    if wanted.len() > 0 {
        let front = wanted.drop_last();
        let before = missing(series, front, instances, zone);
        law_a_plan_is_what_a_series_lacks(series, front, instances, zone, one);
        assert(wanted[wanted.len() - 1] == wanted.last());
        if all.contains(one) {
            let i = choose|i: int| 0 <= i < all.len() && all[i] == one;
            if i < before.len() {
                assert(before[i] == one);
                let k = choose|k: int|
                    0 <= k < front.len() && one.day == (#[trigger] front[k]).1 && one.occurrence
                        == time::rfc3339_text(front[k].0, 0) && !has_instance(
                        instances,
                        series.id@,
                        zone,
                        front[k].1,
                    );
                assert(wanted[k] == front[k]);
            }
        }
        if one.series == series && exists|k: int|
            0 <= k < wanted.len() && one.day == (#[trigger] wanted[k]).1 && one.occurrence
                == time::rfc3339_text(wanted[k].0, 0) && !has_instance(
                instances,
                series.id@,
                zone,
                wanted[k].1,
            ) {
            let k = choose|k: int|
                0 <= k < wanted.len() && one.day == (#[trigger] wanted[k]).1 && one.occurrence
                    == time::rfc3339_text(wanted[k].0, 0) && !has_instance(
                    instances,
                    series.id@,
                    zone,
                    wanted[k].1,
                );
            if k < front.len() {
                assert(front[k] == wanted[k]);
                let i = choose|i: int| 0 <= i < before.len() && before[i] == one;
                assert(all[i] == one);
            } else {
                assert(all[all.len() - 1] == one);
            }
        }
    }
}

/// A series that cannot be used stops no other: each one whose occurrences are known has
/// all that it lacks in the plan, and each other one is told of, once.
pub proof fn law_every_series_is_planned_or_told_of(
    series: Seq<Series>,
    wanted: Seq<Option<Result<Seq<(int, int)>, Text>>>,
    instances: Seq<Instance>,
    zone: Text,
    k: int,
)
    requires
        wanted.len() == series.len(),
        0 <= k < series.len(),
    ensures
        match wanted[k] {
            Some(Ok(list)) => forall|one: PlannedView| #[trigger]
                missing(series[k], list, instances, zone).contains(one) ==> plan_of(
                    series,
                    wanted,
                    instances,
                    zone,
                ).0.contains(one),
            Some(Err(why)) => plan_of(series, wanted, instances, zone).1.contains(
                recurrence::complaint(series[k].name@, "bad rule "@ + why),
            ),
            None => plan_of(series, wanted, instances, zone).1.contains(
                recurrence::complaint(
                    series[k].name@,
                    "no rule or no start date, nothing to generate"@,
                ),
            ),
        },
    decreases series.len(),
{
    let before = plan_of(series.drop_last(), wanted.drop_last(), instances, zone);
    let all = plan_of(series, wanted, instances, zone);
    let last = series.len() - 1;
    assert(wanted.last() == wanted[last] && series.last() == series[last]);
    if k < last {
        law_every_series_is_planned_or_told_of(
            series.drop_last(),
            wanted.drop_last(),
            instances,
            zone,
            k,
        );
        assert(wanted.drop_last()[k] == wanted[k] && series.drop_last()[k] == series[k]);
        assert forall|one: PlannedView| before.0.contains(one) implies #[trigger] all.0.contains(
            one,
        ) by {
            let i = choose|i: int| 0 <= i < before.0.len() && before.0[i] == one;
            assert(all.0[i] == one);
        }
        assert forall|one: Text| before.1.contains(one) implies #[trigger] all.1.contains(one) by {
            let i = choose|i: int| 0 <= i < before.1.len() && before.1[i] == one;
            assert(all.1[i] == one);
        }
    } else {
        match wanted[k] {
            Some(Ok(list)) => {
                let more = missing(series[k], list, instances, zone);
                assert forall|one: PlannedView| #[trigger] more.contains(
                    one,
                ) implies all.0.contains(one) by {
                    let i = choose|i: int| 0 <= i < more.len() && more[i] == one;
                    assert(all.0[before.0.len() + i] == one);
                }
            },
            _ => {
                assert(all.1[all.1.len() - 1] == all.1.last());
            },
        }
    }
}

/// An occurrence that had been claimed before is passed over: nothing is created for it,
/// and the pass goes on with the next.
pub proof fn law_what_was_claimed_before_is_passed_over(pass: Pass, at: usize)
    requires
        pass.counts(),
        pass.step == Step::Claim(at),
    ensures
        ({
            let next = pass.after(Outcome::AlreadyClaimed);
            &&& next.created == pass.created && next.failed == pass.failed
            &&& if at + 1 < pass.planned {
                next.step == Step::Claim((at + 1) as usize)
            } else {
                next.step == Step::Done
            }
        }),
{
}

/// Each place of the plan is left behind once it was created, had been claimed before, or
/// was released after it failed, and it is counted once as what came of it.
pub proof fn law_each_place_is_counted_once(pass: Pass, outcome: Outcome)
    requires
        pass.counts(),
    ensures
        ({
            let next = pass.after(outcome);
            &&& next.created == pass.created + if pass.step is Create && outcome
                == Outcome::Created {
                1int
            } else {
                0
            }
            &&& next.failed == pass.failed + if pass.step is Create && outcome
                == Outcome::CreateFailed {
                1int
            } else {
                0
            }
            &&& next.already == pass.already + if pass.step is Claim && outcome
                == Outcome::AlreadyClaimed {
                1int
            } else {
                0
            }
            &&& next.planned == pass.planned
            &&& next.step is Done ==> next.created + next.already + next.failed == next.planned
        }),
{
}

/// The template that a series is made from is the one named as it is, the first where several
/// are; there is none only where no template is.
pub proof fn law_the_template_named_as_the_series_is_found(templates: Seq<Template>, name: Text)
    ensures
        match template_named(templates, name) {
            Some(id) => exists|i: int|
                0 <= i < templates.len() && is_named(#[trigger] templates[i], name)
                    && templates[i].id@ == id && forall|j: int|
                    0 <= j < i ==> !is_named(#[trigger] templates[j], name),
            None => forall|j: int|
                0 <= j < templates.len() ==> !is_named(#[trigger] templates[j], name),
        },
    decreases templates.len(),
{
    if templates.len() > 0 {
        if is_named(templates[0], name) {
            assert(templates[0].id@ == template_named(templates, name)->0);
        } else {
            let rest = templates.drop_first();
            law_the_template_named_as_the_series_is_found(rest, name);
            match template_named(rest, name) {
                Some(id) => {
                    let i = choose|i: int|
                        0 <= i < rest.len() && is_named(#[trigger] rest[i], name) && rest[i].id@
                            == id && forall|j: int|
                            0 <= j < i ==> !is_named(#[trigger] rest[j], name);
                    assert(templates[i + 1] == rest[i]);
                    assert forall|j: int| 0 <= j < i + 1 implies !is_named(
                        #[trigger] templates[j],
                        name,
                    ) by {
                        if j > 0 {
                            assert(rest[j - 1] == templates[j]);
                        }
                    }
                },
                None => {
                    assert forall|j: int| 0 <= j < templates.len() implies !is_named(
                        #[trigger] templates[j],
                        name,
                    ) by {
                        if j > 0 {
                            assert(rest[j - 1] == templates[j]);
                        }
                    }
                },
            }
        }
    }
}

/// Whether a template has this name, but for the white space around it.
pub open spec fn is_named(template: Template, name: Text) -> bool {
    template.name matches Some(own) && text::trimmed(own@) == name
}

/// An occurrence has an instance exactly where one of the objects of its own series stands
/// for a moment of its day, by the clocks of the calendar's zone. An object of another
/// series, of another day or of no occurrence does not stand in for it.
pub proof fn law_what_an_occurrence_has_for_an_instance(
    instances: Seq<Instance>,
    series: Text,
    zone: Text,
    day: int,
    one: Instance,
)
    ensures
        has_instance(instances, series, zone, day) <==> exists|i: int|
            0 <= i < instances.len() && (#[trigger] instances[i]).series_id@ == series
                && instances[i].occurrence is Some && time::day_of(
                time::local_at(zone, instances[i].occurrence->0@.second),
            ) == day,
        one.series_id@ != series || one.occurrence is None || time::day_of(
            time::local_at(zone, one.occurrence->0@.second),
        ) != day ==> has_instance(instances.push(one), series, zone, day) == has_instance(
            instances,
            series,
            zone,
            day,
        ),
        one.series_id@ == series && one.occurrence is Some && time::day_of(
            time::local_at(zone, one.occurrence->0@.second),
        ) == day ==> has_instance(instances.push(one), series, zone, day),
{
    let more = instances.push(one);
    if has_instance(instances, series, zone, day) {
        let i = choose|i: int|
            0 <= i < instances.len() && satisfies(#[trigger] instances[i], series, zone, day);
        assert(instances[i].series_id@ == series);
        assert(satisfies(more[i], series, zone, day));
    }
    if exists|i: int|
        0 <= i < instances.len() && (#[trigger] instances[i]).series_id@ == series
            && instances[i].occurrence is Some && time::day_of(
            time::local_at(zone, instances[i].occurrence->0@.second),
        ) == day {
        let i = choose|i: int|
            0 <= i < instances.len() && (#[trigger] instances[i]).series_id@ == series
                && instances[i].occurrence is Some && time::day_of(
                time::local_at(zone, instances[i].occurrence->0@.second),
            ) == day;
        assert(satisfies(instances[i], series, zone, day));
    }
    if has_instance(more, series, zone, day) {
        let i = choose|i: int|
            0 <= i < more.len() && satisfies(#[trigger] more[i], series, zone, day);
        if i < instances.len() {
            assert(satisfies(instances[i], series, zone, day));
        }
    }
    if one.series_id@ == series && one.occurrence is Some && time::day_of(
        time::local_at(zone, one.occurrence->0@.second),
    ) == day {
        assert(satisfies(more[instances.len() as int], series, zone, day));
    }
}

} // verus!
