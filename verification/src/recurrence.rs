//! Recurrence rules, read and expanded by the `rrule` crate.
use vstd::prelude::*;

use crate::fold;
use crate::ical;
use crate::model::{AnytypeDate, CalendarValue};
use crate::model;
use crate::text;
use crate::text::Text;
use crate::time;
use crate::time::{Instant, When, Zone};

verus! {

/// What a rule starts from: what clocks in the zone show, and whether it is a whole
/// day.
pub open spec fn start_of(value: When, zone: Text) -> (int, bool) {
    match value {
        When::Day(day) => (day * 86_400, true),
        When::At(second, _) => (time::local_at(zone, second), false),
    }
}

/// Where a rule that is anchored at a date starts.
pub fn rule_start(anchor: &AnytypeDate, zone: &Zone) -> (r: (String, bool))
    ensures
        r.0@ == time::compact_second(start_of(model::classified_date(anchor@, zone@), zone@).0),
        one_line(r.0@),
        r.1 == start_of(model::classified_date(anchor@, zone@), zone@).1,
{
    proof {
        let second = start_of(model::classified_date(anchor@, zone@), zone@).0;
        ical::lemma_compact_figures(0, second);
        ical::lemma_figures(time::compact_second(second));
    }
    match anchor.classify(zone) {
        CalendarValue::AllDay(day) => {
            let number = day.number();
            (time::second_label(number * 86_400), true)
        },
        CalendarValue::Instant(at) => {
            let local = zone.local_second(at);
            (time::second_label(local), false)
        },
    }
}

/// Whether a rule stands on one line, so that it holds no further lines of a
/// recurrence set, whose dates could be in the machine's own zone.
pub open spec fn one_line(rule: Text) -> bool {
    forall|i: int| 0 <= i < rule.len() ==> rule[i] != '\n'
}

/// Whether an item of a rule ends at a position.
pub open spec fn item_ends(rule: Text, at: int) -> bool {
    at == rule.len() || rule[at] == ',' || rule[at] == ';' || rule[at] == '\n' || rule[at] == '\r'
}

/// Whether two bytes before a position no character is cut in two.
pub open spec fn cut_before(rule: Text, at: int) -> bool {
    ||| fold::bytes_of(rule[at - 1]) == 2
    ||| fold::bytes_of(rule[at - 1]) == 1 && (at == 1 || fold::bytes_of(rule[at - 2]) == 1)
}

/// Whether the last two bytes of every item can be taken off it, as they are where the
/// item names a day of the week.
pub open spec fn days_cut(rule: Text) -> bool {
    forall|at: int| 1 <= at <= rule.len() && #[trigger] item_ends(rule, at) ==> cut_before(rule, at)
}

fn are_days_cut(rule: &str) -> (r: bool)
    ensures
        r == days_cut(rule@),
{
    let v = text::chars_of(rule);
    let all: usize = v.len();
    let mut at: usize = 0;
    while at < all
        invariant
            at <= all,
            all == v@.len(),
            v@ == rule@,
            forall|k: int| 1 <= k <= at && #[trigger] item_ends(rule@, k) ==> cut_before(rule@, k),
        decreases all - at,
    {
        at += 1;
        let ends = at == all || v[at] == ',' || v[at] == ';' || v[at] == '\n' || v[at] == '\r';
        assert(ends == item_ends(rule@, at as int));
        if ends {
            let last = fold::width_of(v[at - 1]);
            if last != 2 && !(last == 1 && (at == 1 || fold::width_of(v[at - 2]) == 1)) {
                return false;
            }
        }
    }
    true
}

/// The first occurrences of a rule, in seconds since 1970, up to where a hundred
/// thousand steps in a row lead to none; `None` where it cannot be read.
pub uninterp spec fn first_starts(zone: Text, start: Text, rule: Text, count: int) -> Option<
    Seq<int>,
>;

/// The occurrences of a rule from a moment on and up to another, both taken in, in
/// seconds since 1970; `None` where the rule cannot be read.
pub uninterp spec fn starts_between(
    zone: Text,
    start: Text,
    rule: Text,
    from: (int, int),
    to: (int, int),
    count: int,
) -> Option<Seq<int>>;

pub open spec fn seconds(v: Seq<i64>) -> Seq<int> {
    Seq::new(v.len(), |i: int| v[i] as int)
}

pub open spec fn starts_view(r: Result<Vec<i64>, String>) -> Option<Seq<int>> {
    match r {
        Ok(v) => Some(seconds(v@)),
        Err(_) => None,
    }
}

/// `<rrule::RRuleSet as FromStr>::from_str`, `RRuleSet::limit` and the set's iterator:
/// the first `count` occurrences, up to where a limited set gives up the search for
/// another one. They depend on the zone, the start and the rule where the rule stands
/// on one line; of the words of an error nothing is said, as they can depend on the
/// machine's zone. The parser panics where it cuts the name of a day in the middle of a
/// character.
#[verifier::external_body]
fn read_first(zone: &str, start: &str, rule: &str, count: usize) -> (r: Result<Vec<i64>, String>)
    requires
        time::is_zone(zone@),
        one_line(start@),
        days_cut(rule@),
    ensures
        one_line(rule@) ==> starts_view(r) == first_starts(zone@, start@, rule@, count as int),
{
    let text = format!("DTSTART;TZID={zone}:{start}\nRRULE:{rule}");
    let set: rrule::RRuleSet = text.parse().map_err(|err: rrule::RRuleError| err.to_string())?;
    Ok((&set.limit()).into_iter().take(count).map(|at| at.timestamp()).collect())
}

/// `<rrule::RRuleSet as FromStr>::from_str`, `RRuleSet::after`, `RRuleSet::before` and
/// `RRuleSet::all`: at most `count` occurrences between two moments. They depend on
/// the arguments where the rule stands on one line; of the words of an error nothing
/// is said, as they can depend on the machine's zone. The parser panics where it cuts
/// the name of a day in the middle of a character.
#[verifier::external_body]
fn read_between(
    zone: &str,
    start: &str,
    rule: &str,
    from: (i64, u32),
    to: (i64, u32),
    count: u16,
) -> (r: Result<Vec<i64>, String>)
    requires
        time::is_zone(zone@),
        one_line(start@),
        days_cut(rule@),
        time::FIRST_SECOND <= from.0 <= time::LAST_SECOND,
        time::FIRST_SECOND <= to.0 <= time::LAST_SECOND,
        time::moment_nanos(from.0 as int, from.1 as int),
        time::moment_nanos(to.0 as int, to.1 as int),
    ensures
        one_line(rule@) ==> starts_view(r) == starts_between(
            zone@,
            start@,
            rule@,
            (from.0 as int, from.1 as int),
            (to.0 as int, to.1 as int),
            count as int,
        ),
{
    let text = format!("DTSTART;TZID={zone}:{start}\nRRULE:{rule}");
    let set: rrule::RRuleSet = text.parse().map_err(|err: rrule::RRuleError| err.to_string())?;
    let at = |(second, nano): (i64, u32)| {
        chrono::DateTime::from_timestamp(second, nano).unwrap().with_timezone(&rrule::Tz::UTC)
    };
    let found = set.after(at(from)).before(at(to)).all(count);
    Ok(found.dates.into_iter().map(|at| at.timestamp()).collect())
}

/// What is said of a rule that cannot be used.
pub open spec fn complaint(rule: Text, why: Text) -> Text {
    text::quoted(rule) + ": "@ + why
}

pub fn complain(rule: &str, why: &str) -> (r: String)
    ensures
        r@ == complaint(rule@, why@),
{
    let mut r = text::quote(rule);
    r.append(": ");
    r.append(why);
    r
}

/// The first occurrences of a rule that is anchored at a date; `None` where it cannot be
/// read.
pub open spec fn anchored_starts(
    rule: Text,
    anchor: model::DateView,
    zone: Text,
    count: int,
) -> Option<Seq<int>> {
    if days_cut(text::trimmed(rule)) {
        first_starts(
            zone,
            time::compact_second(start_of(model::classified_date(anchor, zone), zone).0),
            text::trimmed(rule),
            count,
        )
    } else {
        None
    }
}

pub fn first_of_rule(rule: &str, anchor: &AnytypeDate, zone: &Zone, count: usize) -> (r: Result<
    Vec<i64>,
    String,
>)
    ensures
        one_line(text::trimmed(rule@)) ==> starts_view(r) == anchored_starts(
            rule@,
            anchor@,
            zone@,
            count as int,
        ),
        !days_cut(text::trimmed(rule@)) ==> r is Err,
{
    let trimmed = text::trim(rule);
    if !are_days_cut(trimmed) {
        return Err(complain(rule, "a day is cut in the middle of a character"));
    }
    let (start, _) = rule_start(anchor, zone);
    match read_first(zone.name(), start.as_str(), trimmed, count) {
        Ok(found) => Ok(found),
        Err(why) => Err(complain(rule, why.as_str())),
    }
}

/// The occurrences between two moments of a rule that is anchored at a date; `None`
/// where it cannot be read.
pub open spec fn anchored_between(
    rule: Text,
    anchor: model::DateView,
    zone: Text,
    from: Instant,
    to: Instant,
    count: int,
) -> Option<Seq<int>> {
    if days_cut(text::trimmed(rule)) {
        starts_between(
            zone,
            time::compact_second(start_of(model::classified_date(anchor, zone), zone).0),
            text::trimmed(rule),
            (from.second(), from.nano()),
            (to.second(), to.nano()),
            count,
        )
    } else {
        None
    }
}

pub fn between_of_rule(
    rule: &str,
    anchor: &AnytypeDate,
    zone: &Zone,
    from: Instant,
    to: Instant,
    count: u16,
) -> (r: Result<Vec<i64>, String>)
    ensures
        one_line(text::trimmed(rule@)) ==> starts_view(r) == anchored_between(
            rule@,
            anchor@,
            zone@,
            from,
            to,
            count as int,
        ),
        !days_cut(text::trimmed(rule@)) ==> r is Err,
{
    let trimmed = text::trim(rule);
    if !are_days_cut(trimmed) {
        return Err(complain(rule, "a day is cut in the middle of a character"));
    }
    let (start, _) = rule_start(anchor, zone);
    let first = (from.seconds(), from.nanos());
    let last = (to.seconds(), to.nanos());
    match read_between(zone.name(), start.as_str(), trimmed, first, last, count) {
        Ok(found) => Ok(found),
        Err(why) => Err(complain(rule, why.as_str())),
    }
}

/// A series starts where its first occurrence is shown: on its day, at the beginning where it
/// is for the whole day, and otherwise at its clock time in the zone of the calendar.
pub proof fn law_a_series_starts_where_it_is_shown(value: time::When, zone: Text)
    ensures
        ({
            let (local, whole_day) = start_of(value, zone);
            match value {
                time::When::Day(day) => whole_day && time::day_of(local) == day && time::clock_of(
                    local,
                ) == 0,
                time::When::At(second, _) => !whole_day && time::day_of(local) == time::day_of(
                    time::local_at(zone, second),
                ) && time::clock_of(local) == time::clock_of(time::local_at(zone, second)),
            }
        }),
{
}

} // verus!
