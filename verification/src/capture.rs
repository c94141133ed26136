//! Dates as a capturing client sends them.
use vstd::prelude::*;

use crate::config::CalendarConfig;
use crate::ical::Moment;
use crate::text;
use crate::text::Text;
use crate::time;
use crate::time::{Day, Instant, When};
use crate::writeback;

verus! {

/// What a client means by a date: a moment, or else a day.
pub open spec fn meant(value: Text) -> Option<When> {
    let value = text::trimmed(value);
    match time::rfc3339(value) {
        Some((second, nano, _)) => Some(When::At(second, nano)),
        None => match time::parsed_day(value) {
            Some(day) => Some(When::Day(day)),
            None => None,
        },
    }
}

/// A date of a client in the shape the space stores.
pub open spec fn captured_date(value: Text, zone: Text) -> Option<Text> {
    match meant(value) {
        Some(when) => writeback::stored(when, zone),
        None => None,
    }
}

/// A date of a client in the shape the space stores. A moment is written as RFC 3339
/// (`2026-09-17T18:00:00+04:00`), a whole day as the day alone (`2026-09-17`).
pub fn anytype_date(value: &str, config: &CalendarConfig) -> (r: Option<String>)
    ensures
        text::text_of(r) == captured_date(value@, config.date_only_timezone@),
        meant(value@) matches Some(when) ==> writeback::text_kept(
            when,
            config.date_only_timezone@,
        ),
{
    let value = text::trim(value);
    match time::parse_rfc3339(value) {
        Some((at, _)) => writeback::to_anytype(Moment::At(at), &config.date_only_timezone),
        None => match time::parse_day(value) {
            Some(day) => writeback::to_anytype(Moment::Day(day), &config.date_only_timezone),
            None => None,
        },
    }
}

/// The first moment of a day in the calendar's zone.
pub fn midnight(day: Day, config: &CalendarConfig) -> (r: Option<Instant>)
    ensures
        match r {
            Some(at) => config.timezone.first_of(day, 0) == Some(at.second()) && at.nano() == 0,
            None => config.timezone.first_of(day, 0) is None,
        },
{
    config.timezone.earliest_of(day, 0)
}

/// What a client sends is taken as the moment that it names, or as the day where it names a
/// day alone; anything else is no date.
pub proof fn law_a_sent_date_is_taken_as_it_is(value: Text)
    ensures
        time::rfc3339(text::trimmed(value)) matches Some((second, nano, _)) ==> meant(value)
            == Some(When::At(second, nano)),
        time::rfc3339(text::trimmed(value)) is None ==> (meant(value) matches Some(when) ==> when
            is Day && time::parsed_day(text::trimmed(value)) == Some(when->Day_0)),
        time::rfc3339(text::trimmed(value)) is None && time::parsed_day(text::trimmed(value)) is Some
            ==> meant(value) is Some,
        meant(value) is None ==> captured_date(value, Seq::empty()) is None,
{
}

} // verus!
