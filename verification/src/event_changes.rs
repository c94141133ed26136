//! Turns the VEVENTs a calendar client sent back into changes to events of the
//! space.
use vstd::prelude::*;

use crate::config::CalendarConfig;
use crate::events;
use crate::events::{Event, EventView};
use crate::ical;
use crate::ical::{Line, LineView, Moment, WireDate, WireView};
use crate::model;
use crate::model::{AnytypeDate, DateView};
use crate::order;
use crate::text;
use crate::text::Text;
use crate::time;
use crate::time::{Span, When};
use crate::writeback;

verus! {

#[derive(Debug, Clone, PartialEq)]
pub struct IncomingEvent {
    pub uid: Option<String>,
    pub summary: Option<String>,
    pub start: Option<WireDate>,
    pub end: Option<WireDate>,
    pub location: Option<String>,
    /// How long before the start, from relative VALARM triggers.
    pub leads: Vec<Span>,
    /// CATEGORIES values.
    pub categories: Vec<String>,
    /// RRULE value, on the master of a series.
    pub rrule: Option<String>,
    /// EXDATE values, one per date even when the client joined them.
    pub exdates: Vec<WireDate>,
    /// RECURRENCE-ID, on a component replacing one occurrence.
    pub recurrence_id: Option<WireDate>,
}

/// A component as plain values; leads in seconds.
#[verifier::ext_equal]
pub struct IncomingEventView {
    pub uid: Option<Text>,
    pub summary: Option<Text>,
    pub start: Option<WireView>,
    pub end: Option<WireView>,
    pub location: Option<Text>,
    pub leads: Seq<int>,
    pub categories: Seq<Text>,
    pub rrule: Option<Text>,
    pub exdates: Seq<WireView>,
    pub recurrence_id: Option<WireView>,
}

pub open spec fn lead_seconds(v: Seq<Span>) -> Seq<int> {
    Seq::new(v.len(), |i: int| v[i].second())
}

impl View for IncomingEvent {
    type V = IncomingEventView;

    open spec fn view(&self) -> IncomingEventView {
        IncomingEventView {
            uid: text::text_of(self.uid),
            summary: text::text_of(self.summary),
            start: ical::wire_view(self.start),
            end: ical::wire_view(self.end),
            location: text::text_of(self.location),
            leads: lead_seconds(self.leads@),
            categories: text::texts(self.categories@),
            rrule: text::text_of(self.rrule),
            exdates: ical::wire_views(self.exdates@),
            recurrence_id: ical::wire_view(self.recurrence_id),
        }
    }
}

pub open spec fn incoming_views(v: Seq<IncomingEvent>) -> Seq<IncomingEventView> {
    Seq::new(v.len(), |i: int| v[i]@)
}

/// A PUT body: the master (or a plain event) and the components replacing single
/// occurrences.
#[derive(Debug, Clone, PartialEq)]
pub struct IncomingSeries {
    pub master: IncomingEvent,
    pub replacements: Vec<IncomingEvent>,
}

#[verifier::ext_equal]
pub struct IncomingSeriesView {
    pub master: IncomingEventView,
    pub replacements: Seq<IncomingEventView>,
}

impl View for IncomingSeries {
    type V = IncomingSeriesView;

    open spec fn view(&self) -> IncomingSeriesView {
        IncomingSeriesView {
            master: self.master@,
            replacements: incoming_views(self.replacements@),
        }
    }
}

// ------------------------------------------------------------------ alarms

/// How long a unit of a trigger is, in its date part or in its time part.
pub open spec fn unit_of(c: char, in_time: bool) -> Option<int> {
    if in_time {
        if c == 'H' {
            Some(3_600)
        } else if c == 'M' {
            Some(60)
        } else if c == 'S' {
            Some(1)
        } else {
            None
        }
    } else {
        if c == 'W' {
            Some(604_800)
        } else if c == 'D' {
            Some(86_400)
        } else if c == '?' {
            Some(0)
        } else {
            None
        }
    }
}

/// What has been read of a trigger after some of its characters: the seconds so far,
/// and digits that no unit has followed yet. Nothing is read from a character that is
/// no unit, from a unit without digits, or past the longest length of time.
pub open spec fn trigger_after(start: Option<(int, Text)>, s: Text, in_time: bool) -> Option<
    (int, Text),
>
    decreases s.len(),
{
    if s.len() == 0 {
        start
    } else {
        match trigger_after(start, s.drop_last(), in_time) {
            None => None,
            Some((total, number)) => if text::digit(s.last()) {
                Some((total, number.push(s.last())))
            } else {
                match (unit_of(s.last(), in_time), text::digits_value(number)) {
                    (Some(unit), Some(n)) => if n <= i64::MAX && total + n * unit
                        <= time::LONGEST {
                        Some((total + n * unit, Seq::empty()))
                    } else {
                        None
                    },
                    _ => None,
                }
            },
        }
    }
}

/// The duration of a trigger behind its `P`.
pub open spec fn duration_seconds(s: Text) -> Option<int> {
    let at = text::index_of(s, 'T');
    let date = if at < s.len() {
        s.take(at)
    } else {
        s
    };
    let clock = if at < s.len() {
        s.skip(at + 1)
    } else {
        Seq::empty()
    };
    match trigger_after(
        trigger_after(Some((0, Seq::empty())), date, false),
        clock,
        true,
    ) {
        Some((total, number)) => if number.len() == 0 {
            Some(total)
        } else {
            None
        },
        None => None,
    }
}

/// What stands behind the sign of a trigger before the start; at the start, the sign
/// may be missing.
pub open spec fn behind_sign(s: Text) -> Option<Text> {
    match text::after_prefix(s, "-"@) {
        Some(rest) => Some(rest),
        None => if s == "PT0M"@ || s == "P0D"@ {
            Some(s)
        } else {
            None
        },
    }
}

/// How many seconds before the start a trigger is.
pub open spec fn before_seconds(trigger: Text) -> Option<int> {
    match behind_sign(text::trimmed(trigger)) {
        Some(rest) => match text::after_prefix(rest, "P"@) {
            Some(rest) => duration_seconds(rest),
            None => None,
        },
        None => None,
    }
}

spec fn state_view(state: Option<(u64, Vec<char>)>) -> Option<(int, Text)> {
    match state {
        Some((total, number)) => Some((total as int, number@)),
        None => None,
    }
}

fn read_units(start: Option<(u64, Vec<char>)>, s: &str, in_time: bool) -> (r: Option<
    (u64, Vec<char>),
>)
    requires
        start matches Some((total, _)) ==> total <= time::LONGEST,
    ensures
        match r {
            Some((total, number)) => trigger_after(
                state_view(start),
                s@,
                in_time,
            ) == Some((total as int, number@)) && total <= time::LONGEST,
            None => trigger_after(
                state_view(start),
                s@,
                in_time,
            ) is None,
        },
{
    let ghost begin = state_view(start);
    let (mut total, mut number) = match start {
        Some(state) => state,
        None => {
            proof {
                lemma_trigger_stops(s@, in_time);
            }
            return None;
        },
    };
    let v = text::chars_of(s);
    let mut i: usize = 0;
    while i < v.len()
        invariant
            i <= v@.len(),
            v@ == s@,
            begin == state_view(start),
            total <= time::LONGEST,
            trigger_after(begin, v@.take(i as int), in_time) == Some((total as int, number@)),
        decreases v@.len() - i,
    {
        let c = v[i];
        assert(v@.take(i + 1).drop_last() == v@.take(i as int));
        assert(v@.take(i + 1).last() == c);
        if text::is_digit(c) {
            number.push(c);
        } else {
            let unit: u64 = if in_time {
                if c == 'H' {
                    3_600
                } else if c == 'M' {
                    60
                } else if c == 'S' {
                    1
                } else {
                    proof {
                        lemma_trigger_failed(begin, v@, i + 1, in_time);
                    }
                    return None;
                }
            } else {
                if c == 'W' {
                    604_800
                } else if c == 'D' {
                    86_400
                } else if c == '?' {
                    0
                } else {
                    proof {
                        lemma_trigger_failed(begin, v@, i + 1, in_time);
                    }
                    return None;
                }
            };
            let n: u64 = match text::parse_digits(&number, 9_223_372_036_854_775_807) {
                Some(n) => n,
                None => {
                    proof {
                        lemma_trigger_failed(begin, v@, i + 1, in_time);
                    }
                    return None;
                },
            };
            assert(n * unit <= 9_223_372_036_854_775_807 * 604_800) by (nonlinear_arith)
                requires
                    n <= 9_223_372_036_854_775_807,
                    unit <= 604_800,
            ;
            assert(0 <= n * unit) by (nonlinear_arith);
            let sum: u128 = total as u128 + n as u128 * unit as u128;
            if sum > time::LONGEST as u128 {
                proof {
                    lemma_trigger_failed(begin, v@, i + 1, in_time);
                }
                return None;
            }
            total = sum as u64;
            number = Vec::new();
            assert(number@ == Seq::<char>::empty());
        }
        i += 1;
    }
    assert(v@.take(v@.len() as int) == v@);
    Some((total, number))
}

proof fn lemma_trigger_stops(s: Text, in_time: bool)
    ensures
        trigger_after(None, s, in_time) is None,
    decreases s.len(),
{
    if s.len() > 0 {
        lemma_trigger_stops(s.drop_last(), in_time);
    }
}

proof fn lemma_trigger_failed(start: Option<(int, Text)>, s: Text, n: int, in_time: bool)
    requires
        0 <= n <= s.len(),
        trigger_after(start, s.take(n), in_time) is None,
    ensures
        trigger_after(start, s, in_time) is None,
    decreases s.len() - n,
{
    if n < s.len() {
        assert(s.take(n + 1).drop_last() == s.take(n));
        lemma_trigger_failed(start, s, n + 1, in_time);
    } else {
        assert(s.take(n) == s);
    }
}

/// `-PT15M`, `-P1D`, `-PT1H30M`, `-P1W`, `-PT0M` become the lead before the start.
/// Absolute and after-start triggers are not leads and are ignored, and so is one
/// longer than the longest length of time.
pub fn parse_before(trigger: &str) -> (r: Option<Span>)
    ensures
        match r {
            Some(span) => before_seconds(trigger@) == Some(span.second()) && span.nano() == 0,
            None => before_seconds(trigger@) is None,
        },
{
    let s = text::trim(trigger);
    let rest = match text::strip_prefix(s, "-") {
        Some(rest) => rest,
        None => if text::same(s, "PT0M") || text::same(s, "P0D") {
            s
        } else {
            return None;
        },
    };
    let rest = match text::strip_prefix(rest, "P") {
        Some(rest) => rest,
        None => {
            return None;
        },
    };
    let n = rest.unicode_len();
    let at = text::position(rest, 'T');
    let (date, clock) = if at < n {
        (text::part(rest, 0, at), text::part(rest, at + 1, n))
    } else {
        (rest, "")
    };
    proof {
        reveal_strlit("");
        if at < n {
            assert(date@ == rest@.take(at as int));
            assert(clock@ == rest@.skip(at + 1));
        } else {
            assert(clock@ == Seq::<char>::empty());
        }
    }
    let nothing: Vec<char> = Vec::new();
    assert(nothing@ == Seq::<char>::empty());
    let half = read_units(Some((0, nothing)), date, false);
    match read_units(half, clock, true) {
        Some((total, number)) => if number.len() == 0 {
            Span::new(total, 0)
        } else {
            None
        },
        None => None,
    }
}

/// The option name for a lead: the largest whole unit.
pub open spec fn name_of_lead(seconds: int) -> Text {
    let minutes = seconds / 60;
    if minutes == 0 {
        "0m"@
    } else if minutes % 10_080 == 0 {
        text::decimal((minutes / 10_080) as nat) + "w"@
    } else if minutes % 1_440 == 0 {
        text::decimal((minutes / 1_440) as nat) + "d"@
    } else if minutes % 60 == 0 {
        text::decimal((minutes / 60) as nat) + "h"@
    } else {
        text::decimal(minutes as nat) + "m"@
    }
}

/// The option name for a lead: the largest whole unit, as `reminder_lead` options are
/// written (`15m`, `2h`, `1d`, `1w`).
pub fn lead_name(lead: &Span) -> (r: String)
    ensures
        r@ == name_of_lead(lead.second()),
{
    let minutes: u64 = lead.seconds() / 60;
    if minutes == 0 {
        "0m".to_owned()
    } else if minutes % 10_080 == 0 {
        let mut r = text::number(minutes / 10_080);
        r.append("w");
        r
    } else if minutes % 1_440 == 0 {
        let mut r = text::number(minutes / 1_440);
        r.append("d");
        r
    } else if minutes % 60 == 0 {
        let mut r = text::number(minutes / 60);
        r.append("h");
        r
    } else {
        let mut r = text::number(minutes);
        r.append("m");
        r
    }
}

/// The names of leads.
pub open spec fn names_of_leads(seconds: Seq<int>) -> Seq<Text> {
    Seq::new(seconds.len(), |i: int| name_of_lead(seconds[i]))
}

pub fn lead_names(leads: &Vec<Span>) -> (r: Vec<String>)
    ensures
        text::texts(r@) == names_of_leads(lead_seconds(leads@)),
{
    let mut r: Vec<String> = Vec::new();
    let mut i: usize = 0;
    while i < leads.len()
        invariant
            i <= leads@.len(),
            r@.len() == i,
            forall|j: int| 0 <= j < i ==> (#[trigger] r@[j])@ == name_of_lead(leads@[j].second()),
        decreases leads@.len() - i,
    {
        r.push(lead_name(&leads[i]));
        i += 1;
    }
    assert(text::texts(r@) == names_of_leads(lead_seconds(leads@)));
    r
}

// ------------------------------------------------------------------ reading

/// The leads of the alarms of a component, in its order.
pub open spec fn triggers(lines: Seq<LineView>) -> Seq<(int, ())>
    decreases lines.len(),
{
    if lines.len() == 0 {
        Seq::empty()
    } else {
        let before = triggers(lines.drop_last());
        if lines.last().part == "VALARM"@ && lines.last().key == "TRIGGER"@ {
            match before_seconds(lines.last().value) {
                Some(seconds) => before.push((seconds, ())),
                None => before,
            }
        } else {
            before
        }
    }
}

/// The leads of a component, the shortest first, each once.
pub open spec fn leads_in(lines: Seq<LineView>) -> Seq<int> {
    let sorted = order::sorted_keyed(triggers(lines));
    Seq::new(sorted.len(), |i: int| sorted[i].0)
}

fn read_leads(v: &Vec<Line>) -> (r: Vec<Span>)
    ensures
        lead_seconds(r@) == leads_in(ical::lines(v@)),
{
    let ghost all = ical::lines(v@);
    let mut sorted: Vec<(i128, ())> = Vec::new();
    let mut i: usize = 0;
    assert(order::keyed(sorted@) == order::sorted_keyed(triggers(all.take(0))));
    while i < v.len()
        invariant
            i <= v@.len(),
            all == ical::lines(v@),
            order::keyed(sorted@) == order::sorted_keyed(triggers(all.take(i as int))),
            forall|j: int| 0 <= j < sorted@.len() ==> 0 <= (#[trigger] sorted@[j]).0 <= time::LONGEST,
        decreases v@.len() - i,
    {
        assert(all.take(i + 1).drop_last() == all.take(i as int));
        assert(all.take(i + 1).last() == v@[i as int]@);
        if text::same(v[i].part.as_str(), "VALARM") && text::same(v[i].key.as_str(), "TRIGGER") {
            if let Some(lead) = parse_before(v[i].value.as_str()) {
                let seconds = lead.seconds();
                let ghost before = triggers(all.take(i as int));
                proof {
                    assert(triggers(all.take(i + 1)) == before.push((seconds as int, ())));
                    assert(before.push((seconds as int, ())).drop_last() == before);
                }
                let ghost was = sorted@;
                order::put_keyed(&mut sorted, seconds as i128, ());
                proof {
                    lemma_bounded(was, sorted@, seconds as i128);
                }
            }
        }
        i += 1;
    }
    assert(all.take(all.len() as int) == all);
    let mut r: Vec<Span> = Vec::new();
    let mut k: usize = 0;
    while k < sorted.len()
        invariant
            k <= sorted@.len(),
            r@.len() == k,
            forall|j: int| 0 <= j < sorted@.len() ==> 0 <= (#[trigger] sorted@[j]).0 <= time::LONGEST,
            forall|j: int| 0 <= j < k ==> (#[trigger] r@[j]).second() == sorted@[j].0,
        decreases sorted@.len() - k,
    {
        assert(0 <= sorted@[k as int].0 <= time::LONGEST);
        match Span::new(sorted[k].0 as u64, 0) {
            Some(span) => r.push(span),
            None => {},
        }
        k += 1;
    }
    proof {
        assert forall|j: int| 0 <= j < sorted@.len() implies (#[trigger] r@[j]).second()
            == order::keyed(sorted@)[j].0 by {}
        assert(lead_seconds(r@) == leads_in(all));
    }
    r
}

proof fn lemma_bounded(before: Seq<(i128, ())>, after: Seq<(i128, ())>, key: i128)
    requires
        0 <= key <= time::LONGEST,
        forall|j: int| 0 <= j < before.len() ==> 0 <= (#[trigger] before[j]).0 <= time::LONGEST,
        order::keyed(after) == order::insert_keyed(order::keyed(before), key as int, ()),
    ensures
        forall|j: int| 0 <= j < after.len() ==> 0 <= (#[trigger] after[j]).0 <= time::LONGEST,
{
    let s = order::keyed(before);
    assert forall|j: int| 0 <= j < s.len() implies 0 <= (#[trigger] s[j]).0 <= time::LONGEST by {
        assert(0 <= before[j].0 <= time::LONGEST);
    }
    lemma_insert_bounded(s, key as int);
    assert forall|j: int| 0 <= j < after.len() implies 0 <= (#[trigger] after[j]).0
        <= time::LONGEST by {
        assert(order::keyed(after)[j].0 == after[j].0);
    }
}

proof fn lemma_insert_bounded(s: Seq<(int, ())>, key: int)
    requires
        0 <= key <= time::LONGEST,
        forall|j: int| 0 <= j < s.len() ==> 0 <= (#[trigger] s[j]).0 <= time::LONGEST,
    ensures
        forall|j: int|
            0 <= j < order::insert_keyed(s, key, ()).len() ==> 0 <= (#[trigger] order::insert_keyed(
                s,
                key,
                (),
            )[j]).0 <= time::LONGEST,
    decreases s.len(),
{
    let r = order::insert_keyed(s, key, ());
    if s.len() > 0 && s.last().0 > key {
        let front = s.drop_last();
        assert forall|j: int| 0 <= j < front.len() implies 0 <= (#[trigger] front[j]).0
            <= time::LONGEST by {
            assert(0 <= s[j].0);
        }
        lemma_insert_bounded(front, key);
        let inner = order::insert_keyed(front, key, ());
        assert(r == inner.push(s.last()));
        assert forall|j: int| 0 <= j < r.len() implies 0 <= (#[trigger] r[j]).0
            <= time::LONGEST by {
            if j < inner.len() {
                assert(r[j] == inner[j]);
            } else {
                assert(r[j] == s[s.len() - 1]);
            }
        }
    } else {
        assert forall|j: int| 0 <= j < r.len() implies 0 <= (#[trigger] r[j]).0
            <= time::LONGEST by {
            if j < s.len() {
                assert(r[j] == s[j]);
            }
        }
    }
}

/// The dates of a comma list behind others; each keeps the line's parameters.
pub open spec fn with_dates(
    list: Seq<WireView>,
    values: Seq<Text>,
    params: Seq<(Text, Text)>,
) -> Seq<WireView>
    decreases values.len(),
{
    if values.len() == 0 {
        list
    } else {
        let before = with_dates(list, values.drop_last(), params);
        match ical::line_date("EXDATE"@, text::trimmed(values.last()), params) {
            Some(date) => before.push(date),
            None => before,
        }
    }
}

/// The excluded dates of a component.
pub open spec fn excluded_in(lines: Seq<LineView>) -> Seq<WireView>
    decreases lines.len(),
{
    if lines.len() == 0 {
        Seq::empty()
    } else {
        let before = excluded_in(lines.drop_last());
        let line = lines.last();
        if line.part.len() == 0 && line.multi && line.key == "EXDATE"@ {
            with_dates(before, text::split(line.value, ','), line.params)
        } else {
            before
        }
    }
}

/// Whether the date of a value was read as the one that it was written for, if that was in
/// full.
pub open spec fn value_kept(value: Text, params: Seq<(Text, Text)>) -> bool {
    forall|date: WireView|
        ical::in_full(date) && (text::trimmed(value), params) == #[trigger] ical::date_text(date)
            ==> ical::line_date("EXDATE"@, text::trimmed(value), params) == Some(date)
}

pub open spec fn values_kept(values: Seq<Text>, params: Seq<(Text, Text)>) -> bool {
    forall|i: int| 0 <= i < values.len() ==> value_kept(#[trigger] values[i], params)
}

/// Whether a line holds dates that are left out.
pub open spec fn leaves_out(line: LineView) -> bool {
    line.part.len() == 0 && line.multi && line.key == "EXDATE"@
}

/// Whether the dates that are left out were read as those that their lines were written
/// for.
pub open spec fn excluded_kept(lines: Seq<LineView>) -> bool {
    forall|i: int|
        0 <= i < lines.len() && leaves_out(#[trigger] lines[i]) ==> values_kept(
            text::split(lines[i].value, ','),
            lines[i].params,
        )
}

fn put_dates(list: &mut Vec<WireDate>, values: &Vec<String>, params: &Vec<(String, String)>)
    ensures
        values_kept(text::texts(values@), ical::pairs(params@)),
        ical::wire_views(final(list)@) == with_dates(
            ical::wire_views(old(list)@),
            text::texts(values@),
            ical::pairs(params@),
        ),
{
    let ghost start = ical::wire_views(list@);
    let ghost all = text::texts(values@);
    let mut i: usize = 0;
    while i < values.len()
        invariant
            i <= values@.len(),
            all == text::texts(values@),
            ical::wire_views(list@) == with_dates(
                start,
                all.take(i as int),
                ical::pairs(params@),
            ),
            forall|j: int| 0 <= j < i ==> value_kept(#[trigger] all[j], ical::pairs(params@)),
        decreases values@.len() - i,
    {
        assert(all.take(i + 1).drop_last() == all.take(i as int));
        assert(all.take(i + 1).last() == values@[i as int]@);
        assert(all[i as int] == values@[i as int]@);
        let ghost before = list@;
        if let Some(date) = ical::read_date("EXDATE", text::trim(values[i].as_str()), params) {
            list.push(date);
            assert(ical::wire_views(list@) == ical::wire_views(before).push(date@));
        }
        i += 1;
    }
    assert(all.take(all.len() as int) == all);
}

fn read_excluded(v: &Vec<Line>) -> (r: Vec<WireDate>)
    ensures
        ical::wire_views(r@) == excluded_in(ical::lines(v@)),
        excluded_kept(ical::lines(v@)),
{
    let ghost all = ical::lines(v@);
    let mut r: Vec<WireDate> = Vec::new();
    let mut i: usize = 0;
    assert(ical::wire_views(r@) == excluded_in(all.take(0)));
    while i < v.len()
        invariant
            i <= v@.len(),
            all == ical::lines(v@),
            ical::wire_views(r@) == excluded_in(all.take(i as int)),
            forall|j: int|
                0 <= j < i && leaves_out(#[trigger] all[j]) ==> values_kept(
                    text::split(all[j].value, ','),
                    all[j].params,
                ),
        decreases v@.len() - i,
    {
        assert(all.take(i + 1).drop_last() == all.take(i as int));
        assert(all.take(i + 1).last() == v@[i as int]@);
        assert(all[i as int] == v@[i as int]@);
        if v[i].part.as_str().is_empty() && v[i].multi && text::same(v[i].key.as_str(), "EXDATE") {
            let values = text::split_at_each(v[i].value.as_str(), ',');
            put_dates(&mut r, &values, &v[i].params);
        }
        i += 1;
    }
    assert(all.take(all.len() as int) == all);
    r
}

/// What is understood of a VEVENT.
pub open spec fn incoming_of(lines: Seq<LineView>) -> IncomingEventView {
    IncomingEventView {
        uid: ical::only_value(lines, "UID"@),
        summary: ical::filled(ical::only_value(lines, "SUMMARY"@)),
        start: ical::only_date(lines, "DTSTART"@),
        end: ical::only_date(lines, "DTEND"@),
        location: ical::filled(ical::only_value(lines, "LOCATION"@)),
        leads: leads_in(lines),
        categories: ical::categories_in(lines),
        rrule: ical::filled(ical::only_value(lines, "RRULE"@)),
        exdates: excluded_in(lines),
        recurrence_id: ical::only_date(lines, "RECURRENCE-ID"@),
    }
}

/// Whether the dates of a VEVENT were read as the ones that its lines were written for.
pub open spec fn dates_kept(lines: Seq<LineView>, incoming: IncomingEventView) -> bool {
    &&& ical::date_kept(ical::only_line(lines, "DTSTART"@), incoming.start)
    &&& ical::date_kept(ical::only_line(lines, "DTEND"@), incoming.end)
    &&& ical::date_kept(ical::only_line(lines, "RECURRENCE-ID"@), incoming.recurrence_id)
    &&& excluded_kept(lines)
}

pub fn incoming(lines: &Vec<Line>) -> (r: IncomingEvent)
    ensures
        r@ == incoming_of(ical::lines(lines@)),
        dates_kept(ical::lines(lines@), r@),
{
    IncomingEvent {
        uid: ical::find_value(lines, "UID"),
        summary: ical::fill(ical::find_value(lines, "SUMMARY")),
        start: ical::find_date(lines, "DTSTART"),
        end: ical::find_date(lines, "DTEND"),
        location: ical::fill(ical::find_value(lines, "LOCATION")),
        leads: read_leads(lines),
        categories: ical::categories(lines),
        rrule: ical::fill(ical::find_value(lines, "RRULE")),
        exdates: read_excluded(lines),
        recurrence_id: ical::find_date(lines, "RECURRENCE-ID"),
    }
}

#[derive(Debug, PartialEq)]
pub enum EventWriteError {
    NotCalendar(String),
    NoEvent,
    SeveralMasters(usize),
    NoMaster,
    Rdate,
}

impl EventWriteError {
    pub open spec fn words(self) -> Text {
        match self {
            EventWriteError::NotCalendar(why) => "body is not an iCalendar document: "@ + why@,
            EventWriteError::NoEvent => "body carries no VEVENT"@,
            EventWriteError::SeveralMasters(n) => "body carries "@ + text::decimal(n as nat)
                + " VEVENTs without RECURRENCE-ID; one resource holds one event"@,
            EventWriteError::NoMaster =>
                "body carries only replaced occurrences; the series itself is required"@,
            EventWriteError::Rdate => "RDATE is not supported"@,
        }
    }

    /// The error in words.
    pub fn message(&self) -> (r: String)
        ensures
            r@ == self.words(),
    {
        match self {
            EventWriteError::NotCalendar(why) => text::glue(
                "body is not an iCalendar document: ",
                why.as_str(),
            ),
            EventWriteError::NoEvent => "body carries no VEVENT".to_owned(),
            EventWriteError::SeveralMasters(n) => {
                let mut r = "body carries ".to_owned();
                r.append(text::number(*n as u64).as_str());
                r.append(" VEVENTs without RECURRENCE-ID; one resource holds one event");
                r
            },
            EventWriteError::NoMaster =>
                "body carries only replaced occurrences; the series itself is required".to_owned(),
            EventWriteError::Rdate => "RDATE is not supported".to_owned(),
        }
    }
}

/// Whether some component lists further dates.
pub open spec fn has_rdate(events: Seq<Seq<LineView>>) -> bool {
    exists|i: int| 0 <= i < events.len() && ical::only_value(#[trigger] events[i], "RDATE"@) is Some
}

/// The components that are no replacements of occurrences.
pub open spec fn masters(events: Seq<Seq<LineView>>) -> Seq<IncomingEventView>
    decreases events.len(),
{
    if events.len() == 0 {
        Seq::empty()
    } else {
        let before = masters(events.drop_last());
        let one = incoming_of(events.last());
        if one.recurrence_id is None {
            before.push(one)
        } else {
            before
        }
    }
}

/// The components that replace occurrences.
pub open spec fn replacing(events: Seq<Seq<LineView>>) -> Seq<IncomingEventView>
    decreases events.len(),
{
    if events.len() == 0 {
        Seq::empty()
    } else {
        let before = replacing(events.drop_last());
        let one = incoming_of(events.last());
        if one.recurrence_id is Some {
            before.push(one)
        } else {
            before
        }
    }
}

/// Whether the dates of all components were read as the ones that their lines were written
/// for.
pub open spec fn all_dates_kept(events: Seq<Seq<LineView>>) -> bool {
    forall|i: int|
        0 <= i < events.len() ==> dates_kept(#[trigger] events[i], incoming_of(events[i]))
}

/// What a document says of a series: exactly one master. A replaced occurrence of a
/// series without a rule means nothing.
pub open spec fn series_said(
    read: Result<Seq<Seq<LineView>>, Text>,
    r: Result<IncomingSeries, EventWriteError>,
) -> bool {
    match read {
        Err(why) => r matches Err(EventWriteError::NotCalendar(w)) && w@ == why,
        Ok(events) => if events.len() == 0 {
            r == Err::<IncomingSeries, EventWriteError>(EventWriteError::NoEvent)
        } else if has_rdate(events) {
            r == Err::<IncomingSeries, EventWriteError>(EventWriteError::Rdate)
        } else {
            &&& all_dates_kept(events)
            &&& if masters(events).len() == 0 {
                r == Err::<IncomingSeries, EventWriteError>(EventWriteError::NoMaster)
            } else if masters(events).len() == 1 {
                r matches Ok(series) && series@ == (IncomingSeriesView {
                    master: masters(events)[0],
                    replacements: if masters(events)[0].rrule is Some {
                        replacing(events)
                    } else {
                        Seq::empty()
                    },
                })
            } else {
                r matches Err(EventWriteError::SeveralMasters(n)) && n == masters(events).len()
            }
        },
    }
}

/// The series of a document that has been read.
pub fn series_from(read: Result<Vec<Vec<Line>>, String>) -> (r: Result<
    IncomingSeries,
    EventWriteError,
>)
    ensures
        series_said(ical::document(read), r),
{
    let events = match read {
        Err(why) => {
            return Err(EventWriteError::NotCalendar(why));
        },
        Ok(events) => events,
    };
    let ghost all = ical::components(events@);
    if events.len() == 0 {
        return Err(EventWriteError::NoEvent);
    }
    let mut i: usize = 0;
    while i < events.len()
        invariant
            i <= events@.len(),
            all == ical::components(events@),
            ical::document(read) == Ok::<Seq<Seq<LineView>>, Text>(all),
            all.len() > 0,
            forall|j: int| 0 <= j < i ==> ical::only_value(#[trigger] all[j], "RDATE"@) is None,
        decreases events@.len() - i,
    {
        if ical::find_value(&events[i], "RDATE").is_some() {
            assert(ical::only_value(all[i as int], "RDATE"@) is Some);
            return Err(EventWriteError::Rdate);
        }
        i += 1;
    }
    assert(!has_rdate(all));
    let mut master: Option<IncomingEvent> = None;
    let mut count: usize = 0;
    let mut replacements: Vec<IncomingEvent> = Vec::new();
    let mut k: usize = 0;
    assert(incoming_views(replacements@) == replacing(all.take(0)));
    while k < events.len()
        invariant
            k <= events@.len(),
            all == ical::components(events@),
            count == masters(all.take(k as int)).len(),
            count <= k,
            incoming_views(replacements@) == replacing(all.take(k as int)),
            match master {
                Some(m) => count > 0 && m@ == masters(all.take(k as int))[0],
                None => count == 0,
            },
            forall|j: int| 0 <= j < k ==> dates_kept(#[trigger] all[j], incoming_of(all[j])),
        decreases events@.len() - k,
    {
        assert(all.take(k + 1).drop_last() == all.take(k as int));
        assert(all.take(k + 1).last() == ical::lines(events@[k as int]@));
        let one = incoming(&events[k]);
        let ghost before = replacements@;
        if one.recurrence_id.is_none() {
            if master.is_none() {
                master = Some(one);
            }
            count += 1;
        } else {
            replacements.push(one);
            assert(incoming_views(replacements@) == incoming_views(before).push(one@));
        }
        k += 1;
    }
    assert(all.take(all.len() as int) == all);
    match master {
        None => Err(EventWriteError::NoMaster),
        Some(master) => if count == 1 {
            let replacements = if master.rrule.is_some() {
                replacements
            } else {
                Vec::new()
            };
            let series = IncomingSeries { master, replacements };
            assert(series@.replacements == (if masters(all)[0].rrule is Some {
                replacing(all)
            } else {
                Seq::empty()
            }));
            Ok(series)
        } else {
            Err(EventWriteError::SeveralMasters(count))
        },
    }
}

/// The master of a body and the components replacing its occurrences.
pub fn parse_series(body: &str) -> (r: Result<IncomingSeries, EventWriteError>)
    ensures
        series_said(ical::events_in(ical::terminated_text(body@)), r),
{
    series_from(ical::read_events(body))
}

/// The master of a body, for callers that handle plain events only.
pub fn parse_event(body: &str) -> (r: Result<IncomingEvent, EventWriteError>)
    ensures
        exists|series: Result<IncomingSeries, EventWriteError>|
            #[trigger] series_said(ical::events_in(ical::terminated_text(body@)), series) && (
            match series {
                Ok(series) => r == Ok::<IncomingEvent, EventWriteError>(series.master),
                Err(why) => r == Err::<IncomingEvent, EventWriteError>(why),
            }),
{
    match parse_series(body) {
        Ok(series) => Ok(series.master),
        Err(why) => Err(why),
    }
}

// ------------------------------------------------------------------ changes

#[derive(Debug, Clone, PartialEq)]
pub struct EventPatch {
    pub name: Option<String>,
    pub start: Option<Option<String>>,
    pub end: Option<Option<String>>,
    pub location: Option<Option<String>>,
    /// Option names for `reminder_lead`.
    pub reminders: Option<Vec<String>>,
    /// Option names for `tag`; an empty list clears the tags.
    pub tags: Option<Vec<String>>,
    /// `Some(None)` removes the recurrence.
    pub rrule: Option<Option<String>>,
    /// Dates in the space's shape; an empty list clears `exdate`.
    pub exdates: Option<Vec<String>>,
    /// Only on create: the master this object replaces an occurrence of.
    pub series: Option<String>,
    /// Only on create, beside `series`.
    pub occurrence: Option<String>,
    /// `deadline`; `Some(None)` clears it.
    pub deadline: Option<Option<String>>,
}

#[verifier::ext_equal]
pub struct EventPatchView {
    pub name: Option<Text>,
    pub start: Option<Option<Text>>,
    pub end: Option<Option<Text>>,
    pub location: Option<Option<Text>>,
    pub reminders: Option<Seq<Text>>,
    pub tags: Option<Seq<Text>>,
    pub rrule: Option<Option<Text>>,
    pub exdates: Option<Seq<Text>>,
    pub series: Option<Text>,
    pub occurrence: Option<Text>,
    pub deadline: Option<Option<Text>>,
}

impl View for EventPatch {
    type V = EventPatchView;

    open spec fn view(&self) -> EventPatchView {
        EventPatchView {
            name: text::text_of(self.name),
            start: writeback::text_change(self.start),
            end: writeback::text_change(self.end),
            location: writeback::text_change(self.location),
            reminders: writeback::list_change(self.reminders),
            tags: writeback::list_change(self.tags),
            rrule: writeback::text_change(self.rrule),
            exdates: writeback::list_change(self.exdates),
            series: text::text_of(self.series),
            occurrence: text::text_of(self.occurrence),
            deadline: writeback::text_change(self.deadline),
        }
    }
}

/// A patch that changes nothing.
pub open spec fn no_event_change() -> EventPatchView {
    EventPatchView {
        name: None,
        start: None,
        end: None,
        location: None,
        reminders: None,
        tags: None,
        rrule: None,
        exdates: None,
        series: None,
        occurrence: None,
        deadline: None,
    }
}

impl Default for EventPatch {
    fn default() -> (r: EventPatch)
        ensures
            r@ == no_event_change(),
    {
        EventPatch {
            name: None,
            start: None,
            end: None,
            location: None,
            reminders: None,
            tags: None,
            rrule: None,
            exdates: None,
            series: None,
            occurrence: None,
            deadline: None,
        }
    }
}

impl EventPatch {
    pub fn is_empty(&self) -> (r: bool)
        ensures
            r == (self@ == no_event_change()),
    {
        self.name.is_none() && self.start.is_none() && self.end.is_none()
            && self.location.is_none() && self.reminders.is_none() && self.tags.is_none()
            && self.rrule.is_none() && self.exdates.is_none() && self.series.is_none()
            && self.occurrence.is_none() && self.deadline.is_none()
    }
}

/// The space's shape of a date on the wire.
pub open spec fn stored_wire(value: WireView, config: CalendarConfig) -> Option<Text> {
    match ical::moment_of(value, config.timezone@) {
        Some(moment) => writeback::stored(moment, config.date_only_timezone@),
        None => None,
    }
}

/// Whether what is stored of a moment or a day is read as it again.
pub open spec fn moment_kept(value: Option<When>, config: CalendarConfig) -> bool {
    value matches Some(value) ==> writeback::text_kept(value, config.date_only_timezone@)
}

fn anytype_date(value: &WireDate, config: &CalendarConfig) -> (r: Option<String>)
    ensures
        text::text_of(r) == stored_wire(value@, *config),
        stored_second(value@, *config) matches Some(at) ==> writeback::names_second(r, at),
        moment_kept(ical::moment_of(value@, config.timezone@), *config),
{
    match ical::moment(value, &config.timezone) {
        Some(moment) => writeback::to_anytype(moment, &config.date_only_timezone),
        None => None,
    }
}

pub open spec fn stored_wire_in(value: Option<WireView>, config: CalendarConfig) -> Option<Text> {
    match value {
        Some(value) => stored_wire(value, config),
        None => None,
    }
}

fn anytype_date_in(value: &Option<WireDate>, config: &CalendarConfig) -> (r: Option<String>)
    ensures
        text::text_of(r) == stored_wire_in(ical::wire_view(*value), *config),
        moment_kept(ical::moment_in(ical::wire_view(*value), config.timezone@), *config),
{
    match value {
        Some(value) => anytype_date(value, config),
        None => None,
    }
}

/// The deadline a client moved an entry from `deadline_entry` to: its start.
pub fn deadline_from(incoming: &IncomingEvent, config: &CalendarConfig) -> (r: Option<String>)
    ensures
        text::text_of(r) == stored_wire_in(incoming@.start, *config),
        moment_kept(ical::moment_in(incoming@.start, config.timezone@), *config),
{
    anytype_date_in(&incoming.start, config)
}

/// DTEND as the space stores it: an exclusive all-day end becomes the last day; an
/// end that adds nothing to the start is no end at all.
pub open spec fn stored_end(
    start: Option<WireView>,
    end: Option<WireView>,
    config: CalendarConfig,
) -> Option<Text> {
    let first = ical::moment_in(start, config.timezone@);
    match ical::moment_in(end, config.timezone@) {
        None => None,
        Some(When::Day(day)) => if day <= time::FIRST_DAY || (first matches Some(
            When::Day(first_day),
        ) && day - 1 <= first_day) {
            None
        } else {
            writeback::stored(When::Day(day - 1), config.date_only_timezone@)
        },
        Some(moment) => if first == Some(moment) {
            None
        } else {
            writeback::stored(moment, config.date_only_timezone@)
        },
    }
}

/// The last day or the end of an event that a client sent: the last day of a whole-day
/// event lies before its DTEND. There is none where it adds nothing to the start.
pub open spec fn last_value(start: Option<When>, end: Option<When>) -> Option<When> {
    match end {
        Some(When::Day(day)) => if day <= time::FIRST_DAY || (start matches Some(
            When::Day(first_day),
        ) && day - 1 <= first_day) {
            None
        } else {
            Some(When::Day(day - 1))
        },
        _ => if start == end {
            None
        } else {
            end
        },
    }
}

/// DTEND back to the space's `end_date`.
fn anytype_end(start: &Option<WireDate>, end: &Option<WireDate>, config: &CalendarConfig) -> (r:
    Option<String>)
    ensures
        text::text_of(r) == stored_end(ical::wire_view(*start), ical::wire_view(*end), *config),
        moment_kept(
            last_value(
                ical::moment_in(ical::wire_view(*start), config.timezone@),
                ical::moment_in(ical::wire_view(*end), config.timezone@),
            ),
            *config,
        ),
{
    let end = match ical::moment_or_none(end, &config.timezone) {
        Some(end) => end,
        None => {
            return None;
        },
    };
    let first = ical::moment_or_none(start, &config.timezone);
    match end {
        Moment::Day(day) => {
            let number = day.number();
            if let Some(Moment::Day(first_day)) = first {
                if number - 1 <= first_day.number() {
                    return None;
                }
            }
            match day.previous() {
                Some(last) => writeback::to_anytype(Moment::Day(last), &config.date_only_timezone),
                None => None,
            }
        },
        Moment::At(at) => if ical::same_moment(first, Some(end)) {
            None
        } else {
            writeback::to_anytype(Moment::At(at), &config.date_only_timezone)
        },
    }
}

pub open spec fn raw_of(date: Option<DateView>) -> Option<Text> {
    match date {
        Some(date) => Some(date.raw),
        None => None,
    }
}

/// The seconds of leads.
pub open spec fn seconds_of(leads: Seq<(int, int)>) -> Seq<int> {
    Seq::new(leads.len(), |i: int| leads[i].0)
}

/// What differs between an event and what a client sent of it.
pub open spec fn event_update(
    current: EventView,
    incoming: IncomingEventView,
    config: CalendarConfig,
) -> EventPatchView {
    let tz = config.timezone@;
    let now = events::event_dates(current, config.date_only_timezone@, None);
    let now_start = match now {
        Some((start, _)) => Some(start),
        None => None,
    };
    let now_end = match now {
        Some((_, end)) => end,
        None => None,
    };
    let start_kept = ical::moment_in(now_start, tz) == ical::moment_in(incoming.start, tz);
    let end_kept = ical::moment_in(now_end, tz) == ical::moment_in(incoming.end, tz);
    let end = stored_end(incoming.start, incoming.end, config);
    let names = text::sorted_texts(names_of_leads(incoming.leads));
    EventPatchView {
        name: if incoming.summary is Some && incoming.summary->0 != current.name {
            incoming.summary
        } else {
            None
        },
        start: if start_kept {
            None
        } else {
            Some(stored_wire_in(incoming.start, config))
        },
        end: if (!end_kept || !start_kept) && end != raw_of(current.end) {
            Some(end)
        } else {
            None
        },
        location: if incoming.location != current.location {
            Some(incoming.location)
        } else {
            None
        },
        reminders: if names != text::sorted_texts(
            names_of_leads(seconds_of(events::leads_of(current.reminder_names))),
        ) {
            Some(names)
        } else {
            None
        },
        tags: writeback::tag_change(current.tags, incoming.categories),
        ..no_event_change()
    }
}

/// Whether the dates that an update writes are read as they were sent.
pub open spec fn update_kept(
    current: EventView,
    incoming: IncomingEventView,
    config: CalendarConfig,
) -> bool {
    let tz = config.timezone@;
    let start = ical::moment_in(incoming.start, tz);
    let end = ical::moment_in(incoming.end, tz);
    let (now_start, now_end) = match events::event_dates(
        current,
        config.date_only_timezone@,
        None,
    ) {
        Some((start, end)) => (ical::moment_of(start, tz), ical::moment_in(end, tz)),
        None => (None, None),
    };
    &&& start != now_start ==> moment_kept(start, config)
    &&& start != now_start || end != now_end ==> moment_kept(last_value(start, end), config)
}

pub fn event_patch_for_update(
    current: &Event,
    incoming: &IncomingEvent,
    config: &CalendarConfig,
) -> (r: EventPatch)
    ensures
        r@ == event_update(current@, incoming@, *config),
        update_kept(current@, incoming@, *config),
{
    let mut patch = EventPatch::default();
    if let Some(name) = &incoming.summary {
        if !text::same(name.as_str(), current.name.as_str()) {
            patch.name = Some(name.clone());
        }
    }
    let tz = &config.timezone;
    let (now_start, now_end) = match events::wire_dates(current, config) {
        Some((start, end)) => (Some(start), end),
        None => (None, None),
    };
    let start_kept = ical::same_moment(
        ical::moment_or_none(&now_start, tz),
        ical::moment_or_none(&incoming.start, tz),
    );
    let end_kept = ical::same_moment(
        ical::moment_or_none(&now_end, tz),
        ical::moment_or_none(&incoming.end, tz),
    );
    if !start_kept {
        patch.start = Some(anytype_date_in(&incoming.start, config));
    }
    if !end_kept || !start_kept {
        let end = anytype_end(&incoming.start, &incoming.end, config);
        let current_end = match &current.end {
            Some(end) => Some(end.raw.clone()),
            None => None,
        };
        if !text::same_text(&end, &current_end) {
            patch.end = Some(end);
        }
    }
    if !text::same_text(&incoming.location, &current.location) {
        patch.location = Some(text::copy_text(&incoming.location));
    }
    let names = text::sort_texts(&lead_names(&incoming.leads));
    let leads = current.leads();
    assert(lead_seconds(leads@) == seconds_of(events::spans(leads@)));
    let current_names = text::sort_texts(&lead_names(&leads));
    if !text::same_list(&names, &current_names) {
        patch.reminders = Some(names);
    }
    patch.tags = writeback::tags_patch(&current.tags, &incoming.categories);
    patch
}

/// The fields of an event that a client made.
pub open spec fn event_creation(incoming: IncomingEventView, config: CalendarConfig) -> EventPatchView {
    EventPatchView {
        name: Some(writeback::named_or_not(incoming.summary)),
        start: Some(stored_wire_in(incoming.start, config)),
        end: Some(stored_end(incoming.start, incoming.end, config)),
        location: match incoming.location {
            Some(location) => Some(Some(location)),
            None => None,
        },
        reminders: writeback::filled_list(names_of_leads(incoming.leads)),
        tags: writeback::filled_list(incoming.categories),
        ..no_event_change()
    }
}

/// Whether the dates that a new event is written with are read as they were sent.
pub open spec fn creation_kept(incoming: IncomingEventView, config: CalendarConfig) -> bool {
    let start = ical::moment_in(incoming.start, config.timezone@);
    let end = ical::moment_in(incoming.end, config.timezone@);
    moment_kept(start, config) && moment_kept(last_value(start, end), config)
}

pub fn event_patch_for_create(incoming: &IncomingEvent, config: &CalendarConfig) -> (r: EventPatch)
    ensures
        r@ == event_creation(incoming@, *config),
        creation_kept(incoming@, *config),
{
    let names = lead_names(&incoming.leads);
    EventPatch {
        name: Some(writeback::name_or_not(&incoming.summary)),
        start: Some(anytype_date_in(&incoming.start, config)),
        end: Some(anytype_end(&incoming.start, &incoming.end, config)),
        location: match &incoming.location {
            Some(location) => Some(Some(location.clone())),
            None => None,
        },
        reminders: writeback::list_or_none(&names),
        tags: writeback::list_or_none(&incoming.categories),
        rrule: None,
        exdates: None,
        series: None,
        occurrence: None,
        deadline: None,
    }
}

/// What a PUT of a series changes in the space.
#[derive(Debug, Clone, PartialEq)]
pub struct SeriesPlan {
    pub master: EventPatch,
    /// Existing replacement objects and their patches.
    pub update: Vec<(String, EventPatch)>,
    /// New replacement objects; each patch carries `series` and `occurrence`.
    pub create: Vec<EventPatch>,
    /// Replacement objects the body no longer has.
    pub archive: Vec<String>,
}

#[verifier::ext_equal]
pub struct SeriesPlanView {
    pub master: EventPatchView,
    pub update: Seq<(Text, EventPatchView)>,
    pub create: Seq<EventPatchView>,
    pub archive: Seq<Text>,
}

/// A plan that changes nothing.
pub open spec fn no_plan() -> SeriesPlanView {
    SeriesPlanView {
        master: no_event_change(),
        update: Seq::empty(),
        create: Seq::empty(),
        archive: Seq::empty(),
    }
}

pub open spec fn updates(v: Seq<(String, EventPatch)>) -> Seq<(Text, EventPatchView)> {
    Seq::new(v.len(), |i: int| (v[i].0@, v[i].1@))
}

pub open spec fn patches(v: Seq<EventPatch>) -> Seq<EventPatchView> {
    Seq::new(v.len(), |i: int| v[i]@)
}

impl View for SeriesPlan {
    type V = SeriesPlanView;

    open spec fn view(&self) -> SeriesPlanView {
        SeriesPlanView {
            master: self.master@,
            update: updates(self.update@),
            create: patches(self.create@),
            archive: text::texts(self.archive@),
        }
    }
}

impl Default for SeriesPlan {
    fn default() -> (r: SeriesPlan)
        ensures
            r@ == no_plan(),
    {
        let r = SeriesPlan {
            master: EventPatch::default(),
            update: Vec::new(),
            create: Vec::new(),
            archive: Vec::new(),
        };
        assert(r@ == no_plan());
        r
    }
}

impl SeriesPlan {
    pub fn is_empty(&self) -> (r: bool)
        ensures
            r == (self@.master == no_event_change() && self@.update.len() == 0
                && self@.create.len() == 0 && self@.archive.len() == 0),
    {
        self.master.is_empty() && self.update.len() == 0 && self.create.len() == 0
            && self.archive.len() == 0
    }
}

/// The moment of a wire date as it is stored: the key that replacements and
/// exclusions are matched by, whatever form carried it.
pub open spec fn stored_instant(value: WireView, config: CalendarConfig) -> Option<(Text, DateView)> {
    match stored_wire(value, config) {
        Some(stored) => match model::date_of(stored) {
            Some(date) => Some((stored, date)),
            None => None,
        },
        None => None,
    }
}

/// The second at which a wire date is stored, if that is without a fraction.
pub open spec fn stored_second(value: WireView, config: CalendarConfig) -> Option<int> {
    match ical::moment_of(value, config.timezone@) {
        Some(When::At(second, nano)) => if nano == 0 {
            Some(second)
        } else {
            None
        },
        Some(When::Day(day)) => time::first_moment(config.date_only_timezone@, day * 86_400),
        None => None,
    }
}

/// Whether what is stored of a wire date is read as its moment, where the year has four
/// digits.
pub open spec fn instant_kept(value: WireView, config: CalendarConfig) -> bool {
    stored_second(value, config) matches Some(at) ==> (writeback::in_four_digit_years(at) ==> (
    stored_instant(value, config) matches Some((_, date)) && date.second == at && date.nano == 0))
}

pub open spec fn instants_kept(values: Seq<WireView>, config: CalendarConfig) -> bool {
    forall|i: int| 0 <= i < values.len() ==> instant_kept(#[trigger] values[i], config)
}

fn instant_of(value: &WireDate, config: &CalendarConfig) -> (r: Option<(String, AnytypeDate)>)
    ensures
        instant_kept(value@, *config),
        match r {
            Some((stored, date)) => stored_instant(value@, *config) == Some((stored@, date@)),
            None => stored_instant(value@, *config) is None,
        },
{
    match anytype_date(value, config) {
        Some(stored) => {
            proof {
                if let Some(at) = stored_second(value@, *config) {
                    lemma_stored_is_trimmed(at);
                }
            }
            match AnytypeDate::parse(stored.as_str()) {
                Some(date) => Some((stored, date)),
                None => None,
            }
        },
        None => None,
    }
}

/// A stored second has no white space around it.
pub proof fn lemma_stored_is_trimmed(second: int)
    ensures
        text::trimmed(time::rfc3339_text(second, 0)) == time::rfc3339_text(second, 0),
{
    let s = time::rfc3339_text(second, 0);
    reveal_strlit("Z");
    time::lemma_dashed_day_begins(time::day_of(second));
    assert(s[0] == time::dashed_day(time::day_of(second))[0]);
    assert(s.last() == 'Z');
    text::lemma_trimmed_is_same(s);
}

/// The letters of a text in upper case, where they are ASCII.
pub open spec fn in_upper_case(s: Text) -> Text {
    Seq::new(
        s.len(),
        |i: int|
            if text::lower(s[i]) {
                (s[i] as int - 32) as char
            } else {
                s[i]
            },
    )
}

/// The parts of a rule: trimmed, in upper case, without empty ones.
pub open spec fn rule_parts(parts: Seq<Text>) -> Seq<Text>
    decreases parts.len(),
{
    if parts.len() == 0 {
        Seq::empty()
    } else {
        let before = rule_parts(parts.drop_last());
        let one = in_upper_case(text::trimmed(parts.last()));
        if one.len() > 0 {
            before.push(one)
        } else {
            before
        }
    }
}

/// The parts of a rule, or none.
pub open spec fn parts_of_rule(rule: Option<Text>) -> Seq<Text> {
    match rule {
        Some(rule) => rule_parts(text::split(rule, ';')),
        None => Seq::empty(),
    }
}

fn upper(s: &str) -> (r: String)
    ensures
        r@ == in_upper_case(s@),
{
    let v = text::chars_of(s);
    let mut r: String = String::new();
    let mut i: usize = 0;
    while i < v.len()
        invariant
            i <= v@.len(),
            v@ == s@,
            r@ == in_upper_case(s@).take(i as int),
        decreases v@.len() - i,
    {
        let c = v[i];
        let ghost before = r@;
        if 'a' <= c && c <= 'z' {
            r.push((c as u8 - 32) as char);
        } else {
            r.push(c);
        }
        i += 1;
        assert(in_upper_case(s@).take(i as int) == before.push(in_upper_case(s@)[i - 1]));
    }
    assert(in_upper_case(s@).take(i as int) == in_upper_case(s@));
    r
}

fn read_rule_parts(rule: &Option<String>) -> (r: Vec<String>)
    ensures
        text::texts(r@) == parts_of_rule(text::text_of(*rule)),
{
    let mut r: Vec<String> = Vec::new();
    assert(text::texts(r@) == Seq::<Text>::empty());
    if let Some(rule) = rule {
        let parts = text::split_at_each(rule.as_str(), ';');
        let ghost all = text::texts(parts@);
        let mut i: usize = 0;
        while i < parts.len()
            invariant
                i <= parts@.len(),
                all == text::texts(parts@),
                text::texts(r@) == rule_parts(all.take(i as int)),
            decreases parts@.len() - i,
        {
            assert(all.take(i + 1).drop_last() == all.take(i as int));
            assert(all.take(i + 1).last() == parts@[i as int]@);
            let one = upper(text::trim(parts[i].as_str()));
            let ghost before = r@;
            if !one.as_str().is_empty() {
                r.push(one);
                assert(text::texts(r@) == text::texts(before).push(one@));
            }
            i += 1;
        }
        assert(all.take(all.len() as int) == all);
    }
    r
}

/// Whether two rules have the same parts, in some order.
pub open spec fn rules_agree(a: Option<Text>, b: Option<Text>) -> bool {
    parts_of_rule(a).to_multiset() == parts_of_rule(b).to_multiset()
}

/// RRULE parts compare as a bag: clients reorder them.
pub fn same_rule(a: &Option<String>, b: &Option<String>) -> (r: bool)
    ensures
        r == rules_agree(text::text_of(*a), text::text_of(*b)),
{
    text::same_bag(&read_rule_parts(a), &read_rule_parts(b))
}

/// The excluded dates that a client sent, by their moments, with what is stored.
pub open spec fn wanted_dates(incoming: Seq<WireView>, config: CalendarConfig) -> Seq<(int, Text)>
    decreases incoming.len(),
{
    if incoming.len() == 0 {
        Seq::empty()
    } else {
        let before = wanted_dates(incoming.drop_last(), config);
        match stored_instant(incoming.last(), config) {
            Some((stored, date)) => order::insert_keyed(before, events::total_of(date), stored),
            None => before,
        }
    }
}

/// The moments of the dates that are excluded now.
pub open spec fn held_dates(current: Seq<DateView>) -> Seq<(int, ())>
    decreases current.len(),
{
    if current.len() == 0 {
        Seq::empty()
    } else {
        order::insert_keyed(
            held_dates(current.drop_last()),
            events::total_of(current.last()),
            (),
        )
    }
}

pub open spec fn numbers<T>(s: Seq<(int, T)>) -> Seq<int> {
    Seq::new(s.len(), |i: int| s[i].0)
}

pub open spec fn values<T>(s: Seq<(int, T)>) -> Seq<T> {
    Seq::new(s.len(), |i: int| s[i].1)
}

/// The new excluded dates, where they are other moments than before.
pub open spec fn excluded_change(
    current: Seq<DateView>,
    incoming: Seq<WireView>,
    config: CalendarConfig,
) -> Option<Seq<Text>> {
    let wanted = wanted_dates(incoming, config);
    if numbers(wanted) == numbers(held_dates(current)) {
        None
    } else {
        Some(values(wanted))
    }
}

/// Entries by the views of what they hold.
spec fn texts_by_number(s: Seq<(i128, String)>) -> Seq<(int, Text)> {
    Seq::new(s.len(), |i: int| (s[i].0 as int, s[i].1@))
}

proof fn lemma_insert_texts(s: Seq<(int, String)>, key: int, value: String)
    ensures
        Seq::new(
            order::insert_keyed(s, key, value).len(),
            |i: int|
                (
                    order::insert_keyed(s, key, value)[i].0,
                    order::insert_keyed(s, key, value)[i].1@,
                ),
        ) == order::insert_keyed(Seq::new(s.len(), |i: int| (s[i].0, s[i].1@)), key, value@),
    decreases s.len(),
{
    let t = Seq::new(s.len(), |i: int| (s[i].0, s[i].1@));
    if s.len() > 0 {
        assert(t.last() == (s.last().0, s.last().1@));
        assert(t.drop_last() =~= Seq::new(
            s.drop_last().len(),
            |i: int| (s.drop_last()[i].0, s.drop_last()[i].1@),
        ));
        if s.last().0 > key {
            lemma_insert_texts(s.drop_last(), key, value);
        }
    }
    assert(Seq::new(
        order::insert_keyed(s, key, value).len(),
        |i: int|
            (order::insert_keyed(s, key, value)[i].0, order::insert_keyed(s, key, value)[i].1@),
    ) =~= order::insert_keyed(t, key, value@));
}

fn exdates_patch(
    current: &Vec<AnytypeDate>,
    incoming: &Vec<WireDate>,
    config: &CalendarConfig,
) -> (r: Option<Vec<String>>)
    ensures
        writeback::list_change(r) == excluded_change(
            events::dates(current@),
            ical::wire_views(incoming@),
            *config,
        ),
        instants_kept(ical::wire_views(incoming@), *config),
{
    let ghost sent = ical::wire_views(incoming@);
    let ghost now = events::dates(current@);
    let mut wanted: Vec<(i128, String)> = Vec::new();
    let mut i: usize = 0;
    assert(texts_by_number(wanted@) == wanted_dates(sent.take(0), *config));
    while i < incoming.len()
        invariant
            i <= incoming@.len(),
            sent == ical::wire_views(incoming@),
            texts_by_number(wanted@) == wanted_dates(sent.take(i as int), *config),
            forall|j: int| 0 <= j < i ==> instant_kept(#[trigger] sent[j], *config),
        decreases incoming@.len() - i,
    {
        assert(sent[i as int] == incoming@[i as int]@);
        assert(sent.take(i + 1).drop_last() == sent.take(i as int));
        assert(sent.take(i + 1).last() == incoming@[i as int]@);
        if let Some((stored, date)) = instant_of(&incoming[i], config) {
            let at = date.parsed.in_nanos();
            let ghost before = wanted@;
            order::put_keyed(&mut wanted, at, stored);
            proof {
                lemma_insert_texts(order::keyed(before), at as int, stored);
                assert(texts_by_number(before) =~= Seq::new(
                    order::keyed(before).len(),
                    |i: int| (order::keyed(before)[i].0, order::keyed(before)[i].1@),
                ));
                assert(texts_by_number(wanted@) =~= Seq::new(
                    order::keyed(wanted@).len(),
                    |i: int| (order::keyed(wanted@)[i].0, order::keyed(wanted@)[i].1@),
                ));
            }
        }
        i += 1;
    }
    assert(sent.take(sent.len() as int) == sent);
    let mut have: Vec<(i128, ())> = Vec::new();
    let mut k: usize = 0;
    assert(order::keyed(have@) == held_dates(now.take(0)));
    while k < current.len()
        invariant
            k <= current@.len(),
            now == events::dates(current@),
            order::keyed(have@) == held_dates(now.take(k as int)),
        decreases current@.len() - k,
    {
        assert(now.take(k + 1).drop_last() == now.take(k as int));
        assert(now.take(k + 1).last() == current@[k as int]@);
        order::put_keyed(&mut have, current[k].parsed.in_nanos(), ());
        k += 1;
    }
    assert(now.take(now.len() as int) == now);
    let ghost a = numbers(wanted_dates(sent, *config));
    let ghost b = numbers(held_dates(now));
    assert(a.len() == wanted@.len() && b.len() == have@.len());
    let mut same = wanted.len() == have.len();
    let mut n: usize = 0;
    while same && n < wanted.len()
        invariant
            n <= wanted@.len(),
            a.len() == wanted@.len(),
            b.len() == have@.len(),
            forall|j: int| 0 <= j < a.len() ==> #[trigger] a[j] == wanted@[j].0,
            forall|j: int| 0 <= j < b.len() ==> #[trigger] b[j] == have@[j].0,
            same ==> a.len() == b.len() && forall|j: int| 0 <= j < n ==> a[j] == b[j],
            !same ==> a != b,
        decreases wanted@.len() - n,
    {
        if wanted[n].0 != have[n].0 {
            assert(a[n as int] != b[n as int]);
            same = false;
        }
        n += 1;
    }
    if same {
        assert(a =~= b);
        return None;
    }
    let mut r: Vec<String> = Vec::new();
    let mut m: usize = 0;
    while m < wanted.len()
        invariant
            m <= wanted@.len(),
            r@.len() == m,
            forall|j: int| 0 <= j < m ==> #[trigger] r@[j] == wanted@[j].1,
        decreases wanted@.len() - m,
    {
        r.push(wanted[m].1.clone());
        m += 1;
    }
    assert(text::texts(r@) =~= values(wanted_dates(sent, *config))) by {
        assert forall|j: int| 0 <= j < r@.len() implies text::texts(r@)[j] == values(
            wanted_dates(sent, *config),
        )[j] by {
            assert(texts_by_number(wanted@)[j] == (wanted@[j].0 as int, wanted@[j].1@));
        }
    }
    Some(r)
}

/// The first object from a place on that replaces the occurrence at a moment and has
/// not been matched yet.
pub open spec fn match_from(
    replacements: Seq<Event>,
    from: int,
    at: DateView,
    matched: Seq<Text>,
) -> Option<int>
    decreases replacements.len() - from,
{
    if from < 0 || from >= replacements.len() {
        None
    } else {
        let one = replacements[from]@;
        if one.occurrence is Some && one.occurrence->0.second == at.second
            && one.occurrence->0.nano == at.nano && !matched.contains(one.object_id) {
            Some(from)
        } else {
            match_from(replacements, from + 1, at, matched)
        }
    }
}

/// What has been planned for the replaced occurrences.
#[verifier::ext_equal]
pub struct Planning {
    pub update: Seq<(Text, EventPatchView)>,
    pub create: Seq<EventPatchView>,
    pub matched: Seq<Text>,
}

/// What is planned for these components: one whose occurrence an object replaces
/// already changes that object; another one makes an object.
pub open spec fn planned(
    wanted: Seq<IncomingEventView>,
    master: Text,
    replacements: Seq<Event>,
    config: CalendarConfig,
) -> Planning
    decreases wanted.len(),
{
    if wanted.len() == 0 {
        Planning { update: Seq::empty(), create: Seq::empty(), matched: Seq::empty() }
    } else {
        let before = planned(wanted.drop_last(), master, replacements, config);
        let one = wanted.last();
        let at = match one.recurrence_id {
            Some(value) => stored_instant(value, config),
            None => None,
        };
        match at {
            None => before,
            Some((stored, date)) => match match_from(replacements, 0, date, before.matched) {
                Some(i) => {
                    let existing = replacements[i]@;
                    let patch = event_update(existing, one, config);
                    Planning {
                        update: if patch == no_event_change() {
                            before.update
                        } else {
                            before.update.push((existing.object_id, patch))
                        },
                        matched: before.matched.push(existing.object_id),
                        ..before
                    }
                },
                None => Planning {
                    create: before.create.push(
                        EventPatchView {
                            series: Some(master),
                            occurrence: Some(stored),
                            ..event_creation(one, config)
                        },
                    ),
                    ..before
                },
            },
        }
    }
}

/// The ids of the objects that no component matched.
pub open spec fn unmatched(replacements: Seq<Event>, matched: Seq<Text>) -> Seq<Text>
    decreases replacements.len(),
{
    if replacements.len() == 0 {
        Seq::empty()
    } else {
        let before = unmatched(replacements.drop_last(), matched);
        if matched.contains(replacements.last()@.object_id) {
            before
        } else {
            before.push(replacements.last()@.object_id)
        }
    }
}

/// What a PUT of a series changes.
pub open spec fn series_update(
    current: EventView,
    replacements: Seq<Event>,
    incoming: IncomingSeriesView,
    config: CalendarConfig,
) -> SeriesPlanView {
    let rest = planned(incoming.replacements, current.object_id, replacements, config);
    SeriesPlanView {
        master: EventPatchView {
            rrule: if rules_agree(current.rrule, incoming.master.rrule) {
                None
            } else {
                Some(incoming.master.rrule)
            },
            exdates: excluded_change(current.exdates, incoming.master.exdates, config),
            ..event_update(current, incoming.master, config)
        },
        update: rest.update,
        create: rest.create,
        archive: unmatched(replacements, rest.matched),
    }
}

fn find_match(replacements: &Vec<Event>, at: &AnytypeDate, matched: &Vec<String>) -> (r: Option<
    usize,
>)
    ensures
        match r {
            Some(i) => i < replacements@.len() && match_from(
                replacements@,
                0,
                at@,
                text::texts(matched@),
            ) == Some(i as int),
            None => match_from(replacements@, 0, at@, text::texts(matched@)) is None,
        },
{
    let mut i: usize = 0;
    while i < replacements.len()
        invariant
            i <= replacements@.len(),
            match_from(replacements@, 0, at@, text::texts(matched@)) == match_from(
                replacements@,
                i as int,
                at@,
                text::texts(matched@),
            ),
        decreases replacements@.len() - i,
    {
        let one = &replacements[i];
        if let Some(occurrence) = &one.occurrence {
            if occurrence.parsed.seconds() == at.parsed.seconds() && occurrence.parsed.nanos()
                == at.parsed.nanos() && !text::listed(matched, one.object_id.as_str()) {
                return Some(i);
            }
        }
        i += 1;
    }
    None
}

fn not_matched(replacements: &Vec<Event>, matched: &Vec<String>) -> (r: Vec<String>)
    ensures
        text::texts(r@) == unmatched(replacements@, text::texts(matched@)),
{
    let mut r: Vec<String> = Vec::new();
    let mut i: usize = 0;
    assert(text::texts(r@) == unmatched(replacements@.take(0), text::texts(matched@)));
    while i < replacements.len()
        invariant
            i <= replacements@.len(),
            text::texts(r@) == unmatched(replacements@.take(i as int), text::texts(matched@)),
        decreases replacements@.len() - i,
    {
        assert(replacements@.take(i + 1).drop_last() == replacements@.take(i as int));
        assert(replacements@.take(i + 1).last() == replacements@[i as int]);
        let id = &replacements[i].object_id;
        let ghost before = r@;
        if !text::listed(matched, id.as_str()) {
            r.push(id.clone());
            assert(text::texts(r@) == text::texts(before).push(id@));
        }
        i += 1;
    }
    assert(replacements@.take(replacements@.len() as int) == replacements@);
    r
}

/// Whether what is stored of the dates that are left out and of those that are replaced is
/// read as their moments.
pub open spec fn series_instants_kept(incoming: IncomingSeriesView, config: CalendarConfig) -> bool {
    &&& instants_kept(incoming.master.exdates, config)
    &&& forall|i: int|
        0 <= i < incoming.replacements.len() ==> replaced_kept(
            #[trigger] incoming.replacements[i],
            config,
        )
}

pub open spec fn replaced_kept(one: IncomingEventView, config: CalendarConfig) -> bool {
    one.recurrence_id matches Some(value) ==> instant_kept(value, config)
}

pub fn plan_series_update(
    current: &Event,
    replacements: &Vec<Event>,
    incoming: &IncomingSeries,
    config: &CalendarConfig,
) -> (r: SeriesPlan)
    ensures
        r@ == series_update(current@, replacements@, incoming@, *config),
        series_instants_kept(incoming@, *config),
{
    let mut master = event_patch_for_update(current, &incoming.master, config);
    if !same_rule(&current.rrule, &incoming.master.rrule) {
        master.rrule = Some(text::copy_text(&incoming.master.rrule));
    }
    master.exdates = exdates_patch(&current.exdates, &incoming.master.exdates, config);
    let ghost sent = incoming_views(incoming.replacements@);
    let mut update: Vec<(String, EventPatch)> = Vec::new();
    let mut create: Vec<EventPatch> = Vec::new();
    let mut matched: Vec<String> = Vec::new();
    let mut i: usize = 0;
    proof {
        let nothing = planned(sent.take(0), current@.object_id, replacements@, *config);
        assert(updates(update@) == nothing.update);
        assert(patches(create@) == nothing.create);
        assert(text::texts(matched@) == nothing.matched);
    }
    while i < incoming.replacements.len()
        invariant
            i <= incoming.replacements@.len(),
            sent == incoming_views(incoming.replacements@),
            updates(update@) == planned(
                sent.take(i as int),
                current@.object_id,
                replacements@,
                *config,
            ).update,
            patches(create@) == planned(
                sent.take(i as int),
                current@.object_id,
                replacements@,
                *config,
            ).create,
            text::texts(matched@) == planned(
                sent.take(i as int),
                current@.object_id,
                replacements@,
                *config,
            ).matched,
            forall|j: int| 0 <= j < i ==> replaced_kept(#[trigger] sent[j], *config),
        decreases incoming.replacements@.len() - i,
    {
        assert(sent.take(i + 1).drop_last() == sent.take(i as int));
        assert(sent.take(i + 1).last() == incoming.replacements@[i as int]@);
        assert(sent[i as int] == incoming.replacements@[i as int]@);
        let wanted = &incoming.replacements[i];
        let found = match &wanted.recurrence_id {
            Some(value) => instant_of(value, config),
            None => None,
        };
        let ghost updated = update@;
        let ghost created = create@;
        let ghost so_far = matched@;
        if let Some((stored, date)) = found {
            match find_match(replacements, &date, &matched) {
                Some(k) => {
                    let existing = &replacements[k];
                    matched.push(existing.object_id.clone());
                    assert(text::texts(matched@) == text::texts(so_far).push(
                        existing.object_id@,
                    ));
                    let patch = event_patch_for_update(existing, wanted, config);
                    if !patch.is_empty() {
                        update.push((existing.object_id.clone(), patch));
                        assert(updates(update@) == updates(updated).push(
                            (existing.object_id@, patch@),
                        ));
                    }
                },
                None => {
                    let mut patch = event_patch_for_create(wanted, config);
                    patch.series = Some(current.object_id.clone());
                    patch.occurrence = Some(stored);
                    create.push(patch);
                    assert(patches(create@) == patches(created).push(patch@));
                },
            }
        }
        i += 1;
    }
    assert(sent.take(sent.len() as int) == sent);
    let archive = not_matched(replacements, &matched);
    SeriesPlan { master, update, create, archive }
}

/// The objects that replace occurrences of a new series.
pub open spec fn new_replacements(wanted: Seq<IncomingEventView>, config: CalendarConfig) -> Seq<
    EventPatchView,
>
    decreases wanted.len(),
{
    if wanted.len() == 0 {
        Seq::empty()
    } else {
        let before = new_replacements(wanted.drop_last(), config);
        let at = match wanted.last().recurrence_id {
            Some(value) => stored_instant(value, config),
            None => None,
        };
        match at {
            Some((stored, _)) => before.push(
                EventPatchView {
                    occurrence: Some(stored),
                    ..event_creation(wanted.last(), config)
                },
            ),
            None => before,
        }
    }
}

/// A new series: the master's patch and the replacements created after it.
pub fn plan_series_create(incoming: &IncomingSeries, config: &CalendarConfig) -> (r: (
    EventPatch,
    Vec<EventPatch>,
))
    ensures
        r.0@ == (EventPatchView {
            rrule: match incoming@.master.rrule {
                Some(rule) => Some(Some(rule)),
                None => None,
            },
            exdates: excluded_change(Seq::empty(), incoming@.master.exdates, *config),
            ..event_creation(incoming@.master, *config)
        }),
        patches(r.1@) == new_replacements(incoming@.replacements, *config),
{
    let mut master = event_patch_for_create(&incoming.master, config);
    master.rrule = match &incoming.master.rrule {
        Some(rule) => Some(Some(rule.clone())),
        None => None,
    };
    let nothing: Vec<AnytypeDate> = Vec::new();
    assert(events::dates(nothing@) == Seq::<DateView>::empty());
    master.exdates = exdates_patch(&nothing, &incoming.master.exdates, config);
    let ghost sent = incoming_views(incoming.replacements@);
    let mut list: Vec<EventPatch> = Vec::new();
    let mut i: usize = 0;
    assert(patches(list@) == new_replacements(sent.take(0), *config));
    while i < incoming.replacements.len()
        invariant
            i <= incoming.replacements@.len(),
            sent == incoming_views(incoming.replacements@),
            patches(list@) == new_replacements(sent.take(i as int), *config),
        decreases incoming.replacements@.len() - i,
    {
        assert(sent.take(i + 1).drop_last() == sent.take(i as int));
        assert(sent.take(i + 1).last() == incoming.replacements@[i as int]@);
        let wanted = &incoming.replacements[i];
        let found = match &wanted.recurrence_id {
            Some(value) => instant_of(value, config),
            None => None,
        };
        let ghost before = list@;
        if let Some((stored, _)) = found {
            let mut patch = event_patch_for_create(wanted, config);
            patch.occurrence = Some(stored);
            list.push(patch);
            assert(patches(list@) == patches(before).push(patch@));
        }
        i += 1;
    }
    assert(sent.take(sent.len() as int) == sent);
    (master, list)
}

// ------------------------------------------------------------------ laws

/// What a client sends back of an event unchanged changes nothing.
pub proof fn law_an_unchanged_event_changes_nothing(
    current: EventView,
    incoming: IncomingEventView,
    config: CalendarConfig,
)
    requires
        incoming.summary is None || incoming.summary == Some(current.name),
        events::event_dates(current, config.date_only_timezone@, None) matches Some((start, end))
            && incoming.start == Some(start) && incoming.end == end,
        incoming.location == current.location,
        text::sorted_texts(names_of_leads(incoming.leads)) == text::sorted_texts(
            names_of_leads(seconds_of(events::leads_of(current.reminder_names))),
        ),
        incoming.categories.to_multiset() == current.tags.to_multiset(),
    ensures
        event_update(current, incoming, config) == no_event_change(),
{
}

/// The exclusive end that is sent for an all-day event comes back as its last day.
pub proof fn law_an_all_day_end_comes_back(first: int, last: int, config: CalendarConfig)
    requires
        time::FIRST_DAY <= first < last < time::LAST_DAY,
    ensures
        events::day_behind(last) is Some,
        stored_end(Some(WireView::Date(first)), events::day_behind(last), config)
            == writeback::stored(When::Day(last), config.date_only_timezone@),
{
}

/// An all-day event of one day keeps no end.
pub proof fn law_one_day_has_no_end(day: int, config: CalendarConfig)
    requires
        time::FIRST_DAY <= day < time::LAST_DAY,
    ensures
        stored_end(Some(WireView::Date(day)), events::day_behind(day), config) is None,
{
}

proof fn lemma_matched(
    wanted: Seq<IncomingEventView>,
    master: Text,
    replacements: Seq<Event>,
    config: CalendarConfig,
    i: int,
)
    requires
        0 <= i < planned(wanted, master, replacements, config).update.len(),
    ensures
        planned(wanted, master, replacements, config).matched.contains(
            planned(wanted, master, replacements, config).update[i].0,
        ),
    decreases wanted.len(),
{
    let before = planned(wanted.drop_last(), master, replacements, config);
    let after = planned(wanted, master, replacements, config);
    if i < before.update.len() {
        lemma_matched(wanted.drop_last(), master, replacements, config, i);
        let k = choose|k: int|
            0 <= k < before.matched.len() && before.matched[k] == before.update[i].0;
        assert(after.matched[k] == before.update[i].0);
    } else {
        assert(after.matched.last() == after.update[i].0);
        assert(after.matched[after.matched.len() - 1] == after.update[i].0);
    }
}

proof fn lemma_unmatched(replacements: Seq<Event>, matched: Seq<Text>, k: int)
    requires
        0 <= k < unmatched(replacements, matched).len(),
    ensures
        !matched.contains(unmatched(replacements, matched)[k]),
    decreases replacements.len(),
{
    let before = unmatched(replacements.drop_last(), matched);
    if k < before.len() {
        lemma_unmatched(replacements.drop_last(), matched, k);
    }
}

/// No object that a PUT changes is archived by the same PUT.
pub proof fn law_what_is_updated_is_not_archived(
    current: EventView,
    replacements: Seq<Event>,
    incoming: IncomingSeriesView,
    config: CalendarConfig,
    i: int,
    k: int,
)
    requires
        0 <= i < series_update(current, replacements, incoming, config).update.len(),
        0 <= k < series_update(current, replacements, incoming, config).archive.len(),
    ensures
        series_update(current, replacements, incoming, config).update[i].0 != series_update(
            current,
            replacements,
            incoming,
            config,
        ).archive[k],
{
    lemma_matched(incoming.replacements, current.object_id, replacements, config, i);
    lemma_unmatched(
        replacements,
        planned(incoming.replacements, current.object_id, replacements, config).matched,
        k,
    );
}

// ------------------------------------------------------------------ triggers

proof fn lemma_trigger_joins(start: Option<(int, Text)>, a: Text, b: Text, in_time: bool)
    ensures
        trigger_after(start, a + b, in_time) == trigger_after(
            trigger_after(start, a, in_time),
            b,
            in_time,
        ),
    decreases b.len(),
{
    if b.len() == 0 {
        assert(a + b == a);
    } else {
        lemma_trigger_joins(start, a, b.drop_last(), in_time);
        assert((a + b).drop_last() == a + b.drop_last());
        assert((a + b).last() == b.last());
    }
}

proof fn lemma_digits_gathered(total: int, n: nat, in_time: bool)
    ensures
        text::digits_value(text::decimal(n)) == Some(n),
        trigger_after(Some((total, Seq::empty())), text::decimal(n), in_time) == Some(
            (total, text::decimal(n)),
        ),
    decreases n,
{
    let all = text::decimal(n);
    let start = Some((total, Seq::<char>::empty()));
    if n >= 10 {
        lemma_digits_gathered(total, n / 10, in_time);
        assert(all.drop_last() == text::decimal(n / 10));
    } else {
        assert(all.drop_last() == Seq::<char>::empty());
        assert(trigger_after(start, all.drop_last(), in_time) == start);
        assert(Seq::<char>::empty().push(all.last()) == all);
    }
}

proof fn lemma_unit_counted(total: int, n: nat, unit: char, in_time: bool)
    requires
        !text::digit(unit),
        unit_of(unit, in_time) is Some,
        n <= i64::MAX,
        total + n * unit_of(unit, in_time)->0 <= time::LONGEST,
    ensures
        trigger_after(
            Some((total, Seq::empty())),
            text::decimal(n).push(unit),
            in_time,
        ) == Some((total + n * unit_of(unit, in_time)->0, Seq::<char>::empty())),
{
    lemma_digits_gathered(total, n, in_time);
    assert(text::decimal(n).push(unit).drop_last() == text::decimal(n));
}

/// A trigger before the start is as long as its weeks, or its days, hours, minutes and
/// seconds, are together.
#[verifier::spinoff_prover]
pub proof fn law_a_trigger_is_as_long_as_its_parts(
    weeks: nat,
    days: nat,
    hours: nat,
    minutes: nat,
    seconds: nat,
)
    requires
        weeks * 604_800 <= time::LONGEST,
        days * 86_400 + hours * 3_600 + minutes * 60 + seconds <= time::LONGEST,
    ensures
        duration_seconds(text::decimal(weeks).push('W')) == Some(weeks as int * 604_800),
        duration_seconds(
            text::decimal(days).push('D').push('T') + (text::decimal(hours).push('H')
                + text::decimal(minutes).push('M') + text::decimal(seconds).push('S')),
        ) == Some(days as int * 86_400 + hours * 3_600 + minutes * 60 + seconds),
{
    let none = Some((0int, Seq::<char>::empty()));
    assert(time::LONGEST <= i64::MAX);
    let week = text::decimal(weeks).push('W');
    ical::lemma_decimal_figures(weeks);
    ical::lemma_decimal_figures(days);
    lemma_unit_counted(0, weeks, 'W', false);
    lemma_no_t(weeks, 'W');
    let ends = Seq::<char>::empty();
    assert(trigger_after(trigger_after(none, week, false), ends, true) == Some(
        (weeks as int * 604_800, ends),
    ));
    let date = text::decimal(days).push('D');
    let h = text::decimal(hours).push('H');
    let m = text::decimal(minutes).push('M');
    let s = text::decimal(seconds).push('S');
    let clock = h + m + s;
    let all = date.push('T') + clock;
    lemma_no_t(days, 'D');
    assert forall|j: int| 0 <= j < date.len() implies all[j] != 'T' by {
        assert(all[j] == date[j]);
    }
    assert(all[date.len() as int] == 'T');
    text::lemma_index_of(all, 'T', date.len() as int);
    assert(all.take(date.len() as int) == date);
    assert(all.skip(date.len() as int + 1) == clock);
    lemma_unit_counted(0, days, 'D', false);
    let total: int = days as int * 86_400;
    lemma_unit_counted(total, hours, 'H', true);
    lemma_unit_counted(total + hours * 3_600, minutes, 'M', true);
    assert(unit_of('S', true) == Some(1int));
    assert(seconds * unit_of('S', true)->0 == seconds) by (nonlinear_arith)
        requires
            unit_of('S', true)->0 == 1,
    ;
    lemma_unit_counted(total + hours * 3_600 + minutes * 60, seconds, 'S', true);
    let begin = Some((total, Seq::<char>::empty()));
    lemma_trigger_joins(begin, h, m, true);
    lemma_trigger_joins(begin, h + m, s, true);
}

proof fn lemma_no_t(n: nat, unit: char)
    requires
        unit != 'T',
    ensures
        forall|j: int|
            0 <= j < text::decimal(n).push(unit).len() ==> #[trigger] text::decimal(n).push(
                unit,
            )[j] != 'T',
        text::index_of(text::decimal(n).push(unit), 'T') == text::decimal(n).push(unit).len(),
{
    let s = text::decimal(n).push(unit);
    lemma_all_digits(n);
    assert forall|j: int| 0 <= j < s.len() implies #[trigger] s[j] != 'T' by {
        if j < text::decimal(n).len() {
            assert(text::digit(text::decimal(n)[j]));
        }
    }
    lemma_absent(s, 'T');
}

proof fn lemma_all_digits(n: nat)
    ensures
        forall|j: int|
            0 <= j < text::decimal(n).len() ==> text::digit(#[trigger] text::decimal(n)[j]),
    decreases n,
{
    if n >= 10 {
        lemma_all_digits(n / 10);
        assert(text::digit(text::digit_char((n % 10) as int)));
        assert(text::decimal(n) == text::decimal(n / 10).push(text::digit_char((n % 10) as int)));
    } else {
        assert(text::digit(text::digit_char(n as int)));
    }
}

proof fn lemma_absent(s: Text, c: char)
    requires
        forall|j: int| 0 <= j < s.len() ==> #[trigger] s[j] != c,
    ensures
        text::index_of(s, c) == s.len(),
    decreases s.len(),
{
    if s.len() > 0 {
        assert(s[0] != c);
        let rest = s.drop_first();
        assert forall|j: int| 0 <= j < rest.len() implies #[trigger] rest[j] != c by {
            assert(rest[j] == s[j + 1]);
        }
        lemma_absent(rest, c);
    }
}

/// Only a trigger before the start is a lead: it begins with a minus sign and a `P`, and
/// what follows is its length. At the start itself the sign may be missing.
pub proof fn law_only_what_is_before_the_start_is_a_lead(duration: Text, trigger: Text)
    requires
        text::trimmed("-P"@ + duration) == "-P"@ + duration,
    ensures
        before_seconds("-P"@ + duration) == duration_seconds(duration),
        !text::starts_with(text::trimmed(trigger), "-"@) && text::trimmed(trigger) != "PT0M"@
            && text::trimmed(trigger) != "P0D"@ ==> before_seconds(trigger) is None,
{
    reveal_strlit("-P");
    reveal_strlit("-");
    reveal_strlit("P");
    let all = "-P"@ + duration;
    assert(all.subrange(0, 1) == "-"@);
    let rest = all.subrange(1, all.len() as int);
    assert(rest.subrange(0, 1) == "P"@);
    assert(rest.subrange(1, rest.len() as int) == duration);
}

// ------------------------------------------------------------------ what a document says

proof fn lemma_parts_of_a_document(events: Seq<Seq<LineView>>, i: int)
    requires
        0 <= i < events.len(),
    ensures
        incoming_of(events[i]).recurrence_id is None ==> masters(events).contains(
            incoming_of(events[i]),
        ),
        incoming_of(events[i]).recurrence_id is Some ==> replacing(events).contains(
            incoming_of(events[i]),
        ),
        masters(events).len() + replacing(events).len() == events.len(),
    decreases events.len(),
{
    let front = events.drop_last();
    let one = incoming_of(events[i]);
    if front.len() == 0 {
        assert(masters(front).len() == 0 && replacing(front).len() == 0);
    } else {
        lemma_parts_of_a_document(front, if i < front.len() { i } else { 0 });
    }
    if i < front.len() {
        if one.recurrence_id is None {
            let m = choose|m: int| 0 <= m < masters(front).len() && masters(front)[m] == one;
            assert(masters(events)[m] == one);
        } else {
            let m = choose|m: int| 0 <= m < replacing(front).len() && replacing(front)[m] == one;
            assert(replacing(events)[m] == one);
        }
    } else {
        if one.recurrence_id is None {
            assert(masters(events)[masters(events).len() - 1] == one);
        } else {
            assert(replacing(events)[replacing(events).len() - 1] == one);
        }
    }
}

/// A document is taken in whole: the component without a RECURRENCE-ID is the series, and
/// every other one replaces an occurrence where the series has a rule. One with several
/// such components, with none or with further dates is refused.
pub proof fn law_a_document_is_taken_in_whole(
    events: Seq<Seq<LineView>>,
    r: Result<IncomingSeries, EventWriteError>,
    i: int,
)
    requires
        series_said(Ok(events), r),
        0 <= i < events.len(),
    ensures
        r matches Ok(series) ==> {
            &&& incoming_of(events[i]).recurrence_id is None ==> series@.master == incoming_of(
                events[i],
            )
            &&& incoming_of(events[i]).recurrence_id is Some && series@.master.rrule is Some
                ==> series@.replacements.contains(incoming_of(events[i]))
            &&& series@.master.rrule is Some ==> series@.replacements.len() == events.len() - 1
            &&& series@.master.rrule is None ==> series@.replacements.len() == 0
            &&& ical::only_value(events[i], "RDATE"@) is None
        },
        r is Err && !has_rdate(events) ==> masters(events).len() != 1,
{
    lemma_parts_of_a_document(events, i);
    if let Ok(series) = r {
        if incoming_of(events[i]).recurrence_id is None {
            let m = choose|m: int|
                0 <= m < masters(events).len() && masters(events)[m] == incoming_of(events[i]);
            assert(m == 0);
        }
    }
}

/// Every alarm before the start gives a lead, and there is no other; the leads come in
/// order, each once.
pub proof fn law_every_alarm_gives_a_lead(lines: Seq<LineView>, seconds: int)
    ensures
        leads_in(lines).contains(seconds) <==> exists|i: int|
            0 <= i < lines.len() && (#[trigger] lines[i]).part == "VALARM"@ && lines[i].key
                == "TRIGGER"@ && before_seconds(lines[i].value) == Some(seconds),
        forall|i: int, j: int|
            0 <= i < j < leads_in(lines).len() ==> leads_in(lines)[i] < leads_in(lines)[j],
{
    let found = triggers(lines);
    let sorted = order::sorted_keyed(found);
    let leads = leads_in(lines);
    order::law_sorted_keyed(found);
    lemma_triggers(lines, seconds);
    assert(order::has_key(sorted, seconds) <==> order::has_key(found, seconds));
    if leads.contains(seconds) {
        let m = choose|m: int| 0 <= m < leads.len() && leads[m] == seconds;
        assert(sorted[m].0 == seconds);
    }
    if order::has_key(sorted, seconds) {
        let m = choose|m: int| 0 <= m < sorted.len() && (#[trigger] sorted[m]).0 == seconds;
        assert(leads[m] == seconds);
    }
}

proof fn lemma_triggers(lines: Seq<LineView>, seconds: int)
    ensures
        order::has_key(triggers(lines), seconds) <==> exists|i: int|
            0 <= i < lines.len() && (#[trigger] lines[i]).part == "VALARM"@ && lines[i].key
                == "TRIGGER"@ && before_seconds(lines[i].value) == Some(seconds),
    decreases lines.len(),
{
    if lines.len() > 0 {
        let front = lines.drop_last();
        let before = triggers(front);
        let all = triggers(lines);
        let last = lines.len() - 1;
        lemma_triggers(front, seconds);
        assert(lines[last] == lines.last());
        if order::has_key(all, seconds) {
            let m = choose|m: int| 0 <= m < all.len() && (#[trigger] all[m]).0 == seconds;
            if m < before.len() {
                assert(before[m].0 == seconds);
                let i = choose|i: int|
                    0 <= i < front.len() && (#[trigger] front[i]).part == "VALARM"@ && front[i].key
                        == "TRIGGER"@ && before_seconds(front[i].value) == Some(seconds);
                assert(lines[i] == front[i]);
            }
        }
        if exists|i: int|
            0 <= i < lines.len() && (#[trigger] lines[i]).part == "VALARM"@ && lines[i].key
                == "TRIGGER"@ && before_seconds(lines[i].value) == Some(seconds) {
            let i = choose|i: int|
                0 <= i < lines.len() && (#[trigger] lines[i]).part == "VALARM"@ && lines[i].key
                    == "TRIGGER"@ && before_seconds(lines[i].value) == Some(seconds);
            if i < last {
                assert(front[i] == lines[i]);
                let m = choose|m: int| 0 <= m < before.len() && (#[trigger] before[m]).0 == seconds;
                assert(all[m].0 == seconds);
            } else {
                assert(all[all.len() - 1].0 == seconds);
            }
        }
    }
}

proof fn lemma_parts_join(a: Seq<Text>, b: Seq<Text>)
    ensures
        rule_parts(a + b) == rule_parts(a) + rule_parts(b),
    decreases b.len(),
{
    if b.len() == 0 {
        assert(a + b == a);
        assert(rule_parts(a) + rule_parts(b) == rule_parts(a));
    } else {
        lemma_parts_join(a, b.drop_last());
        assert((a + b).drop_last() == a + b.drop_last());
        assert((a + b).last() == b.last());
        let one = in_upper_case(text::trimmed(b.last()));
        if one.len() > 0 {
            assert(rule_parts(a) + rule_parts(b.drop_last()).push(one) == (rule_parts(a)
                + rule_parts(b.drop_last())).push(one));
        }
    }
}

/// The order of the parts of a rule means nothing: two rules agree where one has the parts
/// of the other, moved about. Where they agree, each has every part of the other.
pub proof fn law_the_order_of_a_rule_means_nothing(
    rule: Text,
    other: Text,
    a: Seq<Text>,
    b: Seq<Text>,
    part: Text,
)
    ensures
        text::split(rule, ';') == a + b && text::split(other, ';') == b + a ==> rules_agree(
            Some(rule),
            Some(other),
        ),
        rules_agree(Some(rule), Some(other)) ==> (parts_of_rule(Some(rule)).contains(part)
            <==> parts_of_rule(Some(other)).contains(part)),
        rules_agree(Some(rule), None) ==> parts_of_rule(Some(rule)).len() == 0,
{
    broadcast use vstd::seq_lib::group_to_multiset_ensures;

    if text::split(rule, ';') == a + b && text::split(other, ';') == b + a {
        lemma_parts_join(a, b);
        lemma_parts_join(b, a);
        vstd::seq_lib::lemma_multiset_commutative(rule_parts(a), rule_parts(b));
        vstd::seq_lib::lemma_multiset_commutative(rule_parts(b), rule_parts(a));
        assert(rule_parts(a).to_multiset().add(rule_parts(b).to_multiset()) =~= rule_parts(
            b,
        ).to_multiset().add(rule_parts(a).to_multiset()));
    }
    if rules_agree(Some(rule), Some(other)) {
        let one = parts_of_rule(Some(rule));
        let two = parts_of_rule(Some(other));
        assert(one.contains(part) <==> one.to_multiset().count(part) > 0);
        assert(two.contains(part) <==> two.to_multiset().count(part) > 0);
    }
    if rules_agree(Some(rule), None) {
        let one = parts_of_rule(Some(rule));
        assert(one.to_multiset().len() == one.len());
        assert(Seq::<Text>::empty().to_multiset().len() == 0);
    }
}

} // verus!
