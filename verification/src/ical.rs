//! iCalendar text: its lines, its dates and its components.
use chrono::Duration;
use icalendar::{Alarm, Calendar, Component, Event, Property, Todo};
use vstd::prelude::*;

use crate::fold;
use crate::nesting;
use crate::text;
use crate::text::Text;
use crate::time;
use crate::time::{Day, Instant, LocalTime, When, Zone};

verus! {

/// One line of a component, unfolded and unescaped.
#[derive(Debug)]
pub struct Line {
    /// The kind of the part that the line stands in, such as `VALARM`; empty for
    /// the component itself.
    pub part: String,
    /// Whether the component may hold several lines with this key.
    pub multi: bool,
    pub key: String,
    pub value: String,
    pub params: Vec<(String, String)>,
}

#[verifier::ext_equal]
pub struct LineView {
    pub part: Text,
    pub multi: bool,
    pub key: Text,
    pub value: Text,
    pub params: Seq<(Text, Text)>,
}

pub open spec fn pairs(v: Seq<(String, String)>) -> Seq<(Text, Text)> {
    Seq::new(v.len(), |i: int| (v[i].0@, v[i].1@))
}

impl View for Line {
    type V = LineView;

    open spec fn view(&self) -> LineView {
        LineView {
            part: self.part@,
            multi: self.multi,
            key: self.key@,
            value: self.value@,
            params: pairs(self.params@),
        }
    }
}

pub open spec fn lines(v: Seq<Line>) -> Seq<LineView> {
    Seq::new(v.len(), |i: int| v[i]@)
}

pub open spec fn components(v: Seq<Vec<Line>>) -> Seq<Seq<LineView>> {
    Seq::new(v.len(), |i: int| lines(v[i]@))
}

/// What a document was read as: the lines of its components, or why it could not
/// be read.
pub open spec fn document(r: Result<Vec<Vec<Line>>, String>) -> Result<Seq<Seq<LineView>>, Text> {
    match r {
        Ok(parts) => Ok(components(parts@)),
        Err(error) => Err(error@),
    }
}

/// The lines of a document's VTODOs.
pub uninterp spec fn todo_lines_in(body: Text) -> Result<Seq<Seq<LineView>>, Text>;

/// The lines of a document's VEVENTs, but for those of the parts in them.
pub uninterp spec fn event_lines_in(body: Text) -> Result<Seq<Seq<LineView>>, Text>;

/// The lines of the parts in a document's VEVENTs.
pub uninterp spec fn inner_lines_in(body: Text) -> Result<Seq<Seq<LineView>>, Text>;

/// Lists, each with the one at its place in another list behind it.
pub open spec fn zipped(own: Seq<Seq<LineView>>, inner: Seq<Seq<LineView>>) -> Seq<Seq<LineView>> {
    Seq::new(
        own.len(),
        |i: int|
            if i < inner.len() {
                own[i] + inner[i]
            } else {
                own[i]
            },
    )
}

/// What is said of a document whose components stand in too many others.
pub open spec fn too_deep() -> Text {
    "the components are nested too deeply"@
}

/// The VTODOs of a document.
pub open spec fn todos_in(body: Text) -> Result<Seq<Seq<LineView>>, Text> {
    if nesting::shallow(body) {
        todo_lines_in(body)
    } else {
        Err(too_deep())
    }
}

/// The VEVENTs of a document: the lines of each, and behind them those of its parts.
pub open spec fn events_in(body: Text) -> Result<Seq<Seq<LineView>>, Text> {
    if !nesting::shallow(body) {
        Err(too_deep())
    } else {
        match (event_lines_in(body), inner_lines_in(body)) {
            (Ok(own), Ok(inner)) => Ok(zipped(own, inner)),
            (Err(error), _) => Err(error),
            (_, Err(error)) => Err(error),
        }
    }
}

/// `<icalendar::Calendar as FromStr>::from_str` and `Calendar::todos`: the lines
/// of every VTODO, or the parser's error. They depend on the text alone. The parser
/// calls itself for every component in another, so there must not be too many.
#[verifier::external_body]
fn read_todo_lines(body: &str) -> (r: Result<Vec<Vec<Line>>, String>)
    requires
        nesting::shallow(body@),
    ensures
        document(r) == todo_lines_in(body@),
{
    let calendar: Calendar = body.parse()?;
    Ok(calendar.todos().map(|todo| {
        let one = todo.properties().values().map(|p| (false, p));
        let many = todo.multi_properties().values().flatten().map(|p| (true, p));
        one.chain(many).map(|(multi, p)| Line {
            part: String::new(), multi, key: p.key().to_owned(), value: p.value().to_owned(),
            params: p.params().values().map(|q| (q.key().to_owned(), q.value().to_owned())).collect(),
        }).collect()
    }).collect())
}

/// `<icalendar::Calendar as FromStr>::from_str` and `Calendar::events`: the lines of
/// every VEVENT but for its parts, or the parser's error. They depend on the text
/// alone. The parser calls itself for every component in another, so there must not be
/// too many.
#[verifier::external_body]
fn read_event_lines(body: &str) -> (r: Result<Vec<Vec<Line>>, String>)
    requires
        nesting::shallow(body@),
    ensures
        document(r) == event_lines_in(body@),
{
    let calendar: Calendar = body.parse()?;
    Ok(calendar.events().map(|event| {
        let one = event.properties().values().map(|p| (false, p));
        let many = event.multi_properties().values().flatten().map(|p| (true, p));
        one.chain(many).map(|(multi, p)| Line {
            part: String::new(), multi, key: p.key().to_owned(), value: p.value().to_owned(),
            params: p.params().values().map(|q| (q.key().to_owned(), q.value().to_owned())).collect(),
        }).collect()
    }).collect())
}

/// `<icalendar::Calendar as FromStr>::from_str`, `Calendar::events` and
/// `Component::components`: the lines of the parts in every VEVENT, or the parser's
/// error. They depend on the text alone. The parser calls itself for every component in
/// another, so there must not be too many.
#[verifier::external_body]
fn read_inner_lines(body: &str) -> (r: Result<Vec<Vec<Line>>, String>)
    requires
        nesting::shallow(body@),
    ensures
        document(r) == inner_lines_in(body@),
{
    let calendar: Calendar = body.parse()?;
    Ok(calendar.events().map(|event| {
        let inner = event.components().iter();
        inner.flat_map(|c| c.properties().values().map(|p| Line {
            part: c.component_kind(), multi: false, key: p.key().to_owned(), value: p.value().to_owned(),
            params: p.params().values().map(|q| (q.key().to_owned(), q.value().to_owned())).collect(),
        })).collect()
    }).collect())
}

/// Puts the lines of parts behind those of the components they stand in.
fn zip(own: Vec<Vec<Line>>, inner: Vec<Vec<Line>>) -> (r: Vec<Vec<Line>>)
    ensures
        components(r@) == zipped(components(own@), components(inner@)),
{
    let ghost first = own@;
    let ghost second = inner@;
    let mut own = own;
    let mut inner = inner;
    let mut r: Vec<Vec<Line>> = Vec::new();
    let mut i: usize = 0;
    while i < own.len()
        invariant
            i <= own@.len(),
            own@.len() == first.len(),
            inner@.len() == second.len(),
            forall|j: int| i <= j < own@.len() ==> own@[j] == first[j],
            forall|j: int| i <= j < inner@.len() ==> inner@[j] == second[j],
            r@.len() == i,
            forall|j: int|
                0 <= j < i ==> lines((#[trigger] r@[j])@) == zipped(
                    components(first),
                    components(second),
                )[j],
        decreases own@.len() - i,
    {
        let mut all: Vec<Line> = Vec::new();
        std::mem::swap(&mut all, &mut own[i]);
        if i < inner.len() {
            let mut behind: Vec<Line> = Vec::new();
            std::mem::swap(&mut behind, &mut inner[i]);
            all.append(&mut behind);
            assert(lines(all@) =~= lines(first[i as int]@) + lines(second[i as int]@));
        }
        r.push(all);
        i += 1;
    }
    assert(components(r@) =~= zipped(components(first), components(second)));
    r
}

pub fn read_todos(body: &str) -> (r: Result<Vec<Vec<Line>>, String>)
    ensures
        document(r) == todos_in(terminated_text(body@)),
{
    let body = terminated(body);
    if !nesting::is_shallow(body.as_str()) {
        return Err("the components are nested too deeply".to_owned());
    }
    read_todo_lines(body.as_str())
}

pub fn read_events(body: &str) -> (r: Result<Vec<Vec<Line>>, String>)
    ensures
        document(r) == events_in(terminated_text(body@)),
{
    let body = terminated(body);
    if !nesting::is_shallow(body.as_str()) {
        return Err("the components are nested too deeply".to_owned());
    }
    let own = match read_event_lines(body.as_str()) {
        Ok(own) => own,
        Err(error) => return Err(error),
    };
    match read_inner_lines(body.as_str()) {
        Ok(inner) => Ok(zip(own, inner)),
        Err(error) => Err(error),
    }
}

/// A text whose last line has a line break.
pub open spec fn terminated_text(body: Text) -> Text {
    if body.len() > 0 && body.last() == '\n' {
        body
    } else {
        body + "\r\n"@
    }
}

/// The parser rejects a document whose last line has no line break; some clients
/// and shell tools send one.
pub fn terminated(body: &str) -> (r: String)
    ensures
        r@ == terminated_text(body@),
{
    let n = body.unicode_len();
    if n > 0 && body.get_char(n - 1) == '\n' {
        body.to_owned()
    } else {
        text::glue(body, "\r\n")
    }
}

/// A date as a calendar client writes it.
#[derive(Debug, Clone, PartialEq, Eq)]
pub enum WireDate {
    /// A whole day.
    Date(Day),
    /// A moment in UTC.
    Utc(Instant),
    /// What the reader's own clock shows.
    Floating(LocalTime),
    /// What clocks in a zone show.
    Zoned(LocalTime, String),
}

/// A date on the wire as plain values.
#[verifier::ext_equal]
pub enum WireView {
    Date(int),
    Utc(int, int),
    Floating(int),
    Zoned(int, Text),
}

impl View for WireDate {
    type V = WireView;

    open spec fn view(&self) -> WireView {
        match self {
            WireDate::Date(day) => WireView::Date(day.nth()),
            WireDate::Utc(at) => WireView::Utc(at.second(), at.nano()),
            WireDate::Floating(local) => WireView::Floating(local.shown()),
            WireDate::Zoned(local, tzid) => WireView::Zoned(local.shown(), tzid@),
        }
    }
}

pub open spec fn wire_view(date: Option<WireDate>) -> Option<WireView> {
    match date {
        Some(date) => Some(date@),
        None => None,
    }
}

pub open spec fn wire_views(v: Seq<WireDate>) -> Seq<WireView> {
    Seq::new(v.len(), |i: int| v[i]@)
}

impl WireDate {
    pub fn copy(&self) -> (r: WireDate)
        ensures
            r == *self,
    {
        match self {
            WireDate::Date(day) => WireDate::Date(*day),
            WireDate::Utc(at) => WireDate::Utc(*at),
            WireDate::Floating(local) => WireDate::Floating(*local),
            WireDate::Zoned(local, tzid) => WireDate::Zoned(*local, tzid.clone()),
        }
    }
}

/// A date before it is known to be within reach: seconds throughout.
enum FarDate {
    Date(i64),
    Utc(i64, u32),
    Floating(i64),
    Zoned(i64, String),
}

spec fn far_view(date: Option<FarDate>) -> Option<WireView> {
    match date {
        Some(FarDate::Date(second)) => Some(WireView::Date(second as int)),
        Some(FarDate::Utc(second, nano)) => Some(WireView::Utc(second as int, nano as int)),
        Some(FarDate::Floating(second)) => Some(WireView::Floating(second as int)),
        Some(FarDate::Zoned(second, tzid)) => Some(WireView::Zoned(second as int, tzid@)),
        None => None,
    }
}

/// Whether the year of a date is written with four digits.
pub open spec fn four_digit_year(date: WireView) -> bool {
    let day = match date {
        WireView::Date(day) => day,
        WireView::Utc(second, _) => time::day_of(second),
        WireView::Floating(local) => time::day_of(local),
        WireView::Zoned(local, _) => time::day_of(local),
    };
    0 <= time::civil(day).0 <= 9999
}

/// A date by whole seconds: a day by the second at which it starts.
pub open spec fn in_seconds(date: WireView) -> WireView {
    match date {
        WireView::Date(day) => WireView::Date(day * 86_400),
        WireView::Utc(second, _) => WireView::Utc(second, 0),
        other => other,
    }
}

/// The date that a line holds: a whole day by the second at which it starts.
pub uninterp spec fn date_in(key: Text, value: Text, params: Seq<(Text, Text)>) -> Option<WireView>;

/// `icalendar::DatePerhapsTime::from_property`: what it reads depends on the
/// line's key, value and parameters. A date whose year has four digits is read as the
/// one it was written for, without a fraction of a second.
#[verifier::external_body]
fn read_wire(key: &str, value: &str, params: &Vec<(String, String)>) -> (r: Option<FarDate>)
    ensures
        far_view(r) == date_in(key@, value@, pairs(params@)),
        forall|date: WireView|
            four_digit_year(date) && (value@, pairs(params@)) == #[trigger] date_text(date)
                ==> far_view(r) == Some(in_seconds(date)),
{
    let mut property = icalendar::Property::new(key, value);
    params.iter().for_each(|(k, v)| { property.add_parameter(k, v); });
    Some(match icalendar::DatePerhapsTime::from_property(&property)? {
        icalendar::DatePerhapsTime::Date(d) => FarDate::Date(d.and_time(chrono::NaiveTime::MIN).and_utc().timestamp()),
        icalendar::DatePerhapsTime::DateTime(d) => match d {
            icalendar::CalendarDateTime::Utc(at) => FarDate::Utc(at.timestamp(), at.timestamp_subsec_nanos()),
            icalendar::CalendarDateTime::Floating(local) => FarDate::Floating(local.and_utc().timestamp()),
            icalendar::CalendarDateTime::WithTimezone { date_time, tzid } => FarDate::Zoned(date_time.and_utc().timestamp(), tzid),
        },
    })
}

/// A date of a line, where it is within reach.
pub open spec fn near(date: Option<WireView>) -> Option<WireView> {
    match date {
        Some(WireView::Date(second)) => if time::FIRST_LOCAL <= second
            <= time::LAST_LOCAL {
            Some(WireView::Date(time::day_of(second)))
        } else {
            None
        },
        Some(WireView::Utc(second, nano)) => if time::FIRST_SECOND <= second
            <= time::LAST_SECOND && time::moment_nanos(second, nano) {
            Some(WireView::Utc(second, nano))
        } else {
            None
        },
        Some(WireView::Floating(second)) => if time::FIRST_LOCAL <= second
            <= time::LAST_LOCAL {
            Some(WireView::Floating(second))
        } else {
            None
        },
        Some(WireView::Zoned(second, tzid)) => if time::FIRST_LOCAL <= second
            <= time::LAST_LOCAL {
            Some(WireView::Zoned(second, tzid))
        } else {
            None
        },
        None => None,
    }
}

/// The date that a line with this key, value and parameters holds.
pub open spec fn line_date(key: Text, value: Text, params: Seq<(Text, Text)>) -> Option<WireView> {
    near(date_in(key, value, params))
}

pub fn read_date(key: &str, value: &str, params: &Vec<(String, String)>) -> (r: Option<WireDate>)
    ensures
        wire_view(r) == line_date(key@, value@, pairs(params@)),
        forall|date: WireView|
            in_full(date) && (value@, pairs(params@)) == #[trigger] date_text(date)
                ==> wire_view(r) == Some(date),
{
    let far = read_wire(key, value, params);
    match far {
        None => None,
        Some(FarDate::Date(second)) => if time::FIRST_LOCAL <= second && second <= time::LAST_LOCAL {
            let (number, _) = time::split_second(second);
            match Day::new(number) {
                Some(day) => Some(WireDate::Date(day)),
                None => None,
            }
        } else {
            None
        },
        Some(FarDate::Utc(second, nano)) => match Instant::new(second, nano) {
            Some(at) => Some(WireDate::Utc(at)),
            None => None,
        },
        Some(FarDate::Floating(second)) => if time::FIRST_LOCAL <= second && second <= time::LAST_LOCAL {
            match LocalTime::new(second) {
                Some(local) => Some(WireDate::Floating(local)),
                None => None,
            }
        } else {
            None
        },
        Some(FarDate::Zoned(second, tzid)) => if time::FIRST_LOCAL <= second && second <= time::LAST_LOCAL {
            match LocalTime::new(second) {
                Some(local) => Some(WireDate::Zoned(local, tzid)),
                None => None,
            }
        } else {
            None
        },
    }
}

/// The first line of the component itself with a key of which it holds one.
pub open spec fn only_line(lines: Seq<LineView>, key: Text) -> Option<LineView>
    decreases lines.len(),
{
    if lines.len() == 0 {
        None
    } else if lines[0].part.len() == 0 && !lines[0].multi && lines[0].key == key {
        Some(lines[0])
    } else {
        only_line(lines.drop_first(), key)
    }
}

/// The value under a key of which a component holds one.
pub open spec fn only_value(lines: Seq<LineView>, key: Text) -> Option<Text> {
    match only_line(lines, key) {
        Some(line) => Some(line.value),
        None => None,
    }
}

/// The date under a key of which a component holds one.
pub open spec fn only_date(lines: Seq<LineView>, key: Text) -> Option<WireView> {
    match only_line(lines, key) {
        Some(line) => line_date(line.key, line.value, line.params),
        None => None,
    }
}

pub fn find_line<'a>(v: &'a Vec<Line>, key: &str) -> (r: Option<&'a Line>)
    ensures
        match r {
            Some(line) => only_line(lines(v@), key@) == Some(line@),
            None => only_line(lines(v@), key@) is None,
        },
{
    let mut i: usize = 0;
    assert(lines(v@).skip(0) == lines(v@));
    while i < v.len()
        invariant
            i <= v@.len(),
            only_line(lines(v@), key@) == only_line(lines(v@).skip(i as int), key@),
        decreases v@.len() - i,
    {
        let ghost rest = lines(v@).skip(i as int);
        assert(rest[0] == v@[i as int]@);
        assert(rest.drop_first() == lines(v@).skip(i + 1));
        if v[i].part.as_str().is_empty() && !v[i].multi && text::same(v[i].key.as_str(), key) {
            return Some(&v[i]);
        }
        i += 1;
    }
    None
}

pub fn find_value(v: &Vec<Line>, key: &str) -> (r: Option<String>)
    ensures
        text::text_of(r) == only_value(lines(v@), key@),
{
    match find_line(v, key) {
        Some(line) => Some(line.value.clone()),
        None => None,
    }
}

/// Whether a date is within reach and written in full: its year has four digits, and
/// it has no fraction of a second.
pub open spec fn in_full(date: WireView) -> bool {
    &&& four_digit_year(date)
    &&& near(Some(in_seconds(date))) == Some(date)
}

/// Whether a date was read as the one that its line was written for, if that was in
/// full.
pub open spec fn date_kept(line: Option<LineView>, read: Option<WireView>) -> bool {
    line matches Some(line) ==> forall|date: WireView|
        in_full(date) && (line.value, line.params) == #[trigger] date_text(date) ==> read == Some(
            date,
        )
}

pub fn find_date(v: &Vec<Line>, key: &str) -> (r: Option<WireDate>)
    ensures
        wire_view(r) == only_date(lines(v@), key@),
        date_kept(only_line(lines(v@), key@), wire_view(r)),
{
    match find_line(v, key) {
        Some(line) => read_date(line.key.as_str(), line.value.as_str(), &line.params),
        None => None,
    }
}

/// An optional text without white space around it, unless nothing is left.
pub open spec fn filled(s: Option<Text>) -> Option<Text> {
    match s {
        Some(s) => if text::trimmed(s).len() > 0 {
            Some(text::trimmed(s))
        } else {
            None
        },
        None => None,
    }
}

pub fn fill(s: Option<String>) -> (r: Option<String>)
    ensures
        text::text_of(r) == filled(text::text_of(s)),
{
    match s {
        Some(s) => {
            let t = text::trim(s.as_str());
            if t.is_empty() {
                None
            } else {
                Some(t.to_owned())
            }
        },
        None => None,
    }
}

/// `list` with the trimmed parts of a comma list behind it, each once.
pub open spec fn with_parts(list: Seq<Text>, parts: Seq<Text>) -> Seq<Text>
    decreases parts.len(),
{
    if parts.len() == 0 {
        list
    } else {
        let front = with_parts(list, parts.drop_last());
        let one = text::trimmed(parts.last());
        if one.len() > 0 && !front.contains(one) {
            front.push(one)
        } else {
            front
        }
    }
}

/// Every category of a component: several lines, each a comma list; trimmed, each
/// once, in order.
pub open spec fn categories_in(lines: Seq<LineView>) -> Seq<Text>
    decreases lines.len(),
{
    if lines.len() == 0 {
        Seq::empty()
    } else {
        let line = lines.last();
        let front = categories_in(lines.drop_last());
        if line.part.len() == 0 && line.multi && line.key == "CATEGORIES"@ {
            with_parts(front, text::split(line.value, ','))
        } else {
            front
        }
    }
}

fn put_parts(list: &mut Vec<String>, parts: &Vec<String>)
    ensures
        text::texts(final(list)@) == with_parts(text::texts(old(list)@), text::texts(parts@)),
{
    let ghost start = text::texts(list@);
    let ghost all = text::texts(parts@);
    let mut i: usize = 0;
    while i < parts.len()
        invariant
            i <= parts@.len(),
            all == text::texts(parts@),
            text::texts(list@) == with_parts(start, all.take(i as int)),
        decreases parts@.len() - i,
    {
        assert(all.take(i + 1).drop_last() == all.take(i as int));
        let ghost before = list@;
        let one = text::trim(parts[i].as_str());
        if !one.is_empty() && !text::listed(list, one) {
            list.push(one.to_owned());
            assert(text::texts(list@) == text::texts(before).push(one@));
        }
        i += 1;
    }
    assert(all.take(all.len() as int) == all);
}

/// Every CATEGORIES value of a component: several lines, each a comma list.
/// Trimmed, deduplicated, in order.
pub fn categories(v: &Vec<Line>) -> (r: Vec<String>)
    ensures
        text::texts(r@) == categories_in(lines(v@)),
{
    let mut r: Vec<String> = Vec::new();
    let mut i: usize = 0;
    assert(text::texts(r@) == Seq::<Text>::empty());
    while i < v.len()
        invariant
            i <= v@.len(),
            text::texts(r@) == categories_in(lines(v@).take(i as int)),
        decreases v@.len() - i,
    {
        assert(lines(v@).take(i + 1).drop_last() == lines(v@).take(i as int));
        assert(lines(v@).take(i + 1).last() == v@[i as int]@);
        if v[i].part.as_str().is_empty() && v[i].multi && text::same(
            v[i].key.as_str(),
            "CATEGORIES",
        ) {
            let parts = text::split_at_each(v[i].value.as_str(), ',');
            put_parts(&mut r, &parts);
        }
        i += 1;
    }
    assert(lines(v@).take(v@.len() as int) == lines(v@));
    r
}

/// The moment or the day that a date on the wire means to a reader in a zone.
pub open spec fn moment_of(value: WireView, zone: Text) -> Option<When> {
    match value {
        WireView::Date(day) => Some(When::Day(day)),
        WireView::Utc(second, nano) => Some(When::At(second, nano)),
        WireView::Floating(local) => match time::first_moment(zone, local) {
            Some(second) => Some(When::At(second, 0)),
            None => None,
        },
        WireView::Zoned(local, tzid) => match time::first_moment(
            if time::is_zone(tzid) {
                tzid
            } else {
                zone
            },
            local,
        ) {
            Some(second) => Some(When::At(second, 0)),
            None => None,
        },
    }
}

pub open spec fn moment_in(value: Option<WireView>, zone: Text) -> Option<When> {
    match value {
        Some(value) => moment_of(value, zone),
        None => None,
    }
}

/// A date on the wire, normalised so two spellings of one moment compare equal.
#[derive(Debug, Clone, Copy, PartialEq, Eq, Structural)]
pub enum Moment {
    Day(Day),
    At(Instant),
}

impl View for Moment {
    type V = When;

    open spec fn view(&self) -> When {
        match self {
            Moment::Day(day) => When::Day(day.nth()),
            Moment::At(at) => When::At(at.second(), at.nano()),
        }
    }
}

pub open spec fn when_view(m: Option<Moment>) -> Option<When> {
    match m {
        Some(m) => Some(m@),
        None => None,
    }
}

/// Whether two optional moments are the same.
pub fn same_moment(a: Option<Moment>, b: Option<Moment>) -> (r: bool)
    ensures
        r == (when_view(a) == when_view(b)),
{
    match (a, b) {
        (None, None) => true,
        (Some(Moment::Day(a)), Some(Moment::Day(b))) => a.number() == b.number(),
        (Some(Moment::At(a)), Some(Moment::At(b))) => a.seconds() == b.seconds() && a.nanos()
            == b.nanos(),
        _ => false,
    }
}

pub fn moment(value: &WireDate, zone: &Zone) -> (r: Option<Moment>)
    ensures
        when_view(r) == moment_of(value@, zone@),
{
    match value {
        WireDate::Date(day) => Some(Moment::Day(*day)),
        WireDate::Utc(at) => Some(Moment::At(*at)),
        WireDate::Floating(local) => match zone.earliest(local.seconds()) {
            Some(at) => Some(Moment::At(at)),
            None => None,
        },
        WireDate::Zoned(local, tzid) => {
            let found = match Zone::parse(tzid.as_str()) {
                Some(own) => own.earliest(local.seconds()),
                None => zone.earliest(local.seconds()),
            };
            match found {
                Some(at) => Some(Moment::At(at)),
                None => None,
            }
        },
    }
}

pub fn moment_or_none(value: &Option<WireDate>, zone: &Zone) -> (r: Option<Moment>)
    ensures
        when_view(r) == moment_in(wire_view(*value), zone@),
{
    match value {
        Some(value) => moment(value, zone),
        None => None,
    }
}

/// One line of a component of which it holds one.
pub open spec fn line_of(key: Text, value: Text, params: Seq<(Text, Text)>) -> LineView {
    LineView { part: Seq::empty(), multi: false, key, value, params }
}

/// One line of a component of which it may hold several.
pub open spec fn multi_of(key: Text, value: Text, params: Seq<(Text, Text)>) -> LineView {
    LineView { part: Seq::empty(), multi: true, key, value, params }
}

/// Puts a line without parameters behind the others.
pub fn put_line(list: &mut Vec<Line>, key: &str, value: String)
    ensures
        lines(final(list)@) == lines(old(list)@).push(line_of(key@, value@, Seq::empty())),
{
    let ghost before = list@;
    let line = Line {
        part: String::new(),
        multi: false,
        key: key.to_owned(),
        value,
        params: Vec::new(),
    };
    assert(line@ == line_of(key@, line.value@, Seq::empty()));
    list.push(line);
    assert(lines(list@) == lines(before).push(line@));
}

/// What a date is written as, and the parameters that say how to read it.
pub open spec fn date_text(date: WireView) -> (Text, Seq<(Text, Text)>) {
    match date {
        WireView::Date(day) => (time::compact_day(day), seq![("VALUE"@, "DATE"@)]),
        WireView::Utc(second, _) => (time::compact_second(second) + "Z"@, Seq::empty()),
        WireView::Floating(local) => (time::compact_second(local), Seq::empty()),
        WireView::Zoned(local, tzid) => (time::compact_second(local), seq![("TZID"@, tzid)]),
    }
}

/// The line of a date, if there is one.
pub open spec fn date_under(key: Text, date: Option<WireView>) -> Option<LineView> {
    match date {
        Some(date) => Some(line_of(key, date_text(date).0, date_text(date).1)),
        None => None,
    }
}

/// The line of a text, if there is one.
pub open spec fn text_under(key: Text, value: Option<Text>) -> Option<LineView> {
    match value {
        Some(value) => Some(line_of(key, value, Seq::empty())),
        None => None,
    }
}

/// Lines with one more behind them, if there is one.
pub open spec fn with_line(lines: Seq<LineView>, line: Option<LineView>) -> Seq<LineView> {
    match line {
        Some(line) => lines.push(line),
        None => lines,
    }
}

/// A line with a date.
pub fn date_line(key: &str, date: &WireDate, multi: bool) -> (r: Line)
    ensures
        r@ == (LineView {
            multi,
            ..line_of(key@, date_text(date@).0, date_text(date@).1)
        }),
{
    let mut params: Vec<(String, String)> = Vec::new();
    let value = match date {
        WireDate::Date(day) => {
            params.push(("VALUE".to_owned(), "DATE".to_owned()));
            day.compact()
        },
        WireDate::Utc(at) => {
            let mut r = time::second_label(at.seconds());
            r.append("Z");
            r
        },
        WireDate::Floating(local) => local.compact(),
        WireDate::Zoned(local, tzid) => {
            params.push(("TZID".to_owned(), tzid.clone()));
            local.compact()
        },
    };
    assert(pairs(params@) == date_text(date@).1);
    Line { part: String::new(), multi, key: key.to_owned(), value, params }
}

/// One event of a document: the lines of which it holds one, those of which it may
/// hold several, and the lines of its alarms.
pub struct Part {
    pub once: Vec<Line>,
    pub many: Vec<Line>,
    pub alarms: Vec<Vec<Line>>,
}

#[verifier::ext_equal]
pub struct PartView {
    pub once: Seq<LineView>,
    pub many: Seq<LineView>,
    pub alarms: Seq<Seq<LineView>>,
}

impl View for Part {
    type V = PartView;

    open spec fn view(&self) -> PartView {
        PartView {
            once: lines(self.once@),
            many: lines(self.many@),
            alarms: components(self.alarms@),
        }
    }
}

pub open spec fn parts(v: Seq<Part>) -> Seq<PartView> {
    Seq::new(v.len(), |i: int| v[i]@)
}

/// Whether a component says when it was made and what it is known by, so that
/// neither is made up when it is written.
pub open spec fn stamped(lines: Seq<LineView>) -> bool {
    &&& exists|i: int| 0 <= i < lines.len() && (#[trigger] lines[i]).key == "UID"@
    &&& exists|i: int| 0 <= i < lines.len() && (#[trigger] lines[i]).key == "DTSTAMP"@
}

/// The events and their alarms are all stamped.
pub open spec fn all_stamped(parts: Seq<PartView>) -> bool {
    forall|i: int|
        0 <= i < parts.len() ==> stamped((#[trigger] parts[i]).once) && forall|j: int|
            0 <= j < parts[i].alarms.len() ==> stamped(#[trigger] parts[i].alarms[j])
}

/// A character as it is written in a text.
pub open spec fn escaped_char(c: char) -> Text {
    if c == '\\' || c == ',' || c == ';' {
        seq!['\\', c]
    } else if c == '\n' {
        seq!['\\', 'n']
    } else {
        seq![c]
    }
}

/// A text as it is written.
pub open spec fn escaped(s: Text) -> Text
    decreases s.len(),
{
    if s.len() == 0 {
        Seq::empty()
    } else {
        escaped(s.drop_last()) + escaped_char(s.last())
    }
}

/// The keys of lines without parameters whose values are not in figures.
pub open spec fn worded_key(key: Text) -> bool {
    escaped_key(key) || key == "URL"@ || key == "RRULE"@ || key == "CATEGORIES"@
}

/// A line with such a key before it is folded: links, rules and categories are not
/// escaped.
pub open spec fn line_text(key: Text, value: Text) -> Text {
    key + ":"@ + (if escaped_key(key) {
        escaped(value)
    } else {
        value
    })
}

/// Whether a line with such a key folds.
pub open spec fn text_folds(key: Text, value: Text) -> bool {
    fold::foldable(line_text(key, value))
}

/// Whether lines with such a key all fold.
pub open spec fn texts_fold(key: Text, values: Seq<Text>) -> bool {
    forall|i: int| 0 <= i < values.len() ==> text_folds(key, #[trigger] values[i])
}

/// Whether a line with such a key folds, if there is one.
pub open spec fn text_folds_if_any(key: Text, value: Option<Text>) -> bool {
    value matches Some(value) ==> text_folds(key, value)
}

/// What an alarm is known by.
pub open spec fn numbered(owner: Text, index: int) -> Text {
    owner + "-"@ + text::decimal(index as nat)
}

/// Whether what some alarms are known by folds.
pub open spec fn numbers_fold(owner: Text, count: int) -> bool {
    forall|i: int| 0 <= i < count ==> text_folds("UID"@, #[trigger] numbered(owner, i))
}

/// Whether the name of a calendar can be written: the line with it folds, and so does the
/// one for clients that look for another key.
pub open spec fn name_folds(name: Text) -> bool {
    &&& fold::foldable("NAME:"@ + name)
    &&& fold::foldable("X-WR-CALNAME:"@ + escaped(name))
}

/// Whether a line is ASCII.
pub open spec fn ascii_line(line: LineView) -> bool {
    &&& fold::ascii(line.key)
    &&& fold::ascii(line.value)
    &&& forall|i: int|
        0 <= i < line.params.len() ==> fold::ascii((#[trigger] line.params[i]).0) && fold::ascii(
            line.params[i].1,
        )
}

/// Whether a line folds: it is ASCII, or a line of words that does.
pub open spec fn line_folds(line: LineView) -> bool {
    ascii_line(line) || line.params.len() == 0 && worded_key(line.key) && text_folds(
        line.key,
        line.value,
    )
}

pub open spec fn lines_fold(lines: Seq<LineView>) -> bool {
    forall|i: int| 0 <= i < lines.len() ==> line_folds(#[trigger] lines[i])
}

pub open spec fn part_folds(part: PartView) -> bool {
    &&& lines_fold(part.once)
    &&& lines_fold(part.many)
    &&& forall|i: int| 0 <= i < part.alarms.len() ==> lines_fold(#[trigger] part.alarms[i])
}

/// Whether every line of a document folds.
pub open spec fn document_folds(name: Text, zone: Text, parts: Seq<PartView>) -> bool {
    &&& name_folds(name)
    &&& fold::ascii(zone)
    &&& forall|i: int| 0 <= i < parts.len() ==> part_folds(#[trigger] parts[i])
}

/// The text of a document with these events.
pub uninterp spec fn calendar_text(name: Text, zone: Text, parts: Seq<PartView>) -> Text;

/// `icalendar::Calendar` written with `to_string`: the text depends on the name, the
/// zone and the lines of the events, where every event and alarm has its own UID and
/// DTSTAMP; the crate makes up those that are missing. It ends with a line break.
/// `from_str` unfolds what `to_string` folds and unescapes what it escapes, so lines that
/// hold no line feed, or one that is escaped, are read as they were written. Every line of
/// such a document is that of a property, or opens or closes the calendar, an event in it
/// or an alarm in that.
///
/// Every line must fold: `to_string` comes to no end, or panics, on one that does not. A
/// line is the key, the parameters and the value, where `\`, `,`, `;` and line feeds are
/// escaped in the UID, the summary, the description and the location, and in the second of
/// the lines with the calendar's name; in ASCII, lines of any kind fold.
#[verifier::external_body]
pub(crate) fn write_calendar(name: &str, zone: &str, events: &Vec<Part>) -> (r: String)
    requires
        all_stamped(parts(events@)),
        document_folds(name@, zone@, parts(events@)),
    ensures
        r@ == calendar_text(name@, zone@, parts(events@)),
        r@.len() > 0 && r@.last() == '\n',
        plain_document(name@, zone@, parts(events@)) ==> read_back(
            event_lines_in(r@),
            parts(events@),
        ),
        plain_document(name@, zone@, parts(events@)) ==> alarms_read_back(
            inner_lines_in(r@),
            parts(events@),
        ),
        plain_document(name@, zone@, parts(events@)) ==> nesting::shallow(r@),
{
    let line = |l: &Line| { let mut p = Property::new(&l.key, &l.value);
        for (k, v) in &l.params { p.add_parameter(k, v); } p };
    let mut calendar = Calendar::new(); calendar.name(name).timezone(zone);
    for part in events {
        let mut event = Event::new();
        for l in &part.once { event.append_property(line(l)); }
        for l in &part.many { event.append_multi_property(line(l)); }
        for lines in &part.alarms {
            let mut alarm = Alarm::display("", Duration::zero());
            for l in lines { alarm.append_property(line(l)); }
            event.append_component(alarm);
        }
        calendar.push(event);
    }
    calendar.to_string()
}

/// The lines of which a component may hold several.
pub open spec fn several(lines: Seq<LineView>) -> Seq<LineView>
    decreases lines.len(),
{
    if lines.len() == 0 {
        Seq::empty()
    } else if lines.last().multi {
        several(lines.drop_last()).push(lines.last())
    } else {
        several(lines.drop_last())
    }
}

/// The keys that a task, an event or an alarm holds once.
pub open spec fn single_key(key: Text) -> bool {
    ||| escaped_key(key)
    ||| key == "DTSTAMP"@
    ||| key == "SEQUENCE"@
    ||| key == "STATUS"@
    ||| key == "PERCENT-COMPLETE"@
    ||| key == "DTSTART"@
    ||| key == "DTEND"@
    ||| key == "DUE"@
    ||| key == "URL"@
    ||| key == "RRULE"@
    ||| key == "RECURRENCE-ID"@
    ||| key == "ACTION"@
    ||| key == "TRIGGER"@
}

/// The keys of texts in which line feeds are escaped.
pub open spec fn escaped_key(key: Text) -> bool {
    key == "UID"@ || key == "SUMMARY"@ || key == "DESCRIPTION"@ || key == "LOCATION"@
}

/// Whether a text has no line feed.
pub open spec fn unbroken(s: Text) -> bool {
    forall|i: int| 0 <= i < s.len() ==> #[trigger] s[i] != '\n'
}

/// Whether a parameter is read as it was written: the kind of a date, or the zone of
/// one, where its name needs no quotes.
pub open spec fn plain_param(param: (Text, Text)) -> bool {
    ||| param.0 == "VALUE"@ && (param.1 == "DATE"@ || param.1 == "DATE-TIME"@)
    ||| param.0 == "TZID"@ && bare_zone(param.1)
}

/// Whether the name of a zone needs no quotes.
pub open spec fn bare_zone(name: Text) -> bool {
    &&& name.len() > 0
    &&& forall|i: int|
        0 <= i < name.len() ==> #[trigger] name[i] != '"' && name[i] != ';' && name[i] != ':'
            && name[i] != ',' && name[i] != '\n'
}

/// Whether a line is read as it was written: it stays one line, with at most one
/// parameter.
pub open spec fn plain_line(line: LineView) -> bool {
    &&& line.part.len() == 0
    &&& !line.multi
    &&& single_key(line.key)
    &&& line.params.len() == 0 || line.params.len() == 1 && plain_param(line.params[0])
    &&& unbroken(line.value) || escaped_key(line.key) && line.params.len() == 0
}

/// Whether lines are read as they were written: they are plain, with one line of each key.
pub open spec fn plain_lines(lines: Seq<LineView>) -> bool {
    &&& forall|i: int| 0 <= i < lines.len() ==> plain_line(#[trigger] lines[i])
    &&& forall|i: int, j: int|
        0 <= i < j < lines.len() ==> (#[trigger] lines[i]).key != (#[trigger] lines[j]).key
}

/// Whether a line of which there may be several is read as it was written: a category, or
/// a date that is left out.
pub open spec fn plain_several(line: LineView) -> bool {
    &&& line.part.len() == 0
    &&& line.multi
    &&& line.key == "CATEGORIES"@ || line.key == "EXDATE"@
    &&& line.params.len() == 0 || line.params.len() == 1 && plain_param(line.params[0])
    &&& unbroken(line.value)
}

/// Whether a component is read as it was written: its lines and those of its alarms are
/// plain, and the dates that are left out stand behind the categories.
pub open spec fn plain_part(part: PartView) -> bool {
    &&& plain_lines(part.once)
    &&& forall|i: int| 0 <= i < part.many.len() ==> plain_several(#[trigger] part.many[i])
    &&& forall|i: int, j: int|
        0 <= i < j < part.many.len() ==> (#[trigger] part.many[i]).key == "CATEGORIES"@ || (
        #[trigger] part.many[j]).key == "EXDATE"@
    &&& forall|i: int| 0 <= i < part.alarms.len() ==> plain_lines(#[trigger] part.alarms[i])
}

/// Whether a document is read as it was written.
pub open spec fn plain_document(name: Text, zone: Text, parts: Seq<PartView>) -> bool {
    &&& unbroken(name)
    &&& unbroken(zone)
    &&& forall|i: int| 0 <= i < parts.len() ==> plain_part(#[trigger] parts[i])
}

/// Whether the components that were read hold the lines of those that were written,
/// those of their alarms aside.
pub open spec fn read_back(read: Result<Seq<Seq<LineView>>, Text>, parts: Seq<PartView>) -> bool {
    &&& read matches Ok(own)
    &&& own.len() == parts.len()
    &&& forall|i: int, j: int|
        0 <= i < own.len() && 0 <= j < own[i].len() ==> (#[trigger] own[i][j]).part.len() == 0
    &&& forall|i: int, key: Text|
        0 <= i < own.len() ==> #[trigger] only_line(own[i], key) == only_line(parts[i].once, key)
    &&& forall|i: int| 0 <= i < own.len() ==> #[trigger] several(own[i]) == parts[i].many
}

/// The lines with a key.
pub open spec fn under(lines: Seq<LineView>, key: Text) -> Seq<LineView>
    decreases lines.len(),
{
    if lines.len() == 0 {
        Seq::empty()
    } else if lines.last().key == key {
        under(lines.drop_last(), key).push(lines.last())
    } else {
        under(lines.drop_last(), key)
    }
}

/// The lines of alarms under a key that all of them have.
pub open spec fn of_alarms(alarms: Seq<Seq<LineView>>, key: Text) -> Seq<LineView> {
    Seq::new(
        alarms.len(),
        |i: int| LineView { part: "VALARM"@, ..only_line(alarms[i], key)->0 },
    )
}

/// Whether the lines that were read of the parts of components are those that were
/// written for their alarms.
pub open spec fn alarms_read_back(
    read: Result<Seq<Seq<LineView>>, Text>,
    parts: Seq<PartView>,
) -> bool {
    &&& read matches Ok(inner)
    &&& inner.len() == parts.len()
    &&& forall|i: int, j: int|
        0 <= i < inner.len() && 0 <= j < inner[i].len() ==> (#[trigger] inner[i][j]).part
            == "VALARM"@ && !inner[i][j].multi
    &&& forall|i: int, key: Text|
        0 <= i < inner.len() && (forall|j: int|
            0 <= j < parts[i].alarms.len() ==> only_line(#[trigger] parts[i].alarms[j], key) is Some)
            ==> #[trigger] under(inner[i], key) == of_alarms(parts[i].alarms, key)
}

/// The line under a key that no line before it has.
pub proof fn lemma_only_line(lines: Seq<LineView>, i: int)
    requires
        0 <= i < lines.len(),
        lines[i].part.len() == 0 && !lines[i].multi,
        forall|j: int| 0 <= j < i ==> (#[trigger] lines[j]).key != lines[i].key,
    ensures
        only_line(lines, lines[i].key) == Some(lines[i]),
    decreases i,
{
    if i > 0 {
        let rest = lines.drop_first();
        assert(lines[0].key != lines[i].key);
        assert forall|j: int| 0 <= j < i - 1 implies (#[trigger] rest[j]).key
            != rest[i - 1].key by {
            assert(rest[j] == lines[j + 1]);
        }
        lemma_only_line(rest, i - 1);
    }
}

/// There is no line under a key that no line has.
pub proof fn lemma_no_line(lines: Seq<LineView>, key: Text)
    requires
        forall|j: int| 0 <= j < lines.len() ==> (#[trigger] lines[j]).key != key,
    ensures
        only_line(lines, key) is None,
    decreases lines.len(),
{
    if lines.len() > 0 {
        let rest = lines.drop_first();
        assert(lines[0].key != key);
        assert forall|j: int| 0 <= j < rest.len() implies (#[trigger] rest[j]).key != key by {
            assert(rest[j] == lines[j + 1]);
        }
        lemma_no_line(rest, key);
    }
}

/// A line behind others is found where none of them has its key.
pub proof fn lemma_only_push(lines: Seq<LineView>, line: LineView, key: Text)
    requires
        line.part.len() == 0 && !line.multi,
    ensures
        only_line(lines.push(line), key) == match only_line(lines, key) {
            Some(found) => Some(found),
            None => if line.key == key {
                Some(line)
            } else {
                None
            },
        },
    decreases lines.len(),
{
    let all = lines.push(line);
    if lines.len() > 0 {
        assert(all.drop_first() == lines.drop_first().push(line));
        lemma_only_push(lines.drop_first(), line, key);
    } else {
        assert(all.drop_first() == Seq::<LineView>::empty());
        assert(only_line(all.drop_first(), key) is None);
    }
}

/// Categories are told by the lines of which there may be several.
pub proof fn lemma_categories_are_several(lines: Seq<LineView>)
    ensures
        categories_in(lines) == categories_in(several(lines)),
    decreases lines.len(),
{
    if lines.len() > 0 {
        let front = several(lines.drop_last());
        lemma_categories_are_several(lines.drop_last());
        if lines.last().multi {
            assert(front.push(lines.last()).drop_last() == front);
        }
    }
}

/// Lines of parts are not lines of the component itself.
pub proof fn lemma_parts_aside(own: Seq<LineView>, inner: Seq<LineView>, key: Text)
    requires
        forall|j: int| 0 <= j < inner.len() ==> (#[trigger] inner[j]).part.len() > 0,
    ensures
        only_line(own + inner, key) == only_line(own, key),
    decreases own.len() + inner.len(),
{
    let all = own + inner;
    if own.len() > 0 {
        assert(all.drop_first() == own.drop_first() + inner);
        lemma_parts_aside(own.drop_first(), inner, key);
    } else if inner.len() > 0 {
        let rest = inner.drop_first();
        assert forall|j: int| 0 <= j < rest.len() implies (#[trigger] rest[j]).part.len() > 0 by {
            assert(rest[j] == inner[j + 1]);
        }
        assert(inner[0].part.len() > 0);
        assert(all.drop_first() == own + rest);
        lemma_parts_aside(own, rest, key);
    } else {
        assert(all == own);
    }
}

/// Lines of which there is one do not add to those of which there are several.
pub proof fn lemma_several_aside(own: Seq<LineView>, inner: Seq<LineView>)
    requires
        forall|j: int| 0 <= j < inner.len() ==> !(#[trigger] inner[j]).multi,
    ensures
        several(own + inner) == several(own),
    decreases inner.len(),
{
    let all = own + inner;
    if inner.len() > 0 {
        let front = inner.drop_last();
        assert forall|j: int| 0 <= j < front.len() implies !(#[trigger] front[j]).multi by {
            assert(front[j] == inner[j]);
        }
        assert(!inner[inner.len() - 1].multi);
        assert(all.drop_last() == own + front);
        lemma_several_aside(own, front);
    } else {
        assert(all == own);
    }
}

/// A line for each category.
pub open spec fn category_lines(tags: Seq<Text>) -> Seq<LineView> {
    Seq::new(tags.len(), |i: int| multi_of("CATEGORIES"@, tags[i], Seq::empty()))
}

/// Whether a text is one category: it is not empty, has no white space around it and no
/// comma in it.
pub open spec fn one_category(tag: Text) -> bool {
    &&& tag.len() > 0
    &&& text::trimmed(tag) == tag
    &&& forall|i: int| 0 <= i < tag.len() ==> #[trigger] tag[i] != ','
}

/// Categories on a line each are read as they were written.
pub proof fn lemma_categories_kept(tags: Seq<Text>)
    requires
        forall|i: int| 0 <= i < tags.len() ==> one_category(#[trigger] tags[i]),
        tags.no_duplicates(),
    ensures
        categories_in(category_lines(tags)) == tags,
    decreases tags.len(),
{
    let lines = category_lines(tags);
    if tags.len() > 0 {
        let front = tags.drop_last();
        let tag = tags.last();
        assert(one_category(tags[tags.len() - 1]));
        assert forall|i: int| 0 <= i < front.len() implies one_category(#[trigger] front[i]) by {
            assert(front[i] == tags[i]);
        }
        lemma_categories_kept(front);
        assert(lines.drop_last() == category_lines(front));
        text::lemma_one_part(tag, ',');
        let parts = seq![tag];
        assert(parts.drop_last() == Seq::<Text>::empty());
        assert(with_parts(front, Seq::<Text>::empty()) == front);
        assert(!front.contains(tag)) by {
            if front.contains(tag) {
                let i = choose|i: int| 0 <= i < front.len() && front[i] == tag;
                assert(tags[i] == tags[tags.len() - 1]);
            }
        }
        assert(front.push(tag) == tags);
    }
}

/// An alarm of five plain lines under the keys that alarms have.
pub proof fn lemma_plain_alarm(lines: Seq<LineView>)
    requires
        lines.len() == 5,
        lines[0].key == "ACTION"@,
        lines[1].key == "DESCRIPTION"@,
        lines[2].key == "TRIGGER"@,
        lines[3].key == "UID"@,
        lines[4].key == "DTSTAMP"@,
        plain_line(lines[0]) && plain_line(lines[1]) && plain_line(lines[2]) && plain_line(lines[3])
            && plain_line(lines[4]),
    ensures
        plain_lines(lines),
        only_line(lines, "TRIGGER"@) == Some(lines[2]),
{
    reveal_strlit("ACTION");
    reveal_strlit("DESCRIPTION");
    reveal_strlit("TRIGGER");
    reveal_strlit("UID");
    reveal_strlit("DTSTAMP");
    assert("ACTION"@.len() == 6 && "DESCRIPTION"@.len() == 11 && "UID"@.len() == 3);
    assert("TRIGGER"@.len() == 7 && "DTSTAMP"@.len() == 7);
    assert("TRIGGER"@[0] == 'T' && "DTSTAMP"@[0] == 'D');
    lemma_only_line(lines, 2);
}

/// Whether a text is made of letters, digits and signs.
pub open spec fn figures(s: Text) -> bool {
    forall|i: int| 0 <= i < s.len() ==> text::alphanumeric(#[trigger] s[i]) || s[i] == '+' || s[i]
        == '-'
}

/// Figures stay on a line, are no list and have no white space around them.
pub proof fn lemma_figures(s: Text)
    requires
        figures(s),
    ensures
        unbroken(s),
        text::split(s, ',') == seq![s],
        text::trimmed(s) == s,
{
    assert(!s.contains(',')) by {
        if s.contains(',') {
            let i = choose|i: int| 0 <= i < s.len() && s[i] == ',';
            assert(text::alphanumeric(s[i]) || s[i] == '+' || s[i] == '-');
        }
    }
    text::lemma_one_part(s, ',');
    if s.len() > 0 {
        assert(text::alphanumeric(s[0]) || s[0] == '+' || s[0] == '-');
        assert(text::alphanumeric(s[s.len() - 1]) || s.last() == '+' || s.last() == '-');
        text::lemma_trimmed_is_same(s);
    }
}

proof fn lemma_figures_sum(a: Text, b: Text)
    requires
        figures(a),
        figures(b),
    ensures
        figures(a + b),
{
    assert forall|i: int| 0 <= i < (a + b).len() implies text::alphanumeric(#[trigger] (a + b)[i])
        || (a + b)[i] == '+' || (a + b)[i] == '-' by {
        if i < a.len() {
            assert((a + b)[i] == a[i]);
        } else {
            assert((a + b)[i] == b[i - a.len()]);
        }
    }
}

pub proof fn lemma_decimal_figures(n: nat)
    ensures
        figures(text::decimal(n)),
    decreases n,
{
    if n >= 10 {
        lemma_decimal_figures(n / 10);
    }
}

proof fn lemma_padded_figures(n: nat, width: nat)
    ensures
        figures(text::padded(n, width)),
    decreases width,
{
    if width <= 1 {
        lemma_decimal_figures(n);
    } else {
        lemma_padded_figures(n / 10, (width - 1) as nat);
    }
}

/// Days and seconds are written in figures.
pub proof fn lemma_compact_figures(day: int, second: int)
    ensures
        figures(time::compact_day(day)),
        figures(time::compact_second(second)),
        figures(time::compact_second(second) + "Z"@),
{
    reveal_strlit("T");
    reveal_strlit("Z");
    lemma_compact_day_figures(day);
    lemma_compact_day_figures(time::day_of(second));
    let clock = time::clock_of(second);
    let hour = time::two_digits(clock / 3600);
    let minute = time::two_digits(clock % 3600 / 60);
    lemma_padded_figures((clock / 3600) as nat, 2);
    lemma_padded_figures((clock % 3600 / 60) as nat, 2);
    lemma_padded_figures((clock % 60) as nat, 2);
    lemma_figures_sum(hour, minute);
    lemma_figures_sum(hour + minute, time::two_digits(clock % 60));
    let front = time::compact_day(time::day_of(second));
    lemma_figures_sum(front, "T"@);
    lemma_figures_sum(front + "T"@, time::compact_clock(clock));
    lemma_figures_sum(time::compact_second(second), "Z"@);
}

proof fn lemma_compact_day_figures(day: int)
    ensures
        figures(time::compact_day(day)),
{
    let (year, month, number) = time::civil(day);
    lemma_padded_figures(year as nat, 4);
    lemma_padded_figures((-year) as nat, 4);
    lemma_figures_sum(seq!['-'], text::padded((-year) as nat, 4));
    lemma_figures_sum(seq!['+'], text::padded(year as nat, 4));
    lemma_padded_figures(month as nat, 2);
    lemma_padded_figures(number as nat, 2);
    lemma_figures_sum(time::year_text(year), time::two_digits(month));
    lemma_figures_sum(
        time::year_text(year) + time::two_digits(month),
        time::two_digits(number),
    );
}

/// Dates are written in figures.
pub proof fn lemma_date_figures(date: WireView)
    ensures
        figures(date_text(date).0),
{
    match date {
        WireView::Date(day) => lemma_compact_figures(day, 0),
        WireView::Utc(second, _) => lemma_compact_figures(0, second),
        WireView::Floating(local) => lemma_compact_figures(0, local),
        WireView::Zoned(local, _) => lemma_compact_figures(0, local),
    }
}

// ------------------------------------------------------------------ folding

/// The keys of lines, and the words among their parameters, are ASCII.
pub proof fn lemma_ascii_keys()
    ensures
        fold::ascii("UID"@),
        fold::ascii("SUMMARY"@),
        fold::ascii("DTSTAMP"@),
        fold::ascii("SEQUENCE"@),
        fold::ascii("STATUS"@),
        fold::ascii("COMPLETED"@),
        fold::ascii("NEEDS-ACTION"@),
        fold::ascii("PERCENT-COMPLETE"@),
        fold::ascii("100"@),
        fold::ascii("0"@),
        fold::ascii("DTSTART"@),
        fold::ascii("DTEND"@),
        fold::ascii("DUE"@),
        fold::ascii("LOCATION"@),
        fold::ascii("URL"@),
        fold::ascii("DESCRIPTION"@),
        fold::ascii("CATEGORIES"@),
        fold::ascii("EXDATE"@),
        fold::ascii("RRULE"@),
        fold::ascii("RECURRENCE-ID"@),
        fold::ascii("ACTION"@),
        fold::ascii("DISPLAY"@),
        fold::ascii("TRIGGER"@),
        fold::ascii("VALUE"@),
        fold::ascii("DATE"@),
        fold::ascii("DATE-TIME"@),
        fold::ascii("TZID"@),
{
    reveal_strlit("UID");
    reveal_strlit("SUMMARY");
    reveal_strlit("DTSTAMP");
    reveal_strlit("SEQUENCE");
    reveal_strlit("STATUS");
    reveal_strlit("COMPLETED");
    reveal_strlit("NEEDS-ACTION");
    reveal_strlit("PERCENT-COMPLETE");
    reveal_strlit("100");
    reveal_strlit("0");
    reveal_strlit("DTSTART");
    reveal_strlit("DTEND");
    reveal_strlit("DUE");
    reveal_strlit("LOCATION");
    reveal_strlit("URL");
    reveal_strlit("DESCRIPTION");
    reveal_strlit("CATEGORIES");
    reveal_strlit("EXDATE");
    reveal_strlit("RRULE");
    reveal_strlit("RECURRENCE-ID");
    reveal_strlit("ACTION");
    reveal_strlit("DISPLAY");
    reveal_strlit("TRIGGER");
    reveal_strlit("VALUE");
    reveal_strlit("DATE");
    reveal_strlit("DATE-TIME");
    reveal_strlit("TZID");
}

pub proof fn lemma_figures_ascii(s: Text)
    requires
        figures(s),
    ensures
        fold::ascii(s),
{
    assert forall|i: int| 0 <= i < s.len() implies (#[trigger] s[i] as int) < 0x80 by {
        assert(text::alphanumeric(s[i]) || s[i] == '+' || s[i] == '-');
    }
}

/// A date folds where its zone is ASCII.
pub proof fn lemma_date_folds(key: Text, date: WireView)
    requires
        fold::ascii(key),
        date matches WireView::Zoned(_, tzid) ==> fold::ascii(tzid),
    ensures
        line_folds(line_of(key, date_text(date).0, date_text(date).1)),
{
    lemma_ascii_keys();
    lemma_date_figures(date);
    lemma_figures_ascii(date_text(date).0);
}

pub proof fn lemma_lines_fold(lines: Seq<LineView>, line: Option<LineView>)
    requires
        lines_fold(lines),
        line matches Some(line) ==> line_folds(line),
    ensures
        lines_fold(with_line(lines, line)),
{
    let all = with_line(lines, line);
    assert forall|i: int| 0 <= i < all.len() implies line_folds(#[trigger] all[i]) by {
        if i < lines.len() {
            assert(all[i] == lines[i]);
        }
    }
}

/// Lines of categories fold.
pub proof fn lemma_categories_fold(tags: Seq<Text>)
    requires
        texts_fold("CATEGORIES"@, tags),
    ensures
        lines_fold(category_lines(tags)),
{
    let all = category_lines(tags);
    assert forall|i: int| 0 <= i < all.len() implies line_folds(#[trigger] all[i]) by {
        assert(text_folds("CATEGORIES"@, tags[i]));
    }
}

/// The first lines of a component fold where those with the UID and the name do.
pub proof fn lemma_head_folds(uid: Text, name: Text, stamp: Text, number: Text)
    requires
        text_folds("UID"@, uid),
        text_folds("SUMMARY"@, name),
        figures(stamp),
        figures(number),
    ensures
        lines_fold(
            Seq::<LineView>::empty().push(line_of("UID"@, uid, Seq::empty())).push(
                line_of("SUMMARY"@, name, Seq::empty()),
            ).push(line_of("DTSTAMP"@, stamp, Seq::empty())).push(
                line_of("SEQUENCE"@, number, Seq::empty()),
            ),
        ),
{
    lemma_ascii_keys();
    lemma_figures_ascii(stamp);
    lemma_figures_ascii(number);
}

/// An alarm folds where the lines with its name and with what it is known by do.
pub proof fn lemma_alarm_folds(name: Text, trigger: LineView, uid: Text, stamp: Text)
    requires
        text_folds("DESCRIPTION"@, name),
        line_folds(trigger),
        text_folds("UID"@, uid),
        figures(stamp),
    ensures
        lines_fold(
            Seq::<LineView>::empty().push(line_of("ACTION"@, "DISPLAY"@, Seq::empty())).push(
                line_of("DESCRIPTION"@, name, Seq::empty()),
            ).push(trigger).push(line_of("UID"@, uid, Seq::empty())).push(
                line_of("DTSTAMP"@, stamp, Seq::empty()),
            ),
        ),
{
    lemma_ascii_keys();
    lemma_figures_ascii(stamp);
}

pub proof fn lemma_escaped_sum(a: Text, b: Text)
    ensures
        escaped(a + b) == escaped(a) + escaped(b),
    decreases b.len(),
{
    let all = a + b;
    if b.len() == 0 {
        assert(all == a);
        assert(escaped(a) + escaped(b) == escaped(a));
    } else {
        assert(all.drop_last() == a + b.drop_last());
        lemma_escaped_sum(a, b.drop_last());
        assert(escaped(all) == escaped(a) + escaped(b.drop_last()) + escaped_char(b.last()));
        assert(escaped(all) =~= escaped(a) + escaped(b));
    }
}

/// Plain characters stand for themselves.
pub proof fn lemma_escaped_plain(s: Text)
    requires
        fold::plain(s),
    ensures
        escaped(s) == s,
    decreases s.len(),
{
    if s.len() > 0 {
        let front = s.drop_last();
        assert(fold::plain_char(s[s.len() - 1]));
        assert(fold::plain(front)) by {
            assert forall|i: int| 0 <= i < front.len() implies fold::plain_char(
                #[trigger] front[i],
            ) by {
                assert(front[i] == s[i]);
            }
        }
        lemma_escaped_plain(front);
        assert(front + seq![s.last()] =~= s);
    }
}

fn escape(s: &str) -> (r: String)
    ensures
        r@ == escaped(s@),
{
    let v = text::chars_of(s);
    let mut r: String = String::new();
    let mut i: usize = 0;
    while i < v.len()
        invariant
            i <= v@.len(),
            v@ == s@,
            r@ == escaped(v@.take(i as int)),
        decreases v@.len() - i,
    {
        let ghost before = r@;
        let c: char = v[i];
        assert(v@.take(i + 1).drop_last() == v@.take(i as int));
        if c == '\\' || c == ',' || c == ';' {
            r.push('\\');
            r.push(c);
        } else if c == '\n' {
            r.push('\\');
            r.push('n');
        } else {
            r.push(c);
        }
        assert(r@ =~= before + escaped_char(c));
        i += 1;
    }
    assert(v@.take(v@.len() as int) == v@);
    r
}

/// Whether a line with such a key folds.
pub fn can_write_text(key: &str, value: &str) -> (r: bool)
    ensures
        r == text_folds(key@, value@),
{
    let mut line = text::glue(key, ":");
    if text::same(key, "UID") || text::same(key, "SUMMARY") || text::same(key, "DESCRIPTION")
        || text::same(key, "LOCATION") {
        line.append(escape(value).as_str());
    } else {
        line.append(value);
    }
    fold::folds(line.as_str())
}

/// Whether lines with such a key all fold.
pub fn can_write_texts(key: &str, values: &Vec<String>) -> (r: bool)
    ensures
        r == texts_fold(key@, text::texts(values@)),
{
    let mut i: usize = 0;
    while i < values.len()
        invariant
            i <= values@.len(),
            forall|j: int| 0 <= j < i ==> text_folds(key@, #[trigger] text::texts(values@)[j]),
        decreases values@.len() - i,
    {
        assert(text::texts(values@)[i as int] == values@[i as int]@);
        if !can_write_text(key, values[i].as_str()) {
            return false;
        }
        i += 1;
    }
    true
}

/// Whether a line with such a key folds, if there is one.
pub fn can_write_if_any(key: &str, value: &Option<String>) -> (r: bool)
    ensures
        r == text_folds_if_any(key@, text::text_of(*value)),
{
    match value {
        Some(value) => can_write_text(key, value.as_str()),
        None => true,
    }
}

/// Whether what some alarms are known by folds.
pub fn can_number(owner: &str, count: usize) -> (r: bool)
    ensures
        r == numbers_fold(owner@, count as int),
{
    let front = text::glue(owner, "-");
    let mut i: usize = 0;
    while i < count
        invariant
            i <= count,
            front@ == owner@ + "-"@,
            forall|j: int| 0 <= j < i ==> text_folds("UID"@, #[trigger] numbered(owner@, j)),
        decreases count - i,
    {
        let uid = text::glue(front.as_str(), text::number(i as u64).as_str());
        assert(uid@ == numbered(owner@, i as int));
        if !can_write_text("UID", uid.as_str()) {
            return false;
        }
        i += 1;
    }
    true
}

/// Whether the name of a calendar can be written.
pub fn can_name(name: &str) -> (r: bool)
    ensures
        r == name_folds(name@),
{
    fold::folds(text::glue("NAME:", name).as_str()) && fold::folds(
        text::glue("X-WR-CALNAME:", escape(name).as_str()).as_str(),
    )
}

/// The text of a document with these tasks.
pub uninterp spec fn todos_text(name: Text, zone: Text, parts: Seq<PartView>) -> Text;

/// `icalendar::Calendar` written with `to_string`, as for events: the text depends on
/// the name, the zone and the lines of the tasks, where every task and alarm has its
/// own UID and DTSTAMP. It ends with a line break, plain lines are read from it as they
/// were written, and no component stands in more than two others. Its lines must fold, as
/// those of events.
#[verifier::external_body]
pub(crate) fn write_todos(name: &str, zone: &str, todos: &Vec<Part>) -> (r: String)
    requires
        all_stamped(parts(todos@)),
        document_folds(name@, zone@, parts(todos@)),
    ensures
        r@ == todos_text(name@, zone@, parts(todos@)),
        r@.len() > 0 && r@.last() == '\n',
        plain_document(name@, zone@, parts(todos@)) ==> read_back(todo_lines_in(r@), parts(todos@)),
        plain_document(name@, zone@, parts(todos@)) ==> nesting::shallow(r@),
{
    let line = |l: &Line| { let mut p = Property::new(&l.key, &l.value);
        for (k, v) in &l.params { p.add_parameter(k, v); } p };
    let mut calendar = Calendar::new(); calendar.name(name).timezone(zone);
    for part in todos {
        let mut todo = Todo::new();
        for l in &part.once { todo.append_property(line(l)); }
        for l in &part.many { todo.append_multi_property(line(l)); }
        for lines in &part.alarms {
            let mut alarm = Alarm::display("", Duration::zero());
            for l in lines { alarm.append_property(line(l)); }
            todo.append_component(alarm);
        }
        calendar.push(todo);
    }
    calendar.to_string()
}

/// A date is the moment that it says: a whole day is that day, a moment of UTC is that
/// moment, and a clock time is the first moment at which clocks show it where it was
/// written. A clock time of a zone that is not known, or of none, is one of the calendar's
/// zone.
pub proof fn law_a_date_is_the_moment_that_it_says(
    day: int,
    second: int,
    nano: int,
    local: int,
    tzid: Text,
    zone: Text,
)
    ensures
        moment_of(WireView::Date(day), zone) == Some(When::Day(day)),
        moment_of(WireView::Utc(second, nano), zone) == Some(When::At(second, nano)),
        time::is_zone(tzid) ==> moment_of(WireView::Zoned(local, tzid), zone) == moment_of(
            WireView::Floating(local),
            tzid,
        ),
        !time::is_zone(tzid) ==> moment_of(WireView::Zoned(local, tzid), zone) == moment_of(
            WireView::Floating(local),
            zone,
        ),
        moment_of(WireView::Floating(local), zone) == (match time::first_moment(zone, local) {
            Some(at) => Some(When::At(at, 0)),
            None => None,
        }),
        moment_in(None, zone) is None,
        moment_in(Some(WireView::Date(day)), zone) == Some(When::Day(day)),
        moment_in(Some(WireView::Zoned(local, tzid)), zone) == moment_of(
            WireView::Zoned(local, tzid),
            zone,
        ),
{
}

proof fn lemma_with_parts(list: Seq<Text>, parts: Seq<Text>, one: Text)
    ensures
        with_parts(list, parts).contains(one) <==> list.contains(one) || exists|i: int|
            0 <= i < parts.len() && text::trimmed(#[trigger] parts[i]) == one && one.len() > 0,
    decreases parts.len(),
{
    if parts.len() > 0 {
        let before = parts.drop_last();
        let front = with_parts(list, before);
        let r = with_parts(list, parts);
        let last = text::trimmed(parts.last());
        lemma_with_parts(list, before, one);
        assert(parts[parts.len() - 1] == parts.last());
        if front.contains(one) {
            let m = choose|m: int| 0 <= m < front.len() && front[m] == one;
            assert(r[m] == one);
            if !list.contains(one) {
                let i = choose|i: int|
                    0 <= i < before.len() && text::trimmed(#[trigger] before[i]) == one && one.len()
                        > 0;
                assert(parts[i] == before[i]);
            }
        }
        if r.contains(one) && !front.contains(one) {
            let m = choose|m: int| 0 <= m < r.len() && r[m] == one;
            if m < front.len() {
                assert(front[m] == one);
            }
            assert(text::trimmed(parts[parts.len() - 1]) == one);
        }
        if exists|i: int|
            0 <= i < parts.len() && text::trimmed(#[trigger] parts[i]) == one && one.len() > 0 {
            let i = choose|i: int|
                0 <= i < parts.len() && text::trimmed(#[trigger] parts[i]) == one && one.len() > 0;
            if i < before.len() {
                assert(before[i] == parts[i]);
            } else if !front.contains(last) {
                assert(r[r.len() - 1] == one);
            }
        }
    }
}

/// Every category of a component is read: each that stands in one of its lists, but for the
/// white space around it, and nothing else.
pub proof fn law_every_category_is_read(lines: Seq<LineView>, one: Text)
    ensures
        categories_in(lines).contains(one) <==> exists|i: int|
            0 <= i < lines.len() && lists_category(#[trigger] lines[i], one),
    decreases lines.len(),
{
    if lines.len() > 0 {
        let front = lines.drop_last();
        let line = lines.last();
        law_every_category_is_read(front, one);
        lemma_with_parts(categories_in(front), text::split(line.value, ','), one);
        assert(lines[lines.len() - 1] == line);
        if exists|i: int| 0 <= i < front.len() && lists_category(#[trigger] front[i], one) {
            let i = choose|i: int| 0 <= i < front.len() && lists_category(#[trigger] front[i], one);
            assert(lines[i] == front[i]);
        }
        if exists|i: int| 0 <= i < lines.len() && lists_category(#[trigger] lines[i], one) {
            let i = choose|i: int| 0 <= i < lines.len() && lists_category(#[trigger] lines[i], one);
            if i < front.len() {
                assert(front[i] == lines[i]);
            }
        }
    }
}

/// Whether a line of a component is a list of categories that holds this one.
pub open spec fn lists_category(line: LineView, one: Text) -> bool {
    &&& line.part.len() == 0 && line.multi && line.key == "CATEGORIES"@
    &&& exists|i: int|
        0 <= i < text::split(line.value, ',').len() && text::trimmed(
            #[trigger] text::split(line.value, ',')[i],
        ) == one && one.len() > 0
}

} // verus!
