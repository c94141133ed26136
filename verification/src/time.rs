//! Moments, days and time zones as plain numbers.
use chrono::{Datelike, Offset, TimeZone, Timelike};
use vstd::prelude::*;

use crate::fold;
use crate::text;
use crate::text::Text;

verus! {

/// The first day that `chrono` holds, counted from 1970-01-01: the first of January in
/// the year -262143.
pub const FIRST_DAY: i64 = -96_465_292;

/// The last day that `chrono` holds: the last of December in the year 262142.
pub const LAST_DAY: i64 = 95_026_236;

/// The first second of the first day, and the last second of the last day.
pub const FIRST_LOCAL: i64 = -8_334_601_228_800;

pub const LAST_LOCAL: i64 = 8_210_266_876_799;

/// The first and the last second that a moment may have, in UTC: a day less on either
/// side, so that every clock shows a day that `chrono` holds.
pub const FIRST_SECOND: i64 = -8_334_601_142_400;

pub const LAST_SECOND: i64 = 8_210_266_790_399;

pub const SECONDS_PER_DAY: i64 = 86_400;

/// A moment, in seconds since 1970-01-01T00:00:00Z and nanoseconds after that.
#[derive(Debug, Clone, Copy, PartialEq, Eq, Structural)]
pub struct Instant {
    seconds: i64,
    nanos: u32,
}

/// The longest length of time, in seconds.
pub const LONGEST: u64 = 9_223_372_036_854_775;

/// A length of time that is not negative.
#[derive(Debug, Clone, Copy, PartialEq, Eq, Structural)]
pub struct Span {
    seconds: u64,
    nanos: u32,
}

impl Span {
    #[verifier::type_invariant]
    spec fn valid(self) -> bool {
        self.seconds <= LONGEST && self.nanos < 1_000_000_000
    }

    /// Whole seconds.
    pub closed spec fn second(self) -> int {
        self.seconds as int
    }

    /// Nanoseconds beyond the whole seconds.
    pub closed spec fn nano(self) -> int {
        self.nanos as int
    }

    /// The length in nanoseconds.
    pub open spec fn length(self) -> int {
        self.second() * 1_000_000_000 + self.nano()
    }

    /// No length is negative.
    pub proof fn lemma_not_negative(self)
        ensures
            self.length() >= 0,
    {
    }

    /// A length of seconds and nanoseconds, unless it is too long.
    pub fn new(seconds: u64, nanos: u32) -> (r: Option<Span>)
        ensures
            (r is Some) == (seconds <= LONGEST && nanos < 1_000_000_000),
            r is Some ==> r->0.second() == seconds && r->0.nano() == nanos,
    {
        if seconds <= LONGEST && nanos < 1_000_000_000 {
            Some(Span { seconds, nanos })
        } else {
            None
        }
    }

    pub fn seconds(&self) -> (r: u64)
        ensures
            r == self.second(),
            r <= LONGEST,
    {
        proof {
            use_type_invariant(self);
        }
        self.seconds
    }

    pub fn in_nanos(&self) -> (r: i128)
        ensures
            r == self.length(),
            0 <= r <= 9_223_372_036_854_776_000_000_000,
    {
        proof {
            use_type_invariant(self);
        }
        self.seconds as i128 * 1_000_000_000 + self.nanos as i128
    }
}

/// No time at all.
pub fn no_time() -> (r: Span)
    ensures
        r.length() == 0,
        r.second() == 0,
        r.nano() == 0,
{
    Span { seconds: 0, nanos: 0 }
}

/// The longest length of time.
pub fn longest() -> (r: Span)
    ensures
        r.second() == LONGEST,
        r.nano() == 0,
{
    Span { seconds: LONGEST, nanos: 0 }
}

/// The nanoseconds that a second can have: more than one thousand million of them
/// are a leap second, which follows the last second of a minute.
pub open spec fn moment_nanos(second: int, nano: int) -> bool {
    0 <= nano < 1_000_000_000 || (nano < 2_000_000_000 && second % 60 == 59)
}

impl Instant {
    #[verifier::type_invariant]
    spec fn valid(self) -> bool {
        FIRST_SECOND <= self.seconds <= LAST_SECOND && moment_nanos(
            self.seconds as int,
            self.nanos as int,
        )
    }

    /// Whole seconds since 1970.
    pub closed spec fn second(self) -> int {
        self.seconds as int
    }

    /// Nanoseconds after the second.
    pub closed spec fn nano(self) -> int {
        self.nanos as int
    }

    /// Nanoseconds since 1970.
    pub open spec fn total(self) -> int {
        self.second() * 1_000_000_000 + self.nano()
    }

    /// The moment with these numbers, where it is not too far from 1970.
    pub fn new(seconds: i64, nanos: u32) -> (r: Option<Instant>)
        ensures
            (r is Some) == (FIRST_SECOND <= seconds <= LAST_SECOND && moment_nanos(
                seconds as int,
                nanos as int,
            )),
            r is Some ==> r->0.second() == seconds && r->0.nano() == nanos,
    {
        if seconds < FIRST_SECOND || seconds > LAST_SECOND {
            return None;
        }
        let (_, clock) = split_second(seconds);
        assert(seconds as int % 60 == clock as int % 60) by {
            assert(seconds as int == day_of(seconds as int) * 86_400 + clock);
        }
        if nanos < 1_000_000_000 || (nanos < 2_000_000_000 && clock % 60 == 59) {
            Some(Instant { seconds, nanos })
        } else {
            None
        }
    }

    pub fn seconds(&self) -> (r: i64)
        ensures
            r == self.second(),
            FIRST_SECOND <= r <= LAST_SECOND,
    {
        proof {
            use_type_invariant(self);
        }
        self.seconds
    }

    pub fn nanos(&self) -> (r: u32)
        ensures
            r == self.nano(),
            moment_nanos(self.second(), self.nano()),
    {
        proof {
            use_type_invariant(self);
        }
        self.nanos
    }

    /// Nanoseconds since 1970.
    pub fn in_nanos(&self) -> (r: i128)
        ensures
            r == self.total(),
            -8_334_601_142_400_000_000_000 <= r <= 8_210_266_790_401_000_000_000,
    {
        proof {
            use_type_invariant(self);
        }
        self.seconds as i128 * 1_000_000_000 + self.nanos as i128
    }

    pub fn same(&self, other: &Instant) -> (r: bool)
        ensures
            r == (self == other),
    {
        *self == *other
    }

    pub fn is_after(&self, other: &Instant) -> (r: bool)
        ensures
            r == (self.total() > other.total()),
    {
        self.in_nanos() > other.in_nanos()
    }
}

/// The moment so many nanoseconds after 1970, where it is within reach.
pub fn instant_at(total: i128) -> (r: Option<Instant>)
    requires
        -20_000_000_000_000_000_000_000_000 <= total <= 20_000_000_000_000_000_000_000_000,
    ensures
        (r is Some) == (FIRST_SECOND <= total as int / 1_000_000_000 <= LAST_SECOND),
        r is Some ==> r->0.second() == total as int / 1_000_000_000 && r->0.nano() == total as int
            % 1_000_000_000,
{
    // Shifted by whole seconds so that what is divided is positive.
    let up: u128 = (total + 20_000_000_000_000_000_000_000_000) as u128;
    let second: i64 = (up / 1_000_000_000) as i64 - 20_000_000_000_000_000;
    let nano: u32 = (up % 1_000_000_000) as u32;
    proof {
        assert(total as int == second * 1_000_000_000 + nano);
        vstd::arithmetic::div_mod::lemma_fundamental_div_mod_converse(
            total as int,
            1_000_000_000,
            second as int,
            nano as int,
        );
    }
    if second < FIRST_SECOND || second > LAST_SECOND {
        None
    } else {
        Some(Instant { seconds: second, nanos: nano })
    }
}

/// What a clock somewhere shows, in seconds since it showed 1970-01-01T00:00:00.
#[derive(Debug, Clone, Copy, PartialEq, Eq, Structural)]
pub struct LocalTime {
    second: i64,
}

impl LocalTime {
    #[verifier::type_invariant]
    spec fn valid(self) -> bool {
        FIRST_LOCAL <= self.second <= LAST_LOCAL
    }

    pub closed spec fn shown(self) -> int {
        self.second as int
    }

    pub fn new(second: i64) -> (r: Option<LocalTime>)
        ensures
            (r is Some) == (FIRST_LOCAL <= second <= LAST_LOCAL),
            r is Some ==> r->0.shown() == second,
    {
        if FIRST_LOCAL <= second && second <= LAST_LOCAL {
            Some(LocalTime { second })
        } else {
            None
        }
    }

    pub fn seconds(&self) -> (r: i64)
        ensures
            r == self.shown(),
            FIRST_LOCAL <= r <= LAST_LOCAL,
    {
        proof {
            use_type_invariant(self);
        }
        self.second
    }

    /// As `20260831T093000`.
    pub fn compact(&self) -> (r: String)
        ensures
            r@ == compact_second(self.shown()),
    {
        second_label(self.seconds())
    }
}

/// A calendar day, counted from 1970-01-01.
#[derive(Debug, Clone, Copy, PartialEq, Eq, Structural)]
pub struct Day {
    number: i64,
}

impl Day {
    #[verifier::type_invariant]
    spec fn valid(self) -> bool {
        FIRST_DAY <= self.number <= LAST_DAY
    }

    /// Days since 1970-01-01.
    pub closed spec fn nth(self) -> int {
        self.number as int
    }

    pub fn new(number: i64) -> (r: Option<Day>)
        ensures
            (r is Some) == (FIRST_DAY <= number <= LAST_DAY),
            r is Some ==> r->0.nth() == number,
    {
        if FIRST_DAY <= number && number <= LAST_DAY {
            Some(Day { number })
        } else {
            None
        }
    }

    pub fn number(&self) -> (r: i64)
        ensures
            r == self.nth(),
            FIRST_DAY <= r <= LAST_DAY,
    {
        proof {
            use_type_invariant(self);
        }
        self.number
    }
}

/// The day that holds a second of some clock, and the second of that day.
pub open spec fn day_of(second: int) -> int {
    second / (SECONDS_PER_DAY as int)
}

pub open spec fn clock_of(second: int) -> int {
    second % (SECONDS_PER_DAY as int)
}

/// A second as its day and the second of that day.
pub fn split_second(second: i64) -> (r: (i64, u32))
    requires
        FIRST_LOCAL <= second <= LAST_LOCAL,
    ensures
        r.0 == day_of(second as int),
        r.1 == clock_of(second as int),
        r.1 < 86_400,
        FIRST_DAY <= r.0 <= LAST_DAY,
{
    // Shifted by a whole number of days so that what is divided is positive.
    let shift: i64 = 96_465_292;
    let up: u64 = (second + shift * 86_400) as u64;
    let day: i64 = (up / 86_400) as i64 - shift;
    let clock: u32 = (up % 86_400) as u32;
    proof {
        assert(up == second + 96_465_292 * 86_400);
        assert(second == day * 86_400 + clock);
        vstd::arithmetic::div_mod::lemma_fundamental_div_mod_converse(
            second as int,
            86_400,
            day as int,
            clock as int,
        );
    }
    (day, clock)
}

/// The time zones of the IANA database by their names.
pub uninterp spec fn is_zone(name: Text) -> bool;

/// What clocks in a zone show beyond UTC at a moment, in seconds.
pub uninterp spec fn utc_offset(zone: Text, second: int) -> int;

/// The first second of UTC at which clocks in a zone show this second, where
/// they ever do.
pub uninterp spec fn earliest_utc(zone: Text, local: int) -> Option<int>;

/// `<chrono_tz::Tz as FromStr>::from_str` accepts the name. Whether it does
/// depends on the name alone. The names that it accepts are ASCII.
#[verifier::external_body]
fn knows_zone(name: &str) -> (r: bool)
    ensures
        r == is_zone(name@),
        r ==> fold::ascii(name@),
{
    name.parse::<chrono_tz::Tz>().is_ok()
}

/// `chrono::TimeZone::offset_from_utc_datetime` of a `chrono_tz::Tz`: the offset
/// depends on the zone and the moment, and is less than a day either way, as every
/// `chrono::FixedOffset` is.
#[verifier::external_body]
fn zone_offset(name: &str, second: i64) -> (r: i32)
    requires
        is_zone(name@),
        FIRST_SECOND <= second <= LAST_SECOND,
    ensures
        r == utc_offset(name@, second as int),
        -86_400 < r < 86_400,
{
    let zone: chrono_tz::Tz = name.parse().expect("a known zone");
    let at = chrono::DateTime::from_timestamp(second, 0).expect("a second within range");
    zone.offset_from_utc_datetime(&at.naive_utc()).fix().local_minus_utc()
}

/// `chrono::TimeZone::from_local_datetime` of a `chrono_tz::Tz`, the earliest of
/// what it gives: it depends on the zone and the local time, is less than a day
/// away from it, and is a moment at which clocks in the zone do show that time.
#[verifier::external_body]
fn zone_earliest(name: &str, local: i64) -> (r: Option<i64>)
    requires
        is_zone(name@),
        FIRST_LOCAL <= local <= LAST_LOCAL,
    ensures
        match r {
            Some(second) => earliest_utc(name@, local as int) == Some(second as int) && -86_400
                < second - local < 86_400 && second + utc_offset(name@, second as int) == local,
            None => earliest_utc(name@, local as int) is None,
        },
{
    let zone: chrono_tz::Tz = name.parse().expect("a known zone");
    let at = chrono::DateTime::from_timestamp(local, 0).expect("a second within range");
    zone.from_local_datetime(&at.naive_utc()).earliest().map(|at| at.timestamp())
}

/// The second that clocks in a zone show at a second of UTC.
pub open spec fn local_at(zone: Text, second: int) -> int {
    second + utc_offset(zone, second)
}

/// The first second of UTC at which clocks in a zone show this second, where they
/// ever do within reach.
pub open spec fn first_moment(zone: Text, local: int) -> Option<int> {
    match earliest_utc(zone, local) {
        Some(second) => if FIRST_SECOND <= second <= LAST_SECOND {
            Some(second)
        } else {
            None
        },
        None => None,
    }
}

/// A whole day or a moment, as numbers.
pub enum When {
    /// Days since 1970-01-01.
    Day(int),
    /// Seconds since 1970 and the nanoseconds after them.
    At(int, int),
}

/// A time zone of the IANA database.
#[derive(Debug)]
pub struct Zone {
    name: String,
}

impl View for Zone {
    type V = Text;

    closed spec fn view(&self) -> Text {
        self.name@
    }
}

impl Clone for Zone {
    fn clone(&self) -> (r: Zone)
        ensures
            r@ == self@,
    {
        self.copy()
    }
}

impl Zone {
    #[verifier::type_invariant]
    spec fn known(self) -> bool {
        is_zone(self.name@) && fold::ascii(self.name@)
    }

    /// The zone with this name, where there is one.
    pub fn parse(name: &str) -> (r: Option<Zone>)
        ensures
            (r is Some) == is_zone(name@),
            r is Some ==> r->0@ == name@,
    {
        if knows_zone(name) {
            Some(Zone { name: name.to_owned() })
        } else {
            None
        }
    }

    pub fn name(&self) -> (r: &str)
        ensures
            r@ == self@,
            is_zone(r@),
            fold::ascii(r@),
    {
        proof {
            use_type_invariant(self);
        }
        self.name.as_str()
    }

    pub fn copy(&self) -> (r: Zone)
        ensures
            r@ == self@,
    {
        proof {
            use_type_invariant(self);
        }
        Zone { name: self.name.clone() }
    }

    /// The second that clocks in the zone show at a moment.
    pub open spec fn local(self, at: Instant) -> int {
        local_at(self@, at.second())
    }

    pub fn local_second(&self, at: Instant) -> (r: i64)
        ensures
            r == self.local(at),
            FIRST_LOCAL < r < LAST_LOCAL,
    {
        proof {
            use_type_invariant(self);
        }
        let second: i64 = at.seconds();
        second + zone_offset(self.name.as_str(), second) as i64
    }

    /// The day that calendars in the zone show at a moment.
    pub open spec fn day(self, at: Instant) -> int {
        day_of(self.local(at))
    }

    /// The second of the day that clocks in the zone show at a moment.
    pub open spec fn clock(self, at: Instant) -> int {
        clock_of(self.local(at))
    }

    /// What calendars and clocks in the zone show: the day, and the second of it.
    pub fn show(&self, at: Instant) -> (r: (Day, u32))
        ensures
            r.0.nth() == self.day(at),
            r.1 == self.clock(at),
            r.1 < 86_400,
    {
        let (number, clock) = split_second(self.local_second(at));
        (Day { number }, clock)
    }

    /// The first moment at which clocks in the zone show this second, where they
    /// ever do within reach.
    pub open spec fn first(self, local: int) -> Option<int> {
        first_moment(self@, local)
    }

    /// What clocks in the zone show at a moment.
    pub fn clock_at(&self, at: Instant) -> (r: LocalTime)
        ensures
            r.shown() == self.local(at),
    {
        LocalTime { second: self.local_second(at) }
    }

    pub fn earliest(&self, local: i64) -> (r: Option<Instant>)
        requires
            FIRST_LOCAL <= local <= LAST_LOCAL,
        ensures
            match r {
                Some(at) => self.first(local as int) == Some(at.second()) && at.nano() == 0
                    && self.local(at) == local,
                None => self.first(local as int) is None,
            },
    {
        proof {
            use_type_invariant(self);
        }
        match zone_earliest(self.name.as_str(), local) {
            Some(second) => Instant::new(second, 0),
            None => None,
        }
    }

    /// The first moment of a day's second in the zone.
    pub open spec fn first_of(self, day: Day, clock: int) -> Option<int> {
        self.first(day.nth() * 86_400 + clock)
    }

    pub fn earliest_of(&self, day: Day, clock: u32) -> (r: Option<Instant>)
        requires
            clock < 86_400,
        ensures
            match r {
                Some(at) => self.first_of(day, clock as int) == Some(at.second()) && at.nano() == 0
                    && self.local(at) == day.nth() * 86_400 + clock,
                None => self.first_of(day, clock as int) is None,
            },
    {
        let local: i64 = day.number() * 86_400 + clock as i64;
        self.earliest(local)
    }
}

/// The year, month and day of the Gregorian calendar.
pub uninterp spec fn civil(day: int) -> (int, int, int);

/// `chrono::NaiveDate::year`, `month` and `day` of the date so many days after
/// 1970-01-01. They depend on the day alone; months count from 1 to 12 and days
/// from 1 to 31.
#[verifier::external_body]
fn civil_of(day: i64) -> (r: (i32, u32, u32))
    requires
        FIRST_DAY <= day <= LAST_DAY,
    ensures
        (r.0 as int, r.1 as int, r.2 as int) == civil(day as int),
        -262_143 <= r.0 <= 262_142,
        1 <= r.1 <= 12,
        1 <= r.2 <= 31,
{
    let date = chrono::DateTime::from_timestamp(day * 86_400, 0).expect("a day within range");
    (date.year(), date.month(), date.day())
}

/// A year as `chrono` writes it: four digits, or a sign and more.
pub open spec fn year_text(year: int) -> Text {
    if 0 <= year <= 9999 {
        text::padded(year as nat, 4)
    } else if year < 0 {
        seq!['-'] + text::padded((-year) as nat, 4)
    } else {
        seq!['+'] + text::padded(year as nat, 4)
    }
}

pub open spec fn two_digits(n: int) -> Text {
    text::padded(n as nat, 2)
}

/// The day as `20260831`.
pub open spec fn compact_day(day: int) -> Text {
    year_text(civil(day).0) + two_digits(civil(day).1) + two_digits(civil(day).2)
}

/// The day as `2026-08-31`.
pub open spec fn dashed_day(day: int) -> Text {
    year_text(civil(day).0) + "-"@ + two_digits(civil(day).1) + "-"@ + two_digits(civil(day).2)
}

/// A day begins with a digit or a sign.
pub proof fn lemma_dashed_day_begins(day: int)
    ensures
        dashed_day(day).len() > 0,
        !text::white_space(dashed_day(day)[0]),
{
    let year = civil(day).0;
    lemma_padded_begins(year as nat, 4);
    lemma_padded_begins((-year) as nat, 4);
    assert(dashed_day(day)[0] == year_text(year)[0]);
}

proof fn lemma_padded_begins(n: nat, width: nat)
    ensures
        text::padded(n, width).len() > 0,
        text::digit(text::padded(n, width)[0]),
    decreases width,
{
    if width <= 1 {
        lemma_decimal_begins(n);
    } else {
        lemma_padded_begins(n / 10, (width - 1) as nat);
    }
}

proof fn lemma_decimal_begins(n: nat)
    ensures
        text::decimal(n).len() > 0,
        text::digit(text::decimal(n)[0]),
    decreases n,
{
    if n >= 10 {
        lemma_decimal_begins(n / 10);
    }
}

/// The day as `31.08.2026`.
pub open spec fn dotted_day(day: int) -> Text {
    two_digits(civil(day).2) + "."@ + two_digits(civil(day).1) + "."@ + year_text(civil(day).0)
}

/// The second of a day as `09:30`.
pub open spec fn clock_text(clock: int) -> Text {
    two_digits(clock / 3600) + ":"@ + two_digits(clock % 3600 / 60)
}

/// The second of a day as `093000`.
pub open spec fn compact_clock(clock: int) -> Text {
    two_digits(clock / 3600) + two_digits(clock % 3600 / 60) + two_digits(clock % 60)
}

/// A second of some clock as `20260831T093000`.
pub open spec fn compact_second(second: int) -> Text {
    compact_day(day_of(second)) + "T"@ + compact_clock(clock_of(second))
}

proof fn lemma_padded_digits(n: nat, width: nat)
    ensures
        text::padded(n, width).len() >= width,
        width == 1 && n < 1_000 ==> text::padded(n, width).len() <= 3,
        width == 2 && n < 100 ==> text::padded(n, width).len() == 2,
        width == 2 && n < 10_000 ==> text::padded(n, width).len() <= 4,
        width == 3 && n < 100_000 ==> text::padded(n, width).len() <= 5,
        width == 4 && n < 1_000_000 ==> text::padded(n, width).len() <= 6,
        fold::plain(text::padded(n, width)),
    decreases width,
{
    if width <= 1 {
        lemma_decimal_digits(n);
    } else {
        lemma_padded_digits(n / 10, (width - 1) as nat);
        if width == 2 && n < 100 {
            lemma_decimal_digits(n / 10);
        }
    }
}

proof fn lemma_decimal_digits(n: nat)
    ensures
        text::decimal(n).len() >= 1,
        n < 10 ==> text::decimal(n).len() == 1,
        n < 100 ==> text::decimal(n).len() <= 2,
        n < 1_000 ==> text::decimal(n).len() <= 3,
        fold::plain(text::decimal(n)),
    decreases n,
{
    if n >= 10 {
        lemma_decimal_digits(n / 10);
    }
}

/// A day of a year that `chrono` holds is written in ten to thirteen plain characters.
proof fn lemma_day_words(day: int)
    requires
        -262_143 <= civil(day).0 <= 262_142,
        1 <= civil(day).1 <= 12,
        1 <= civil(day).2 <= 31,
    ensures
        10 <= dashed_day(day).len() <= 13,
        fold::plain(dashed_day(day)),
        10 <= dotted_day(day).len() <= 13,
        fold::plain(dotted_day(day)),
{
    let (year, month, number) = civil(day);
    reveal_strlit("-");
    reveal_strlit(".");
    lemma_padded_digits(year as nat, 4);
    lemma_padded_digits((-year) as nat, 4);
    lemma_padded_digits(month as nat, 2);
    lemma_padded_digits(number as nat, 2);
    fold::lemma_plain_sum(seq!['-'], text::padded((-year) as nat, 4));
    fold::lemma_plain_sum(seq!['+'], text::padded(year as nat, 4));
    let y = year_text(year);
    let m = two_digits(month);
    let d = two_digits(number);
    fold::lemma_plain_sum(y, "-"@);
    fold::lemma_plain_sum(y + "-"@, m);
    fold::lemma_plain_sum(y + "-"@ + m, "-"@);
    fold::lemma_plain_sum(y + "-"@ + m + "-"@, d);
    fold::lemma_plain_sum(d, "."@);
    fold::lemma_plain_sum(d + "."@, m);
    fold::lemma_plain_sum(d + "."@ + m, "."@);
    fold::lemma_plain_sum(d + "."@ + m + "."@, y);
}

/// A time of day is written in five plain characters.
pub proof fn lemma_clock_words(clock: int)
    requires
        0 <= clock < 86_400,
    ensures
        clock_text(clock).len() == 5,
        fold::plain(clock_text(clock)),
{
    reveal_strlit(":");
    let hour = two_digits(clock / 3600);
    let minute = two_digits(clock % 3600 / 60);
    lemma_padded_digits((clock / 3600) as nat, 2);
    lemma_padded_digits((clock % 3600 / 60) as nat, 2);
    fold::lemma_plain_sum(hour, ":"@);
    fold::lemma_plain_sum(hour + ":"@, minute);
}

fn year_digits(year: i32) -> (r: String)
    requires
        -262_143 <= year <= 262_142,
    ensures
        r@ == year_text(year as int),
{
    proof {
        reveal_strlit("-");
        reveal_strlit("+");
        assert("-"@ == seq!['-']);
        assert("+"@ == seq!['+']);
    }
    if 0 <= year && year <= 9999 {
        text::padded_number(year as u64, 4)
    } else if year < 0 {
        text::glue("-", text::padded_number((-year) as u64, 4).as_str())
    } else {
        text::glue("+", text::padded_number(year as u64, 4).as_str())
    }
}

impl Day {
    /// The year, the month from 1 to 12 and the day of the month.
    pub fn civil(&self) -> (r: (i32, u32, u32))
        ensures
            (r.0 as int, r.1 as int, r.2 as int) == civil(self.nth()),
            -262_143 <= r.0 <= 262_142,
            1 <= r.1 <= 12,
            1 <= r.2 <= 31,
    {
        civil_of(self.number())
    }

    pub fn compact(&self) -> (r: String)
        ensures
            r@ == compact_day(self.nth()),
    {
        let (y, m, d) = self.civil();
        let mut r = year_digits(y);
        r.append(text::padded_number(m as u64, 2).as_str());
        r.append(text::padded_number(d as u64, 2).as_str());
        r
    }

    pub fn dashed(&self) -> (r: String)
        ensures
            r@ == dashed_day(self.nth()),
            10 <= r@.len() <= 13,
            fold::plain(r@),
    {
        let (y, m, d) = self.civil();
        proof {
            lemma_day_words(self.nth());
        }
        let mut r = year_digits(y);
        r.append("-");
        r.append(text::padded_number(m as u64, 2).as_str());
        r.append("-");
        r.append(text::padded_number(d as u64, 2).as_str());
        r
    }

    pub fn dotted(&self) -> (r: String)
        ensures
            r@ == dotted_day(self.nth()),
            10 <= r@.len() <= 13,
            fold::plain(r@),
    {
        let (y, m, d) = self.civil();
        proof {
            lemma_day_words(self.nth());
        }
        let mut r = text::padded_number(d as u64, 2);
        r.append(".");
        r.append(text::padded_number(m as u64, 2).as_str());
        r.append(".");
        r.append(year_digits(y).as_str());
        r
    }

    /// The day after, where it is not too far from 1970.
    pub fn next(&self) -> (r: Option<Day>)
        ensures
            (r is Some) == (self.nth() < LAST_DAY),
            r is Some ==> r->0.nth() == self.nth() + 1,
    {
        Day::new(self.number() + 1)
    }

    /// The day before, where it is not too far from 1970.
    pub fn previous(&self) -> (r: Option<Day>)
        ensures
            (r is Some) == (self.nth() > FIRST_DAY),
            r is Some ==> r->0.nth() == self.nth() - 1,
    {
        Day::new(self.number() - 1)
    }
}

/// The second of a day as `09:30`.
pub fn clock_label(clock: u32) -> (r: String)
    requires
        clock < 86_400,
    ensures
        r@ == clock_text(clock as int),
{
    let mut r = text::padded_number((clock / 3600) as u64, 2);
    r.append(":");
    r.append(text::padded_number((clock % 3600 / 60) as u64, 2).as_str());
    r
}

/// A second of some clock as `20260831T093000`.
pub fn second_label(second: i64) -> (r: String)
    requires
        FIRST_LOCAL <= second <= LAST_LOCAL,
    ensures
        r@ == compact_second(second as int),
{
    let (number, clock) = split_second(second);
    let mut r = Day { number }.compact();
    r.append("T");
    r.append(text::padded_number((clock / 3600) as u64, 2).as_str());
    r.append(text::padded_number((clock % 3600 / 60) as u64, 2).as_str());
    r.append(text::padded_number((clock % 60) as u64, 2).as_str());
    let ghost day_part = compact_day(day_of(second as int)) + "T"@;
    assert(r@ == day_part + compact_clock(clock_of(second as int)));
    r
}

/// The second, the nanosecond and the offset from UTC that a text names, where
/// it is an RFC 3339 date and time.
pub uninterp spec fn rfc3339(s: Text) -> Option<(int, int, int)>;

/// `chrono::DateTime::parse_from_rfc3339`: what it reads depends on the text
/// alone. A year is four digits, an offset is less than a day, and a leap second
/// is a nanosecond past one thousand million.
#[verifier::external_body]
fn read_rfc3339(s: &str) -> (r: Option<(i64, u32, i32)>)
    ensures
        match r {
            Some((second, nano, offset)) => rfc3339(s@) == Some(
                (second as int, nano as int, offset as int),
            ) && -62_167_305_600 <= second <= 253_402_387_200 && moment_nanos(
                second as int,
                nano as int,
            ) && -86_400 < offset < 86_400,
            None => rfc3339(s@) is None,
        },
{
    let at = chrono::DateTime::parse_from_rfc3339(s).ok()?;
    Some((at.timestamp(), at.timestamp_subsec_nanos(), at.offset().local_minus_utc()))
}

/// A moment in UTC as RFC 3339 text with whole seconds.
pub open spec fn rfc3339_text(second: int, nano: int) -> Text {
    let clock = clock_of(second);
    let leap: int = if nano >= 1_000_000_000 {
        1
    } else {
        0
    };
    dashed_day(day_of(second)) + "T"@ + clock_text(clock) + ":"@ + two_digits(clock % 60 + leap)
        + "Z"@
}

/// `chrono::DateTime::<Utc>::to_rfc3339_opts` with whole seconds and a `Z`: the
/// date, a `T`, the time to the second and the `Z`. Within the years 0 to 9999
/// `chrono` reads the same second of UTC back, unless it is a leap second.
#[verifier::external_body]
fn write_rfc3339(second: i64, nano: u32) -> (r: String)
    requires
        FIRST_SECOND <= second <= LAST_SECOND,
        moment_nanos(second as int, nano as int),
    ensures
        r@ == rfc3339_text(second as int, nano as int),
        -62_167_219_200 <= second <= 253_402_300_799 && nano < 1_000_000_000 ==> rfc3339(r@)
            == Some((second as int, 0int, 0int)),
{
    let at = chrono::DateTime::from_timestamp(second, nano).expect("a moment within range");
    at.to_rfc3339_opts(chrono::SecondsFormat::Secs, true)
}

/// Whether a text is a moment, and which: the moment and its offset from UTC.
pub fn parse_rfc3339(s: &str) -> (r: Option<(Instant, i32)>)
    ensures
        match r {
            Some((at, offset)) => rfc3339(s@) == Some((at.second(), at.nano(), offset as int)),
            None => rfc3339(s@) is None,
        },
{
    match read_rfc3339(s) {
        Some((second, nano, offset)) => Some((Instant { seconds: second, nanos: nano }, offset)),
        None => None,
    }
}

/// The moment in UTC as RFC 3339 text with whole seconds.
pub fn rfc3339_of(at: Instant) -> (r: String)
    ensures
        r@ == rfc3339_text(at.second(), at.nano()),
        -62_167_219_200 <= at.second() <= 253_402_300_799 && at.nano() < 1_000_000_000 ==> rfc3339(
            r@,
        ) == Some((at.second(), 0int, 0int)),
{
    let second: i64 = at.seconds();
    write_rfc3339(second, at.nanos())
}

/// The day that a text of the form `2026-08-31` names.
pub uninterp spec fn parsed_day(s: Text) -> Option<int>;

/// `chrono::NaiveDate::parse_from_str` with `%Y-%m-%d`, as days since 1970-01-01:
/// what it reads depends on the text alone and is a date that `chrono` can hold.
#[verifier::external_body]
fn read_day(s: &str) -> (r: Option<i64>)
    ensures
        match r {
            Some(day) => parsed_day(s@) == Some(day as int) && FIRST_DAY <= day <= LAST_DAY,
            None => parsed_day(s@) is None,
        },
{
    let day = chrono::NaiveDate::parse_from_str(s, "%Y-%m-%d").ok()?;
    Some(day.and_time(chrono::NaiveTime::MIN).and_utc().timestamp().div_euclid(86_400))
}

/// The day that a text of the form `2026-08-31` names.
pub fn parse_day(s: &str) -> (r: Option<Day>)
    ensures
        match r {
            Some(day) => parsed_day(s@) == Some(day.nth()),
            None => parsed_day(s@) is None,
        },
{
    match read_day(s) {
        Some(number) => Some(Day { number }),
        None => None,
    }
}

/// The seconds and nanoseconds that a text such as `15m` or `1d` stands for.
pub uninterp spec fn duration_text(s: Text) -> Option<(int, int)>;

/// The most whole seconds in a unit of time, by the two characters that its name begins
/// with: none in parts of a second, and in what is no unit.
pub open spec fn unit_seconds(first: char, second: Option<char>) -> nat {
    if first == 's' {
        1
    } else if first == 'm' {
        if second == Some('s') {
            0
        } else if second == Some('o') {
            2_630_016
        } else {
            60
        }
    } else if first == 'h' {
        3_600
    } else if first == 'd' {
        86_400
    } else if first == 'w' {
        604_800
    } else if first == 'M' {
        2_630_016
    } else if first == 'y' {
        31_557_600
    } else {
        0
    }
}

/// More seconds than a text such as `1h 30m` adds up to from a place on, where the digits
/// before it make the number `n`. What stands behind a decimal point, and parts of a
/// second as many as a `u64` holds, are less than the seconds that every letter counts
/// for.
pub open spec fn seconds_at_most(s: Text, at: int, n: nat, fraction: bool) -> nat
    decreases s.len() - at,
{
    if at < 0 || at >= s.len() {
        0
    } else if text::digit(s[at]) {
        let more = if fraction {
            n
        } else {
            (n * 10 + (s[at] as int - '0' as int)) as nat
        };
        seconds_at_most(s, at + 1, more, fraction)
    } else if text::white_space(s[at]) {
        seconds_at_most(s, at + 1, n, fraction)
    } else if s[at] == '.' {
        seconds_at_most(s, at + 1, n, true)
    } else {
        let second = if at + 1 < s.len() {
            Some(s[at + 1])
        } else {
            None
        };
        n * unit_seconds(s[at], second) + 30_000_000_000 + seconds_at_most(s, at + 1, 0, false)
    }
}

/// Whether what a text adds up to is less than `u64::MAX` seconds.
pub open spec fn modest(s: Text) -> bool {
    seconds_at_most(s, 0, 0, false) < u64::MAX
}

fn seconds_of_unit(first: char, second: Option<char>) -> (r: u128)
    ensures
        r == unit_seconds(first, second),
        r <= 31_557_600,
{
    if first == 's' {
        1
    } else if first == 'm' {
        match second {
            Some(c) => if c == 's' {
                0
            } else if c == 'o' {
                2_630_016
            } else {
                60
            },
            None => 60,
        }
    } else if first == 'h' {
        3_600
    } else if first == 'd' {
        86_400
    } else if first == 'w' {
        604_800
    } else if first == 'M' {
        2_630_016
    } else if first == 'y' {
        31_557_600
    } else {
        0
    }
}

fn digit_value(c: char) -> (r: u128)
    requires
        text::digit(c),
    ensures
        r == c as int - '0' as int,
        r <= 9,
{
    (c as u32 - '0' as u32) as u128
}

fn is_modest(s: &str) -> (r: bool)
    ensures
        r == modest(s@),
{
    let most: u128 = 0x1_0000_0000_0000_0000;
    let v = text::chars_of(s);
    let mut total: u128 = 0;
    // The number so far, or `most` where it is more than that.
    let mut number: u128 = 0;
    let ghost mut n: nat = 0;
    let mut fraction = false;
    let mut i: usize = 0;
    while i < v.len()
        invariant
            i <= v@.len(),
            v@ == s@,
            most == 0x1_0000_0000_0000_0000,
            number == (if n <= most {
                n as int
            } else {
                most as int
            }),
            total < u64::MAX,
            seconds_at_most(s@, 0, 0, false) == total + seconds_at_most(
                s@,
                i as int,
                n,
                fraction,
            ),
        decreases v@.len() - i,
    {
        let c = v[i];
        if text::is_digit(c) {
            if !fraction {
                let more: u128 = number * 10 + digit_value(c);
                number = if more < most {
                    more
                } else {
                    most
                };
                proof {
                    n = (n * 10 + (c as int - '0' as int)) as nat;
                }
            }
        } else if text::is_white_space(c) {
        } else if c == '.' {
            fraction = true;
        } else {
            let second = if i + 1 < v.len() {
                Some(v[i + 1])
            } else {
                None
            };
            let unit: u128 = seconds_of_unit(c, second);
            let ghost left = seconds_at_most(s@, i + 1, 0, false);
            let ghost length = n * unit_seconds(c, second);
            assert(number * unit <= most * 31_557_600) by (nonlinear_arith)
                requires
                    number <= most,
                    unit <= 31_557_600,
            ;
            total = total + number * unit + 30_000_000_000;
            proof {
                if n > most && unit > 0 {
                    assert(n * unit >= most) by (nonlinear_arith)
                        requires
                            n > most,
                            unit >= 1,
                    ;
                    assert(number * unit >= most) by (nonlinear_arith)
                        requires
                            number == most,
                            unit >= 1,
                    ;
                } else if unit == 0 {
                    assert(n * unit == 0 && number * unit == 0) by (nonlinear_arith)
                        requires
                            unit == 0,
                    ;
                }
            }
            if total >= 0xFFFF_FFFF_FFFF_FFFF {
                return false;
            }
            number = 0;
            fraction = false;
            proof {
                n = 0;
            }
        }
        i += 1;
    }
    true
}

/// `humantime::parse_duration`: the length depends on the text alone, and its
/// nanoseconds are those of a `std::time::Duration`. What the text adds up to is to be
/// modest: at `u64::MAX` seconds the nanoseconds can carry beyond them.
#[verifier::external_body]
fn read_duration(s: &str) -> (r: Option<(u64, u32)>)
    requires
        modest(s@),
    ensures
        match r {
            Some((seconds, nanos)) => duration_text(s@) == Some((seconds as int, nanos as int))
                && nanos < 1_000_000_000,
            None => duration_text(s@) is None,
        },
{
    humantime::parse_duration(s).ok().map(|length| (length.as_secs(), length.subsec_nanos()))
}

/// Whether a length of seconds and nanoseconds is not too long: a whole number of
/// milliseconds that fits an `i64` is the most.
pub open spec fn short_enough(seconds: int, nanos: int) -> bool {
    seconds < LONGEST || (seconds == LONGEST && nanos <= 807_000_000)
}

/// A length of whole seconds and nanoseconds, unless it is too long.
pub fn measured(seconds: u64, nanos: u32) -> (r: Option<Span>)
    ensures
        (r is Some) == (short_enough(seconds as int, nanos as int) && nanos < 1_000_000_000),
        r is Some ==> r->0.second() == seconds && r->0.nano() == nanos,
{
    if (seconds < LONGEST || (seconds == LONGEST && nanos <= 807_000_000)) && nanos
        < 1_000_000_000 {
        Some(Span { seconds, nanos })
    } else {
        None
    }
}

/// The length of time that a text stands for, where it is not too long. One that adds up
/// to `u64::MAX` seconds is.
pub open spec fn span_text(s: Text) -> Option<(int, int)> {
    if !modest(s) {
        None
    } else {
        match duration_text(s) {
            Some((seconds, nanos)) => if short_enough(seconds, nanos) {
                Some((seconds, nanos))
            } else {
                None
            },
            None => None,
        }
    }
}

pub fn parse_span(s: &str) -> (r: Option<Span>)
    ensures
        match r {
            Some(span) => span_text(s@) == Some((span.second(), span.nano())),
            None => span_text(s@) is None,
        },
{
    if !is_modest(s) {
        return None;
    }
    match read_duration(s) {
        Some((seconds, nanos)) => measured(seconds, nanos),
        None => None,
    }
}

/// The second of the day that a text of the form `09:00` names.
pub uninterp spec fn parsed_clock(s: Text) -> Option<int>;

/// `chrono::NaiveTime::parse_from_str` with `%H:%M`, as seconds since midnight:
/// what it reads depends on the text alone and lies within a day.
#[verifier::external_body]
pub(crate) fn read_clock(s: &str) -> (r: Option<u32>)
    ensures
        match r {
            Some(clock) => parsed_clock(s@) == Some(clock as int) && clock < 86_400,
            None => parsed_clock(s@) is None,
        },
{
    let time = chrono::NaiveTime::parse_from_str(s, "%H:%M").ok()?;
    Some(time.num_seconds_from_midnight())
}

} // verus!
