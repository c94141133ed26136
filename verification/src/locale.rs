//! The words a person reads: notifications, calendar names, descriptions.
use vstd::prelude::*;

use crate::fold;
use crate::reminder::ReminderAnchor;
use crate::text;
use crate::text::Text;
use crate::time;
use crate::time::Day;

verus! {

#[derive(Debug, Clone, Copy, PartialEq, Eq, Structural)]
pub enum Language {
    En,
    Ru,
}

impl Default for Language {
    fn default() -> (r: Language)
        ensures
            r == Language::En,
    {
        Language::En
    }
}

#[derive(Debug, Clone, Copy, PartialEq, Eq, Structural)]
pub enum Plural {
    One,
    Few,
    Many,
}

/// Russian counts agree in three forms, chosen by the last digits.
pub open spec fn plural_of(count: int) -> Plural {
    let ones = count % 10;
    let tens = count % 100;
    if ones == 1 && tens != 11 {
        Plural::One
    } else if 2 <= ones <= 4 && !(12 <= tens <= 14) {
        Plural::Few
    } else {
        Plural::Many
    }
}

pub fn plural(count: u64) -> (r: Plural)
    ensures
        r == plural_of(count as int),
{
    let ones: u64 = count % 10;
    let tens: u64 = count % 100;
    if ones == 1 && tens != 11 {
        Plural::One
    } else if 2 <= ones && ones <= 4 && !(12 <= tens && tens <= 14) {
        Plural::Few
    } else {
        Plural::Many
    }
}

/// A month by its number from 1 to 12, as a date names it.
pub open spec fn month_name(language: Language, month: int) -> &'static str {
    match language {
        Language::En => if month == 1 {
            "January"
        } else if month == 2 {
            "February"
        } else if month == 3 {
            "March"
        } else if month == 4 {
            "April"
        } else if month == 5 {
            "May"
        } else if month == 6 {
            "June"
        } else if month == 7 {
            "July"
        } else if month == 8 {
            "August"
        } else if month == 9 {
            "September"
        } else if month == 10 {
            "October"
        } else if month == 11 {
            "November"
        } else {
            "December"
        },
        Language::Ru => if month == 1 {
            "января"
        } else if month == 2 {
            "февраля"
        } else if month == 3 {
            "марта"
        } else if month == 4 {
            "апреля"
        } else if month == 5 {
            "мая"
        } else if month == 6 {
            "июня"
        } else if month == 7 {
            "июля"
        } else if month == 8 {
            "августа"
        } else if month == 9 {
            "сентября"
        } else if month == 10 {
            "октября"
        } else if month == 11 {
            "ноября"
        } else {
            "декабря"
        },
    }
}

fn month(language: Language, nth: u32) -> (r: &'static str)
    requires
        1 <= nth <= 12,
    ensures
        r@ == month_name(language, nth as int)@,
{
    match language {
        Language::En => match nth {
            1 => "January",
            2 => "February",
            3 => "March",
            4 => "April",
            5 => "May",
            6 => "June",
            7 => "July",
            8 => "August",
            9 => "September",
            10 => "October",
            11 => "November",
            _ => "December",
        },
        Language::Ru => match nth {
            1 => "января",
            2 => "февраля",
            3 => "марта",
            4 => "апреля",
            5 => "мая",
            6 => "июня",
            7 => "июля",
            8 => "августа",
            9 => "сентября",
            10 => "октября",
            11 => "ноября",
            _ => "декабря",
        },
    }
}

/// What a reminder is about, and whether that moment has passed.
pub open spec fn anchor_words(
    language: Language,
    anchor: ReminderAnchor,
    past: bool,
) -> &'static str {
    match (language, anchor, past) {
        (Language::En, ReminderAnchor::Deadline, false) => "Deadline",
        (Language::En, ReminderAnchor::Deadline, true) => "Deadline was",
        (Language::En, ReminderAnchor::Scheduled, false) => "Planned",
        (Language::En, ReminderAnchor::Scheduled, true) => "Was planned",
        (Language::En, ReminderAnchor::Start, false) => "Starts",
        (Language::En, ReminderAnchor::Start, true) => "Started",
        (Language::Ru, ReminderAnchor::Deadline, false) => "Дедлайн",
        (Language::Ru, ReminderAnchor::Deadline, true) => "Дедлайн был",
        (Language::Ru, ReminderAnchor::Scheduled, false) => "По плану",
        (Language::Ru, ReminderAnchor::Scheduled, true) => "По плану было",
        (Language::Ru, ReminderAnchor::Start, false) => "Начало",
        (Language::Ru, ReminderAnchor::Start, true) => "Началось",
    }
}

/// A day, named against today.
pub open spec fn day_words(language: Language, day: int, today: int) -> Text {
    if day == today {
        match language {
            Language::En => "today"@,
            Language::Ru => "сегодня"@,
        }
    } else if day == today + 1 {
        match language {
            Language::En => "tomorrow"@,
            Language::Ru => "завтра"@,
        }
    } else if day == today - 1 {
        match language {
            Language::En => "yesterday"@,
            Language::Ru => "вчера"@,
        }
    } else {
        let date = text::decimal(time::civil(day).2 as nat) + " "@ + month_name(
            language,
            time::civil(day).1,
        )@;
        match language {
            Language::En => "on "@ + date,
            Language::Ru => date,
        }
    }
}

/// A clock time after a day.
pub open spec fn at_words(language: Language, clock: Text) -> Text {
    match language {
        Language::En => "at "@ + clock,
        Language::Ru => "в "@ + clock,
    }
}

/// How long until a moment that is so many seconds away: the whole minutes or
/// hours nearest to it.
pub open spec fn wait_words(language: Language, seconds: int) -> Text {
    let minutes = (seconds + 30) / 60;
    let hours = (seconds + 1800) / 3600;
    if minutes < 1 {
        match language {
            Language::En => "in less than a minute"@,
            Language::Ru => "меньше чем через минуту"@,
        }
    } else if minutes < 60 {
        let n = text::decimal(minutes as nat);
        match (language, plural_of(minutes)) {
            (Language::En, _) => if minutes == 1 {
                "in a minute"@
            } else {
                "in "@ + n + " minutes"@
            },
            (Language::Ru, Plural::One) => if minutes == 1 {
                "через минуту"@
            } else {
                "через "@ + n + " минуту"@
            },
            (Language::Ru, Plural::Few) => "через "@ + n + " минуты"@,
            (Language::Ru, Plural::Many) => "через "@ + n + " минут"@,
        }
    } else {
        let n = text::decimal(hours as nat);
        match (language, plural_of(hours)) {
            (Language::En, _) => if hours == 1 {
                "in an hour"@
            } else {
                "in "@ + n + " hours"@
            },
            (Language::Ru, Plural::One) => if hours == 1 {
                "через час"@
            } else {
                "через "@ + n + " час"@
            },
            (Language::Ru, Plural::Few) => "через "@ + n + " часа"@,
            (Language::Ru, Plural::Many) => "через "@ + n + " часов"@,
        }
    }
}

/// Where the number of minutes stands in the words for a wait.
spec fn number_at(language: Language) -> int {
    match language {
        Language::En => 3,
        Language::Ru => 6,
    }
}

proof fn lemma_minutes_told(language: Language, seconds: int)
    requires
        1 <= (seconds + 30) / 60 < 60,
    ensures
        ({
            let minutes = (seconds + 30) / 60;
            let words = wait_words(language, seconds);
            let at = number_at(language);
            &&& words.len() > at + 1
            &&& minutes == 1 ==> !text::digit(words[at])
            &&& 1 < minutes < 10 ==> words[at] as int == 48 + minutes && words[at + 1] == ' '
            &&& 10 <= minutes ==> words[at] as int == 48 + minutes / 10 && words[at + 1] as int
                == 48 + minutes % 10
        }),
{
    let minutes = (seconds + 30) / 60;
    reveal_strlit("in a minute");
    reveal_strlit("in ");
    reveal_strlit(" minutes");
    reveal_strlit("через минуту");
    reveal_strlit("через ");
    reveal_strlit(" минуту");
    reveal_strlit(" минуты");
    reveal_strlit(" минут");
    let n = text::decimal(minutes as nat);
    if minutes < 10 {
        assert(n == seq![text::digit_char(minutes)]);
    } else {
        assert(text::decimal((minutes / 10) as nat) == seq![text::digit_char(minutes / 10)]);
        assert(n == seq![text::digit_char(minutes / 10)].push(text::digit_char(minutes % 10)));
    }
}

/// Waits of less than an hour are told apart by their minutes.
pub proof fn law_minutes_are_told_apart(language: Language, a: int, b: int)
    requires
        1 <= (a + 30) / 60 < (b + 30) / 60 < 60,
    ensures
        wait_words(language, a) != wait_words(language, b),
{
    lemma_minutes_told(language, a);
    lemma_minutes_told(language, b);
}

fn counted(before: &str, n: u64, after: &str) -> (r: String)
    ensures
        r@ == before@ + text::decimal(n as nat) + after@,
{
    let mut r = before.to_owned();
    r.append(text::number(n).as_str());
    r.append(after);
    r
}

impl Language {
    /// What a reminder is about, and whether that moment has passed.
    pub fn anchor(self, anchor: ReminderAnchor, past: bool) -> (r: &'static str)
        ensures
            r@ == anchor_words(self, anchor, past)@,
    {
        match (self, anchor, past) {
            (Language::En, ReminderAnchor::Deadline, false) => "Deadline",
            (Language::En, ReminderAnchor::Deadline, true) => "Deadline was",
            (Language::En, ReminderAnchor::Scheduled, false) => "Planned",
            (Language::En, ReminderAnchor::Scheduled, true) => "Was planned",
            (Language::En, ReminderAnchor::Start, false) => "Starts",
            (Language::En, ReminderAnchor::Start, true) => "Started",
            (Language::Ru, ReminderAnchor::Deadline, false) => "Дедлайн",
            (Language::Ru, ReminderAnchor::Deadline, true) => "Дедлайн был",
            (Language::Ru, ReminderAnchor::Scheduled, false) => "По плану",
            (Language::Ru, ReminderAnchor::Scheduled, true) => "По плану было",
            (Language::Ru, ReminderAnchor::Start, false) => "Начало",
            (Language::Ru, ReminderAnchor::Start, true) => "Началось",
        }
    }

    /// A day, named against today.
    pub fn day(self, day: Day, today: Day) -> (r: String)
        ensures
            r@ == day_words(self, day.nth(), today.nth()),
    {
        let n: i64 = day.number();
        let t: i64 = today.number();
        if n == t {
            return match self {
                Language::En => "today".to_owned(),
                Language::Ru => "сегодня".to_owned(),
            };
        }
        if n == t + 1 {
            return match self {
                Language::En => "tomorrow".to_owned(),
                Language::Ru => "завтра".to_owned(),
            };
        }
        if n == t - 1 {
            return match self {
                Language::En => "yesterday".to_owned(),
                Language::Ru => "вчера".to_owned(),
            };
        }
        let (_, m, d) = day.civil();
        let mut date = text::number(d as u64);
        date.append(" ");
        date.append(month(self, m));
        match self {
            Language::En => text::glue("on ", date.as_str()),
            Language::Ru => date,
        }
    }

    /// A clock time after a day: "at 18:00".
    pub fn at(self, time: &str) -> (r: String)
        ensures
            r@ == at_words(self, time@),
    {
        match self {
            Language::En => text::glue("at ", time),
            Language::Ru => text::glue("в ", time),
        }
    }

    /// How long until a moment, in whole minutes or hours.
    ///
    /// Both units round to the nearest, from the raw seconds: a reminder set an
    /// hour ahead is sent some seconds late, and must still say an hour. Deriving
    /// the hours from the minutes instead would round twice.
    pub fn in_time(self, seconds: i64) -> (r: String)
        ensures
            r@ == wait_words(self, seconds as int),
    {
        if seconds < 30 {
            return match self {
                Language::En => "in less than a minute".to_owned(),
                Language::Ru => "меньше чем через минуту".to_owned(),
            };
        }
        let minutes: u64 = (seconds as u64 + 30) / 60;
        if minutes < 60 {
            return match (self, plural(minutes)) {
                (Language::En, _) => if minutes == 1 {
                    "in a minute".to_owned()
                } else {
                    counted("in ", minutes, " minutes")
                },
                (Language::Ru, Plural::One) => if minutes == 1 {
                    "через минуту".to_owned()
                } else {
                    counted("через ", minutes, " минуту")
                },
                (Language::Ru, Plural::Few) => counted("через ", minutes, " минуты"),
                (Language::Ru, Plural::Many) => counted("через ", minutes, " минут"),
            };
        }
        let hours: u64 = (seconds as u64 + 1800) / 3600;
        match (self, plural(hours)) {
            (Language::En, _) => if hours == 1 {
                "in an hour".to_owned()
            } else {
                counted("in ", hours, " hours")
            },
            (Language::Ru, Plural::One) => if hours == 1 {
                "через час".to_owned()
            } else {
                counted("через ", hours, " час")
            },
            (Language::Ru, Plural::Few) => counted("через ", hours, " часа"),
            (Language::Ru, Plural::Many) => counted("через ", hours, " часов"),
        }
    }

    /// A day as it is written.
    pub open spec fn day_text(self, day: int) -> Text {
        match self {
            Language::En => time::dashed_day(day),
            Language::Ru => time::dotted_day(day),
        }
    }

    /// What stands before a deadline.
    pub open spec fn deadline_front(self) -> Text {
        match self {
            Language::En => "Deadline: "@,
            Language::Ru => "Дедлайн: "@,
        }
    }

    pub fn deadline_word(self) -> (r: &'static str)
        ensures
            r@ == self.deadline_front(),
    {
        match self {
            Language::En => "Deadline: ",
            Language::Ru => "Дедлайн: ",
        }
    }

    /// The deadline a task's description carries when the calendar cannot show
    /// it.
    pub fn deadline_line(self, date: Day, time: Option<&str>) -> (r: String)
        ensures
            r@ == self.deadline_front() + (match time {
                Some(time) => self.day_text(date.nth()) + " "@ + time@,
                None => self.day_text(date.nth()),
            }),
            10 <= self.day_text(date.nth()).len() <= 13,
            fold::plain(self.day_text(date.nth())),
    {
        let mut when = match self {
            Language::En => date.dashed(),
            Language::Ru => date.dotted(),
        };
        match time {
            Some(time) => {
                when.append(" ");
                when.append(time);
            },
            None => {},
        }
        text::glue(self.deadline_word(), when.as_str())
    }

    /// The name of the entry that stands for an event's deadline.
    pub open spec fn deadline_name(self, name: Text) -> Text {
        match self {
            Language::En => name + " (deadline)"@,
            Language::Ru => name + " (дедлайн)"@,
        }
    }

    pub fn deadline_entry(self, name: &str) -> (r: String)
        ensures
            r@ == self.deadline_name(name@),
    {
        match self {
            Language::En => text::glue(name, " (deadline)"),
            Language::Ru => text::glue(name, " (дедлайн)"),
        }
    }

    /// The calendar of tasks assigned to nobody.
    pub open spec fn nobody(self) -> &'static str {
        match self {
            Language::En => "Unassigned",
            Language::Ru => "Без исполнителя",
        }
    }

    pub fn unassigned(self) -> (r: &'static str)
        ensures
            r@ == self.nobody()@,
    {
        match self {
            Language::En => "Unassigned",
            Language::Ru => "Без исполнителя",
        }
    }

    /// The events calendar, unless it is named otherwise.
    pub fn events(self) -> (r: &'static str)
        ensures
            self == Language::En ==> r@ == "Events"@,
            self == Language::Ru ==> r@ == "События"@,
    {
        match self {
            Language::En => "Events",
            Language::Ru => "События",
        }
    }

    /// The body of the notification that tests the delivery.
    pub fn test_notification(self) -> (r: &'static str)
        ensures
            self == Language::En ==> r@ == "Test notification from anytype-caldav"@,
            self == Language::Ru ==> r@ == "Тестовое уведомление от anytype-caldav"@,
    {
        match self {
            Language::En => "Test notification from anytype-caldav",
            Language::Ru => "Тестовое уведомление от anytype-caldav",
        }
    }
}

/// A wait is told to the nearest unit: in minutes up to an hour and in hours from there on,
/// in the form that agrees with the number.
pub proof fn law_a_wait_is_told_to_the_nearest_unit(seconds: int, n: int)
    requires
        1 < n,
    ensures
        n < 60 && 60 * n - 30 <= seconds < 60 * n + 30 ==> wait_words(Language::En, seconds)
            == "in "@ + text::decimal(n as nat) + " minutes"@,
        3570 <= seconds && 3600 * n - 1800 <= seconds < 3600 * n + 1800 ==> wait_words(
            Language::En,
            seconds,
        ) == "in "@ + text::decimal(n as nat) + " hours"@,
        n < 60 && 60 * n - 30 <= seconds < 60 * n + 30 ==> wait_words(Language::Ru, seconds)
            == "через "@ + text::decimal(n as nat) + (if n % 10 == 1 && n != 11 {
            " минуту"@
        } else if 2 <= n % 10 <= 4 && !(12 <= n <= 14) {
            " минуты"@
        } else {
            " минут"@
        }),
        3570 <= seconds && 3600 * n - 1800 <= seconds < 3600 * n + 1800 ==> wait_words(
            Language::Ru,
            seconds,
        ) == "через "@ + text::decimal(n as nat) + (if n % 10 == 1 && n % 100 != 11 {
            " час"@
        } else if 2 <= n % 10 <= 4 && !(12 <= n % 100 <= 14) {
            " часа"@
        } else {
            " часов"@
        }),
{
    if n < 60 && 60 * n - 30 <= seconds < 60 * n + 30 {
        assert((seconds + 30) / 60 == n);
    }
    if 3570 <= seconds && 3600 * n - 1800 <= seconds < 3600 * n + 1800 {
        assert((seconds + 1800) / 3600 == n);
        assert((seconds + 30) / 60 >= 60);
    }
}

spec fn word_marks(s: Text) -> (nat, char, char) {
    (s.len(), s[0], s[2])
}

proof fn lemma_months()
    ensures
        forall|language: Language, a: int, b: int|
            1 <= a < b <= 12 ==> word_marks(#[trigger] month_name(language, a)@) != word_marks(
                #[trigger] month_name(language, b)@,
            ),
{
    reveal_strlit("January");
    reveal_strlit("February");
    reveal_strlit("March");
    reveal_strlit("April");
    reveal_strlit("May");
    reveal_strlit("June");
    reveal_strlit("July");
    reveal_strlit("August");
    reveal_strlit("September");
    reveal_strlit("October");
    reveal_strlit("November");
    reveal_strlit("December");
    reveal_strlit("января");
    reveal_strlit("февраля");
    reveal_strlit("марта");
    reveal_strlit("апреля");
    reveal_strlit("мая");
    reveal_strlit("июня");
    reveal_strlit("июля");
    reveal_strlit("августа");
    reveal_strlit("сентября");
    reveal_strlit("октября");
    reveal_strlit("ноября");
    reveal_strlit("декабря");
}

/// No two months have one name, in either language.
pub proof fn law_months_are_told_apart(language: Language, a: int, b: int)
    requires
        1 <= a < b <= 12,
    ensures
        month_name(language, a)@ != month_name(language, b)@,
{
    lemma_months();
    if month_name(language, a)@ == month_name(language, b)@ {
        assert(word_marks(month_name(language, a)@) == word_marks(month_name(language, b)@));
    }
}

/// What a reminder is about and whether its moment has passed can be told from its words.
pub proof fn law_anchors_are_told_apart(
    language: Language,
    a: ReminderAnchor,
    past_a: bool,
    b: ReminderAnchor,
    past_b: bool,
)
    requires
        a != b || past_a != past_b,
    ensures
        anchor_words(language, a, past_a)@ != anchor_words(language, b, past_b)@,
{
    reveal_strlit("Deadline");
    reveal_strlit("Deadline was");
    reveal_strlit("Planned");
    reveal_strlit("Was planned");
    reveal_strlit("Starts");
    reveal_strlit("Started");
    reveal_strlit("Дедлайн");
    reveal_strlit("Дедлайн был");
    reveal_strlit("По плану");
    reveal_strlit("По плану было");
    reveal_strlit("Начало");
    reveal_strlit("Началось");
    let one = anchor_words(language, a, past_a)@;
    let other = anchor_words(language, b, past_b)@;
    if one == other {
        assert(one.len() == other.len() && one[0] == other[0]);
    }
}

/// Only the days next to today are named against it; any other is told by its number in the
/// month and the name of the month.
pub proof fn law_a_day_is_told_by_its_date(language: Language, day: int, today: int)
    ensures
        ({
            let words = day_words(language, day, today);
            let date = text::decimal(time::civil(day).2 as nat) + " "@ + month_name(
                language,
                time::civil(day).1,
            )@;
            &&& day < today - 1 || day > today + 1 ==> text::ends_with(words, date)
            &&& (day == today + 1 ==> words == day_words(language, 1, 0))
            &&& (day == today ==> words == day_words(language, 0, 0))
            &&& (day == today - 1 ==> words == day_words(language, 0, 1))
        }),
        day_words(language, 1, 0) != day_words(language, 0, 0),
        day_words(language, 0, 1) != day_words(language, 0, 0),
        day_words(language, 0, 1) != day_words(language, 1, 0),
{
    reveal_strlit("today");
    reveal_strlit("tomorrow");
    reveal_strlit("yesterday");
    reveal_strlit("сегодня");
    reveal_strlit("завтра");
    reveal_strlit("вчера");
    assert("today"@.len() == 5 && "tomorrow"@.len() == 8 && "yesterday"@.len() == 9);
    assert("сегодня"@.len() == 7 && "завтра"@.len() == 6 && "вчера"@.len() == 5);
    let words = day_words(language, day, today);
    let date = text::decimal(time::civil(day).2 as nat) + " "@ + month_name(
        language,
        time::civil(day).1,
    )@;
    if day < today - 1 || day > today + 1 {
        assert(words.subrange(words.len() - date.len(), words.len() as int) == date);
    }
}

} // verus!
