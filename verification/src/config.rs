//! The settings: as they are written, and as they are once checked.
//!
//! Every complaint here ends the start of the program: one that runs with settings
//! it half understands would publish a calendar that is silently wrong.
use vstd::prelude::*;

use crate::locale::Language;
use crate::text;
use crate::text::Text;
use crate::time;
use crate::time::{Span, Zone};

verus! {

#[derive(Debug)]
pub enum ConfigError {
    Read { path: String, source: String },
    Parse { path: String, source: String },
    Invalid(String),
}

impl ConfigError {
    pub open spec fn words(self) -> Text {
        match self {
            ConfigError::Read { path, source } => "cannot read config file "@ + path@ + ": "@
                + source@,
            ConfigError::Parse { path, source } => "cannot parse config file "@ + path@ + ": "@
                + source@,
            ConfigError::Invalid(why) => why@,
        }
    }

    /// The error in words.
    pub fn message(&self) -> (r: String)
        ensures
            r@ == self.words(),
    {
        match self {
            ConfigError::Read { path, source } => {
                let mut m = text::glue("cannot read config file ", path.as_str());
                m.append(": ");
                m.append(source.as_str());
                m
            },
            ConfigError::Parse { path, source } => {
                let mut m = text::glue("cannot parse config file ", path.as_str());
                m.append(": ");
                m.append(source.as_str());
                m
            },
            ConfigError::Invalid(why) => why.clone(),
        }
    }
}

/// How a mapped property is found on an object: by its id or by its key, never by
/// the name a person reads, which is renamed freely.
#[derive(Debug, Clone, PartialEq, Eq)]
pub enum PropertySelector {
    Id(String),
    Key(String),
}

/// A selector as text.
pub enum SelectorView {
    Id(Text),
    Key(Text),
}

impl View for PropertySelector {
    type V = SelectorView;

    open spec fn view(&self) -> SelectorView {
        match self {
            PropertySelector::Id(value) => SelectorView::Id(value@),
            PropertySelector::Key(value) => SelectorView::Key(value@),
        }
    }
}

impl SelectorView {
    /// A selector as it is written.
    pub open spec fn written(self) -> Text {
        match self {
            SelectorView::Id(value) => "id:"@ + value,
            SelectorView::Key(value) => "key:"@ + value,
        }
    }
}

/// What a setting that selects a property says: the kind before the first colon and
/// the value behind it.
pub open spec fn selected(raw: Text) -> Option<SelectorView> {
    let raw = text::trimmed(raw);
    let colon = text::index_of(raw, ':');
    let kind = text::trimmed(raw.take(colon));
    let value = text::trimmed(raw.skip(colon + 1));
    if colon == raw.len() || value.len() == 0 {
        None
    } else if kind == "id"@ {
        Some(SelectorView::Id(value))
    } else if kind == "key"@ {
        Some(SelectorView::Key(value))
    } else {
        None
    }
}

/// What is wrong with a setting that selects a property.
pub open spec fn selector_problem(field: Text, raw: Text) -> Option<Text> {
    let raw = text::trimmed(raw);
    let colon = text::index_of(raw, ':');
    let kind = text::trimmed(raw.take(colon));
    let value = text::trimmed(raw.skip(colon + 1));
    if colon == raw.len() {
        Some(
            "properties."@ + field + " = \""@ + raw
                + "\" must be prefixed with \"id:\" or \"key:\""@,
        )
    } else if value.len() == 0 {
        Some("properties."@ + field + " has an empty selector value"@)
    } else if kind == "id"@ || kind == "key"@ {
        None
    } else {
        Some(
            "properties."@ + field + " has unknown selector kind \""@ + kind
                + "\", expected \"id\" or \"key\""@,
        )
    }
}

impl PropertySelector {
    /// Reads a selector; the error says what is wrong with it.
    pub fn parse(field: &str, raw: &str) -> (r: Result<PropertySelector, String>)
        ensures
            match r {
                Ok(selector) => selected(raw@) == Some(selector@) && selector_problem(
                    field@,
                    raw@,
                ) is None,
                Err(why) => selected(raw@) is None && selector_problem(field@, raw@) == Some(why@),
            },
    {
        let raw = text::trim(raw);
        let colon = text::position(raw, ':');
        let end = raw.unicode_len();
        if colon == end {
            let mut why = text::glue("properties.", field);
            why.append(" = \"");
            why.append(raw);
            why.append("\" must be prefixed with \"id:\" or \"key:\"");
            return Err(why);
        }
        let kind = text::trim(text::part(raw, 0, colon));
        let value = text::trim(text::part(raw, colon + 1, end));
        assert(raw@.subrange(0, colon as int) == raw@.take(colon as int));
        assert(raw@.subrange(colon + 1, end as int) == raw@.skip(colon + 1));
        if value.unicode_len() == 0 {
            let mut why = text::glue("properties.", field);
            why.append(" has an empty selector value");
            return Err(why);
        }
        proof {
            reveal_strlit("id");
            reveal_strlit("key");
        }
        if text::same(kind, "id") {
            Ok(PropertySelector::Id(value.to_owned()))
        } else if text::same(kind, "key") {
            Ok(PropertySelector::Key(value.to_owned()))
        } else {
            let mut why = text::glue("properties.", field);
            why.append(" has unknown selector kind \"");
            why.append(kind);
            why.append("\", expected \"id\" or \"key\"");
            Err(why)
        }
    }

    /// The selector as it is written.
    pub fn text(&self) -> (r: String)
        ensures
            r@ == self@.written(),
    {
        match self {
            PropertySelector::Id(value) => text::glue("id:", value.as_str()),
            PropertySelector::Key(value) => text::glue("key:", value.as_str()),
        }
    }

    /// Whether two selectors select the same property in the same way.
    pub fn same(&self, other: &PropertySelector) -> (r: bool)
        ensures
            r == (self@ == other@),
    {
        match (self, other) {
            (PropertySelector::Id(a), PropertySelector::Id(b)) => text::same(
                a.as_str(),
                b.as_str(),
            ),
            (PropertySelector::Key(a), PropertySelector::Key(b)) => text::same(
                a.as_str(),
                b.as_str(),
            ),
            _ => false,
        }
    }
}

/// What a selector writes selects the same property again.
pub proof fn law_a_written_selector_reads_back(selector: SelectorView)
    requires
        match selector {
            SelectorView::Id(value) | SelectorView::Key(value) => value.len() > 0
                && !text::white_space(value[0]) && !text::white_space(value.last()),
        },
    ensures
        selected(selector.written()) == Some(selector),
{
    reveal_strlit("id:");
    reveal_strlit("key:");
    reveal_strlit("id");
    reveal_strlit("key");
    let written = selector.written();
    let (kind, value) = match selector {
        SelectorView::Id(value) => ("id"@, value),
        SelectorView::Key(value) => ("key"@, value),
    };
    let at = kind.len() as int;
    assert(written == kind + seq![':'] + value);
    assert(written.last() == value.last());
    text::lemma_trimmed_is_same(written);
    text::lemma_trimmed_is_same(value);
    text::lemma_trimmed_is_same(kind);
    text::lemma_index_of(written, ':', at);
    assert(written.take(at) == kind);
    assert(written.skip(at + 1) == value);
}

// ------------------------------------------------------------- as written
/// A length of time as whole seconds and nanoseconds beyond them.
#[derive(Debug, Clone, Copy, PartialEq, Eq, Structural)]
pub struct Length {
    pub seconds: u64,
    pub nanos: u32,
}

impl Length {
    pub open spec fn zero(self) -> bool {
        self.seconds == 0 && self.nanos == 0
    }

    pub fn is_zero(&self) -> (r: bool)
        ensures
            r == self.zero(),
    {
        self.seconds == 0 && self.nanos == 0
    }

    pub fn of_seconds(seconds: u64) -> (r: Length)
        ensures
            r == (Length { seconds, nanos: 0 }),
    {
        Length { seconds, nanos: 0 }
    }
}

/// A length as a span; one that is too long is the longest there is, which no clock
/// outlasts.
pub fn span_of(length: &Length) -> (r: Span)
    ensures
        in_range(*length) ==> span_is(r, *length),
        !in_range(*length) ==> r.second() == time::LONGEST && r.nano() == 0,
{
    match time::measured(length.seconds, length.nanos) {
        Some(span) => span,
        None => time::longest(),
    }
}

#[derive(Debug)]
pub struct RawConfig {
    pub anytype: RawAnytype,
    pub properties: RawProperties,
    pub calendar: RawCalendar,
    pub server: RawServer,
    pub reminders: RawReminders,
    pub push: RawPush,
    pub series: RawSeries,
    pub caldav: RawCaldav,
}

#[derive(Debug)]
pub struct RawCaldav {
    pub enabled: bool,
    pub username: Option<String>,
    pub writable: bool,
    pub events: bool,
    pub settings: bool,
}

impl Default for RawCaldav {
    fn default() -> (r: RawCaldav)
        ensures
            !r.enabled && r.username is None && !r.writable && !r.events && !r.settings,
    {
        RawCaldav { enabled: false, username: None, writable: false, events: false, settings: false }
    }
}

#[derive(Debug)]
pub struct RawSeries {
    pub enabled: bool,
    pub poll_interval: Length,
}

impl Default for RawSeries {
    /// The generator acts once a day for each series; five minutes keep the day
    /// boundary tight without reading every task twice a minute.
    fn default() -> (r: RawSeries)
        ensures
            !r.enabled,
            r.poll_interval == (Length { seconds: 300, nanos: 0 }),
    {
        RawSeries { enabled: false, poll_interval: Length::of_seconds(300) }
    }
}

#[derive(Debug)]
pub struct RawPush {
    pub enabled: bool,
    pub private_key_file: Option<String>,
    pub state_file: Option<String>,
    pub poll_interval: Length,
    pub late_window: Length,
    pub app_url: Option<String>,
}

impl Default for RawPush {
    fn default() -> (r: RawPush)
        ensures
            !r.enabled && r.private_key_file is None && r.state_file is None && r.app_url is None,
            r.poll_interval == (Length { seconds: 30, nanos: 0 }),
            r.late_window == (Length { seconds: 3600, nanos: 0 }),
    {
        RawPush {
            enabled: false,
            private_key_file: None,
            state_file: None,
            poll_interval: Length::of_seconds(30),
            late_window: Length::of_seconds(3600),
            app_url: None,
        }
    }
}

#[derive(Debug)]
pub struct RawAnytype {
    pub url: String,
    pub space_id: String,
    pub type_key: String,
    pub max_objects: usize,
}

pub const DEFAULT_TYPE_KEY: &'static str = "task";

pub const DEFAULT_MAX_OBJECTS: usize = 5000;

#[derive(Debug)]
pub struct RawProperties {
    pub scheduled: String,
    pub deadline: String,
    pub done: String,
    pub reminder: Option<String>,
    pub tags: Option<String>,
    pub assignee: Option<String>,
}

impl Default for RawProperties {
    fn default() -> (r: RawProperties)
        ensures
            r.scheduled@ == "key:scheduled"@,
            r.deadline@ == "key:due_date"@,
            r.done@ == "key:done"@,
            r.reminder is None && r.tags is None && r.assignee is None,
    {
        RawProperties {
            scheduled: "key:scheduled".to_owned(),
            deadline: "key:due_date".to_owned(),
            done: "key:done".to_owned(),
            reminder: None,
            tags: None,
            assignee: None,
        }
    }
}

#[derive(Debug)]
pub struct RawCalendar {
    pub timezone: String,
    pub name: String,
    /// The display zone where it is not given.
    pub date_only_timezone: Option<String>,
    pub language: Language,
}

pub const DEFAULT_TIMEZONE: &'static str = "Europe/Saratov";

pub const DEFAULT_CALENDAR_NAME: &'static str = "Anytype Tasks";

impl Default for RawCalendar {
    fn default() -> (r: RawCalendar)
        ensures
            r.timezone@ == DEFAULT_TIMEZONE@,
            r.name@ == DEFAULT_CALENDAR_NAME@,
            r.date_only_timezone is None,
            r.language == Language::En,
    {
        RawCalendar {
            timezone: DEFAULT_TIMEZONE.to_owned(),
            name: DEFAULT_CALENDAR_NAME.to_owned(),
            date_only_timezone: None,
            language: Language::En,
        }
    }
}

#[derive(Debug)]
pub struct RawReminders {
    pub enabled: bool,
    pub lead_time: Length,
    pub all_day_time: String,
}

impl Default for RawReminders {
    fn default() -> (r: RawReminders)
        ensures
            r.enabled,
            r.lead_time == (Length { seconds: 1800, nanos: 0 }),
            r.all_day_time@ == "09:00"@,
    {
        RawReminders {
            enabled: true,
            lead_time: Length::of_seconds(1800),
            all_day_time: "09:00".to_owned(),
        }
    }
}

/// The path of the feed where none is configured.
pub const DEFAULT_FEED_PATH: &'static str = "/todos.ics";

#[derive(Debug)]
pub struct RawServer {
    pub listen: String,
    pub request_timeout: Length,
    pub min_refresh_interval: Length,
    pub allowed_origins: Vec<String>,
    pub feed_path: String,
}

impl Default for RawServer {
    fn default() -> (r: RawServer)
        ensures
            r.listen@ == "127.0.0.1:8080"@,
            r.request_timeout == (Length { seconds: 10, nanos: 0 }),
            r.min_refresh_interval == (Length { seconds: 30, nanos: 0 }),
            r.allowed_origins@.len() == 0,
            r.feed_path@ == DEFAULT_FEED_PATH@,
    {
        RawServer {
            listen: "127.0.0.1:8080".to_owned(),
            request_timeout: Length::of_seconds(10),
            min_refresh_interval: Length::of_seconds(30),
            allowed_origins: Vec::new(),
            feed_path: DEFAULT_FEED_PATH.to_owned(),
        }
    }
}

/// The setting that a variable of the environment gives: the names of its section and
/// of its key, in lower case.
pub open spec fn setting_of(variable: Text) -> Option<(Text, Text)> {
    match text::after_prefix(variable, "ANYTYPE_CALDAV__"@) {
        None => None,
        Some(rest) => match text::find(rest, "__"@) {
            None => None,
            Some(at) => {
                let section = text::lowered(rest.take(at));
                let key = text::lowered(rest.skip(at + 2));
                if section.len() == 0 || key.len() == 0 {
                    None
                } else {
                    Some((section, key))
                }
            },
        },
    }
}

pub open spec fn setting_view(setting: Option<(String, String)>) -> Option<(Text, Text)> {
    match setting {
        Some((section, key)) => Some((section@, key@)),
        None => None,
    }
}

/// The setting that a variable of the environment gives, if it gives one.
pub fn setting_in(variable: &str) -> (r: Option<(String, String)>)
    ensures
        setting_view(r) == setting_of(variable@),
{
    let rest = match text::strip_prefix(variable, "ANYTYPE_CALDAV__") {
        Some(rest) => rest,
        None => {
            return None;
        },
    };
    proof {
        reveal_strlit("__");
    }
    let at = match text::find_text(rest, "__") {
        Some(at) => at,
        None => {
            return None;
        },
    };
    let end = rest.unicode_len();
    let section = text::part(rest, 0, at);
    let key = text::part(rest, at + 2, end);
    assert(section@ == rest@.take(at as int));
    assert(key@ == rest@.skip(at + 2));
    if section.is_empty() || key.is_empty() {
        return None;
    }
    Some((text::to_lower(section), text::to_lower(key)))
}

// --------------------------------------------------------------- as checked
#[derive(Debug, Clone)]
pub struct Config {
    pub anytype: AnytypeConfig,
    pub properties: PropertiesConfig,
    pub calendar: CalendarConfig,
    pub server: ServerConfig,
    pub reminders: RemindersConfig,
    pub push: PushConfig,
    pub series: SeriesConfig,
    pub caldav: CaldavConfig,
}

/// The facade for calendar clients. The password is not here: settings hold no
/// secret.
#[derive(Debug, Clone)]
pub struct CaldavConfig {
    pub enabled: bool,
    pub username: String,
    /// Accept changes from clients.
    pub writable: bool,
    /// Serve events as well.
    pub events: bool,
    /// Keep the settings documents of the calendar app.
    pub settings: bool,
}

/// The generator of recurring tasks.
#[derive(Debug, Clone)]
pub struct SeriesConfig {
    pub enabled: bool,
    pub poll_interval: Length,
}

#[derive(Debug, Clone)]
pub struct PushConfig {
    pub enabled: bool,
    /// The file with the private key that signs push messages. Replacing it
    /// invalidates every subscription.
    pub private_key_file: Option<String>,
    /// The database of subscriptions and handled reminders.
    pub state_file: Option<String>,
    pub poll_interval: Length,
    pub late_window: Span,
    /// The calendar app that a tapped notification opens.
    pub app_url: Option<String>,
}

#[derive(Debug, Clone)]
pub struct RemindersConfig {
    pub enabled: bool,
    /// How long before a timed deadline the alarm sounds.
    pub lead_time: Span,
    /// The second of the day at which a whole day is announced.
    pub all_day_time: u32,
}

#[derive(Debug, Clone)]
pub struct AnytypeConfig {
    pub url: String,
    pub space_id: String,
    pub type_key: String,
    pub max_objects: usize,
}

#[derive(Debug, Clone)]
pub struct PropertiesConfig {
    pub scheduled: PropertySelector,
    pub deadline: PropertySelector,
    pub done: PropertySelector,
    /// Lead times of a single task.
    pub reminder: Option<PropertySelector>,
    /// Tags, written as categories.
    pub tags: Option<PropertySelector>,
    /// The people a task is assigned to; with it each of them has a calendar.
    pub assignee: Option<PropertySelector>,
}

#[derive(Debug, Clone)]
pub struct CalendarConfig {
    pub timezone: Zone,
    pub name: String,
    /// The zone whose midnights stand for whole days: how dates are stored, not
    /// how they are shown.
    pub date_only_timezone: Zone,
    pub language: Language,
}

/// An address to listen at.
#[derive(Debug, Clone)]
pub struct Listen {
    pub address: String,
    /// Whether it can be reached from this machine only.
    pub loopback: bool,
}

#[derive(Debug, Clone)]
pub struct ServerConfig {
    pub listen: Listen,
    pub request_timeout: Length,
    pub min_refresh_interval: Length,
    pub allowed_origins: Vec<String>,
    /// The path of the feed. On an address that others can reach it is all that
    /// keeps the tasks from anyone who visits, and is expected to hold a secret.
    pub feed_path: String,
}

impl ServerConfig {
    /// Whether the feed can be reached from outside this machine.
    pub fn is_publicly_bound(&self) -> (r: bool)
        ensures
            r == !self.listen.loopback,
    {
        !self.listen.loopback
    }

    /// Whether the path of the feed holds nothing secret.
    pub fn feed_path_is_guessable(&self) -> (r: bool)
        ensures
            r == (self.feed_path@ == DEFAULT_FEED_PATH@),
    {
        text::same(self.feed_path.as_str(), DEFAULT_FEED_PATH)
    }
}

/// Whether anyone who reaches the port can read every task: the feed asks for no
/// credentials, so on an address that others can reach only its path protects it.
pub fn is_exposed(server: &ServerConfig) -> (r: bool)
    ensures
        r == (!server.listen.loopback && server.feed_path@ == DEFAULT_FEED_PATH@),
{
    server.is_publicly_bound() && server.feed_path_is_guessable()
}

// ------------------------------------------------------------------- checks
/// The first of two complaints.
pub open spec fn first(a: Option<Text>, b: Option<Text>) -> Option<Text> {
    match a {
        Some(why) => Some(why),
        None => b,
    }
}

/// Whether a text is a web address as far as its scheme goes.
pub open spec fn web(s: Text) -> bool {
    text::starts_with(s, "http://"@) || text::starts_with(s, "https://"@)
}

fn is_web(s: &str) -> (r: bool)
    ensures
        r == web(s@),
{
    text::begins(s, "http://") || text::begins(s, "https://")
}

/// Whether a character is of the alphabet of content ids: base 32 in small letters.
pub open spec fn of_content_id(c: char) -> bool {
    'a' <= c <= 'z' || '2' <= c <= '7'
}

/// Whether a character is a digit to base 36 in small letters.
pub open spec fn of_hash(c: char) -> bool {
    'a' <= c <= 'z' || '0' <= c <= '9'
}

/// Whether a text has the shape of an object's id: a content id of fifty-nine
/// characters beginning with `bafyrei`, and where there is a dot, a hash of one to
/// thirteen characters behind it.
pub open spec fn object_id(s: Text) -> bool {
    let dot = text::index_of(s, '.');
    let head = s.take(dot);
    let hash = s.skip(dot + 1);
    &&& head.len() == 59
    &&& text::starts_with(head, "bafyrei"@)
    &&& forall|i: int| 0 <= i < head.len() ==> of_content_id(#[trigger] head[i])
    &&& dot < s.len() ==> 1 <= hash.len() <= 13 && forall|i: int|
        0 <= i < hash.len() ==> of_hash(#[trigger] hash[i])
}

/// Calls `anytype::validation::looks_like_object_id`, which tests the shape of an
/// id and nothing more: its length, its beginning, its alphabet, and the hash behind
/// the first dot, if there is one. It counts bytes; the alphabets make those the
/// characters of every text that it accepts.
#[verifier::external_body]
fn looks_like_object_id(s: &str) -> (r: bool)
    ensures
        r == object_id(s@),
{
    anytype::validation::looks_like_object_id(s)
}

/// A web address without white space around it and without slashes at its end.
pub open spec fn bare(s: Text) -> Text {
    text::without_last(text::trimmed(s), '/')
}

pub open spec fn anytype_problem(raw: RawAnytype) -> Option<Text> {
    let url = bare(raw.url@);
    let space = text::trimmed(raw.space_id@);
    if url.len() == 0 {
        Some("anytype.url must not be empty"@)
    } else if !web(url) {
        Some("anytype.url must start with http:// or https://, got \""@ + url + "\""@)
    } else if space.len() == 0 {
        Some("anytype.space_id must not be empty"@)
    } else if !object_id(space) {
        Some(
            "anytype.space_id = \""@ + space
                + "\" is not an Anytype id; expected a 59-character id beginning with \"bafyrei\", optionally followed by \".<hash>\""@,
        )
    } else if text::trimmed(raw.type_key@).len() == 0 {
        Some("anytype.type_key must not be empty"@)
    } else if raw.max_objects == 0 {
        Some("anytype.max_objects must be greater than zero"@)
    } else {
        None
    }
}

pub open spec fn anytype_is(config: AnytypeConfig, raw: RawAnytype) -> bool {
    &&& config.url@ == bare(raw.url@)
    &&& config.space_id@ == text::trimmed(raw.space_id@)
    &&& config.type_key@ == text::trimmed(raw.type_key@)
    &&& config.max_objects == raw.max_objects
}

fn check_anytype(raw: &RawAnytype) -> (r: Result<AnytypeConfig, String>)
    ensures
        match r {
            Ok(config) => anytype_problem(*raw) is None && anytype_is(config, *raw),
            Err(why) => anytype_problem(*raw) == Some(why@),
        },
{
    let url = text::drop_last_of(text::trim(raw.url.as_str()), '/');
    if url.unicode_len() == 0 {
        return Err("anytype.url must not be empty".to_owned());
    }
    if !is_web(url) {
        let mut why = text::glue("anytype.url must start with http:// or https://, got \"", url);
        why.append("\"");
        return Err(why);
    }
    let space = text::trim(raw.space_id.as_str());
    if space.unicode_len() == 0 {
        return Err("anytype.space_id must not be empty".to_owned());
    }
    if !looks_like_object_id(space) {
        let mut why = text::glue("anytype.space_id = \"", space);
        why.append(
            "\" is not an Anytype id; expected a 59-character id beginning with \"bafyrei\", optionally followed by \".<hash>\"",
        );
        return Err(why);
    }
    let type_key = text::trim(raw.type_key.as_str());
    if type_key.unicode_len() == 0 {
        return Err("anytype.type_key must not be empty".to_owned());
    }
    if raw.max_objects == 0 {
        return Err("anytype.max_objects must be greater than zero".to_owned());
    }
    Ok(
        AnytypeConfig {
            url: url.to_owned(),
            space_id: space.to_owned(),
            type_key: type_key.to_owned(),
            max_objects: raw.max_objects,
        },
    )
}

/// The complaint that a setting selects what a later one selects too.
pub open spec fn clash_with(
    field: Text,
    selector: SelectorView,
    rest: Seq<(Text, SelectorView)>,
) -> Option<Text>
    decreases rest.len(),
{
    if rest.len() == 0 {
        None
    } else if rest[0].1 == selector {
        Some(
            "properties."@ + field + " and properties."@ + rest[0].0 + " both select "@
                + selector.written() + "; they must be distinct"@,
        )
    } else {
        clash_with(field, selector, rest.drop_first())
    }
}

/// The complaint that two settings select one property, which would put one value
/// into two places of the calendar.
pub open spec fn clash(list: Seq<(Text, SelectorView)>) -> Option<Text>
    decreases list.len(),
{
    if list.len() == 0 {
        None
    } else {
        first(
            clash_with(list[0].0, list[0].1, list.drop_first()),
            clash(list.drop_first()),
        )
    }
}

proof fn lemma_no_clash_with(field: Text, selector: SelectorView, rest: Seq<(Text, SelectorView)>)
    ensures
        clash_with(field, selector, rest) is None <==> forall|j: int|
            0 <= j < rest.len() ==> (#[trigger] rest[j]).1 != selector,
    decreases rest.len(),
{
    if rest.len() > 0 {
        lemma_no_clash_with(field, selector, rest.drop_first());
        if rest[0].1 != selector {
            assert forall|j: int| 0 <= j < rest.len() - 1 implies rest.drop_first()[j]
                == #[trigger] rest[j + 1] by {}
            if clash_with(field, selector, rest.drop_first()) is None {
                assert forall|j: int| 0 <= j < rest.len() implies (#[trigger] rest[j]).1
                    != selector by {
                    if j > 0 {
                        assert(rest.drop_first()[j - 1] == rest[j]);
                    }
                }
            } else {
                let j = choose|j: int|
                    0 <= j < rest.drop_first().len() && (#[trigger] rest.drop_first()[j]).1
                        == selector;
                assert(rest[j + 1].1 == selector);
            }
        }
    }
}

/// There is no complaint exactly where every setting selects a property of its own.
pub proof fn law_a_clash_is_a_repeated_selector(list: Seq<(Text, SelectorView)>)
    ensures
        clash(list) is None <==> forall|i: int, j: int|
            0 <= i < j < list.len() ==> (#[trigger] list[i]).1 != (#[trigger] list[j]).1,
    decreases list.len(),
{
    if list.len() > 0 {
        let rest = list.drop_first();
        lemma_no_clash_with(list[0].0, list[0].1, rest);
        law_a_clash_is_a_repeated_selector(rest);
        assert forall|j: int| 0 <= j < rest.len() implies rest[j] == #[trigger] list[j + 1] by {}
        if clash(list) is None {
            assert forall|i: int, j: int| 0 <= i < j < list.len() implies (#[trigger] list[i]).1
                != (#[trigger] list[j]).1 by {
                assert(rest[j - 1] == list[j]);
                if i > 0 {
                    assert(rest[i - 1] == list[i]);
                }
            }
        } else if clash_with(list[0].0, list[0].1, rest) is Some {
            let j = choose|j: int| 0 <= j < rest.len() && (#[trigger] rest[j]).1 == list[0].1;
            assert(list[0].1 == list[j + 1].1);
        } else {
            let (i, j) = choose|i: int, j: int|
                0 <= i < j < rest.len() && (#[trigger] rest[i]).1 == (#[trigger] rest[j]).1;
            assert(list[i + 1].1 == list[j + 1].1);
        }
    }
}

spec fn entries(list: Seq<(&'static str, &PropertySelector)>) -> Seq<(Text, SelectorView)> {
    Seq::new(list.len(), |i: int| (list[i].0@, list[i].1@))
}

fn find_clash(list: &Vec<(&'static str, &PropertySelector)>) -> (r: Option<String>)
    ensures
        text::text_of(r) == clash(entries(list@)),
{
    let ghost all = entries(list@);
    assert(all.skip(0) == all);
    let mut i: usize = 0;
    while i < list.len()
        invariant
            i <= list@.len(),
            all == entries(list@),
            clash(all.skip(i as int)) == clash(all),
        decreases list@.len() - i,
    {
        let ghost rest = all.skip(i + 1);
        assert(all.skip(i as int).drop_first() == rest);
        assert(all.skip(i as int)[0] == all[i as int]);
        assert(rest.skip(0) == rest);
        let mut j: usize = i + 1;
        while j < list.len()
            invariant
                i < j <= list@.len(),
                all == entries(list@),
                rest == all.skip(i + 1),
                clash_with(all[i as int].0, all[i as int].1, all.skip(j as int)) == clash_with(
                    all[i as int].0,
                    all[i as int].1,
                    rest,
                ),
                clash(all.skip(i as int)) == clash(all),
                clash(all.skip(i as int)) == first(
                    clash_with(all[i as int].0, all[i as int].1, rest),
                    clash(rest),
                ),
            decreases list@.len() - j,
        {
            assert(all.skip(j as int).drop_first() == all.skip(j + 1));
            assert(all.skip(j as int)[0] == all[j as int]);
            if list[i].1.same(list[j].1) {
                let mut why = text::glue("properties.", list[i].0);
                why.append(" and properties.");
                why.append(list[j].0);
                why.append(" both select ");
                let selector = list[i].1.text();
                why.append(selector.as_str());
                why.append("; they must be distinct");
                return Some(why);
            }
            j += 1;
        }
        i += 1;
    }
    None
}

/// What the settings select, in the order in which they are compared.
pub open spec fn selections(raw: RawProperties) -> Seq<(Text, SelectorView)> {
    let always = seq![
        ("scheduled"@, selected(raw.scheduled@)->0),
        ("deadline"@, selected(raw.deadline@)->0),
        ("done"@, selected(raw.done@)->0),
    ];
    let reminded = match raw.reminder {
        Some(raw) => always.push(("reminder"@, selected(raw@)->0)),
        None => always,
    };
    let tagged = match raw.tags {
        Some(raw) => reminded.push(("tags"@, selected(raw@)->0)),
        None => reminded,
    };
    match raw.assignee {
        Some(raw) => tagged.push(("assignee"@, selected(raw@)->0)),
        None => tagged,
    }
}

/// What is wrong with a setting that may be left out.
pub open spec fn optional_problem(field: Text, raw: Option<String>) -> Option<Text> {
    match raw {
        Some(raw) => selector_problem(field, raw@),
        None => None,
    }
}

pub open spec fn properties_problem(raw: RawProperties) -> Option<Text> {
    first(
        selector_problem("scheduled"@, raw.scheduled@),
        first(
            selector_problem("deadline"@, raw.deadline@),
            first(
                selector_problem("done"@, raw.done@),
                first(
                    optional_problem("reminder"@, raw.reminder),
                    first(
                        optional_problem("tags"@, raw.tags),
                        first(
                            optional_problem("assignee"@, raw.assignee),
                            clash(selections(raw)),
                        ),
                    ),
                ),
            ),
        ),
    )
}

/// Whether an optional selector is what an optional setting says.
pub open spec fn optional_is(selector: Option<PropertySelector>, raw: Option<String>) -> bool {
    match (selector, raw) {
        (Some(selector), Some(raw)) => selected(raw@) == Some(selector@),
        (None, None) => true,
        _ => false,
    }
}

pub open spec fn properties_are(config: PropertiesConfig, raw: RawProperties) -> bool {
    &&& selected(raw.scheduled@) == Some(config.scheduled@)
    &&& selected(raw.deadline@) == Some(config.deadline@)
    &&& selected(raw.done@) == Some(config.done@)
    &&& optional_is(config.reminder, raw.reminder)
    &&& optional_is(config.tags, raw.tags)
    &&& optional_is(config.assignee, raw.assignee)
}

fn parse_optional(field: &str, raw: &Option<String>) -> (r: Result<
    Option<PropertySelector>,
    String,
>)
    ensures
        match r {
            Ok(selector) => optional_problem(field@, *raw) is None && optional_is(selector, *raw),
            Err(why) => optional_problem(field@, *raw) == Some(why@),
        },
{
    match raw {
        Some(raw) => match PropertySelector::parse(field, raw.as_str()) {
            Ok(selector) => Ok(Some(selector)),
            Err(why) => Err(why),
        },
        None => Ok(None),
    }
}

fn check_properties(raw: &RawProperties) -> (r: Result<PropertiesConfig, String>)
    ensures
        match r {
            Ok(config) => properties_problem(*raw) is None && properties_are(config, *raw),
            Err(why) => properties_problem(*raw) == Some(why@),
        },
{
    let scheduled = match PropertySelector::parse("scheduled", raw.scheduled.as_str()) {
        Ok(selector) => selector,
        Err(why) => return Err(why),
    };
    let deadline = match PropertySelector::parse("deadline", raw.deadline.as_str()) {
        Ok(selector) => selector,
        Err(why) => return Err(why),
    };
    let done = match PropertySelector::parse("done", raw.done.as_str()) {
        Ok(selector) => selector,
        Err(why) => return Err(why),
    };
    let reminder = match parse_optional("reminder", &raw.reminder) {
        Ok(selector) => selector,
        Err(why) => return Err(why),
    };
    let tags = match parse_optional("tags", &raw.tags) {
        Ok(selector) => selector,
        Err(why) => return Err(why),
    };
    let assignee = match parse_optional("assignee", &raw.assignee) {
        Ok(selector) => selector,
        Err(why) => return Err(why),
    };
    let mut list: Vec<(&'static str, &PropertySelector)> = Vec::new();
    list.push(("scheduled", &scheduled));
    list.push(("deadline", &deadline));
    list.push(("done", &done));
    if let Some(selector) = &reminder {
        list.push(("reminder", selector));
    }
    if let Some(selector) = &tags {
        list.push(("tags", selector));
    }
    if let Some(selector) = &assignee {
        list.push(("assignee", selector));
    }
    assert(entries(list@) =~= selections(*raw));
    if let Some(why) = find_clash(&list) {
        return Err(why);
    }
    Ok(PropertiesConfig { scheduled, deadline, done, reminder, tags, assignee })
}

/// What is wrong with a setting that names a time zone.
pub open spec fn zone_problem(field: Text, value: Text) -> Option<Text> {
    if time::is_zone(text::trimmed(value)) {
        None
    } else {
        Some(field + " = \""@ + value + "\" is not a valid IANA timezone name"@)
    }
}

/// Reads the name of a time zone; the error says what is wrong with it.
pub fn parse_tz(field: &str, value: &str) -> (r: Result<Zone, String>)
    ensures
        match r {
            Ok(zone) => zone@ == text::trimmed(value@) && zone_problem(field@, value@) is None,
            Err(why) => zone_problem(field@, value@) == Some(why@),
        },
{
    match Zone::parse(text::trim(value)) {
        Some(zone) => Ok(zone),
        None => {
            let mut why = text::glue(field, " = \"");
            why.append(value);
            why.append("\" is not a valid IANA timezone name");
            Err(why)
        },
    }
}

pub open spec fn calendar_problem(raw: RawCalendar) -> Option<Text> {
    first(
        zone_problem("calendar.timezone"@, raw.timezone@),
        first(
            match raw.date_only_timezone {
                Some(value) => zone_problem("calendar.date_only_timezone"@, value@),
                None => None,
            },
            if text::trimmed(raw.name@).len() == 0 {
                Some("calendar.name must not be empty"@)
            } else {
                None
            },
        ),
    )
}

pub open spec fn calendar_is(config: CalendarConfig, raw: RawCalendar) -> bool {
    &&& config.timezone@ == text::trimmed(raw.timezone@)
    &&& config.date_only_timezone@ == match raw.date_only_timezone {
        Some(value) => text::trimmed(value@),
        None => text::trimmed(raw.timezone@),
    }
    &&& config.name@ == text::trimmed(raw.name@)
    &&& config.language == raw.language
}

fn check_calendar(raw: &RawCalendar) -> (r: Result<CalendarConfig, String>)
    ensures
        match r {
            Ok(config) => calendar_problem(*raw) is None && calendar_is(config, *raw),
            Err(why) => calendar_problem(*raw) == Some(why@),
        },
{
    let timezone = match parse_tz("calendar.timezone", raw.timezone.as_str()) {
        Ok(zone) => zone,
        Err(why) => return Err(why),
    };
    let date_only_timezone = match &raw.date_only_timezone {
        Some(value) => match parse_tz("calendar.date_only_timezone", value.as_str()) {
            Ok(zone) => zone,
            Err(why) => return Err(why),
        },
        None => timezone.copy(),
    };
    let name = text::trim(raw.name.as_str());
    if name.unicode_len() == 0 {
        return Err("calendar.name must not be empty".to_owned());
    }
    Ok(
        CalendarConfig {
            timezone,
            name: name.to_owned(),
            date_only_timezone,
            language: raw.language,
        },
    )
}

/// What is wrong with an origin that may read the feed.
pub open spec fn origin_problem(raw: Text) -> Option<Text> {
    let origin = bare(raw);
    if origin.len() == 0 {
        Some("server.allowed_origins contains an empty entry"@)
    } else if origin == "*"@ {
        Some(
            "server.allowed_origins does not accept \"*\": the feed is unauthenticated, so a wildcard would let any page the user visits read the whole task list"@,
        )
    } else if !web(origin) {
        Some(
            "server.allowed_origins entry \""@ + origin
                + "\" must be a full origin, e.g. https://calino.io"@,
        )
    } else {
        None
    }
}

/// What is wrong with the first bad one of the origins.
pub open spec fn origins_problem(raw: Seq<Text>) -> Option<Text>
    decreases raw.len(),
{
    if raw.len() == 0 {
        None
    } else {
        first(origins_problem(raw.drop_last()), origin_problem(raw.last()))
    }
}

fn check_origin(raw: &str) -> (r: Result<String, String>)
    ensures
        match r {
            Ok(origin) => origin@ == bare(raw@) && origin_problem(raw@) is None,
            Err(why) => origin_problem(raw@) == Some(why@),
        },
{
    let origin = text::drop_last_of(text::trim(raw), '/');
    if origin.unicode_len() == 0 {
        return Err("server.allowed_origins contains an empty entry".to_owned());
    }
    if text::same(origin, "*") {
        return Err(
            "server.allowed_origins does not accept \"*\": the feed is unauthenticated, so a wildcard would let any page the user visits read the whole task list".to_owned(),
        );
    }
    if !is_web(origin) {
        let mut why = text::glue("server.allowed_origins entry \"", origin);
        why.append("\" must be a full origin, e.g. https://calino.io");
        return Err(why);
    }
    Ok(origin.to_owned())
}

proof fn lemma_later_origins(raw: Seq<Text>, n: int)
    requires
        0 <= n <= raw.len(),
        origins_problem(raw.take(n)) is Some,
    ensures
        origins_problem(raw) == origins_problem(raw.take(n)),
    decreases raw.len() - n,
{
    if n < raw.len() {
        assert(raw.take(n + 1).drop_last() == raw.take(n));
        lemma_later_origins(raw, n + 1);
    } else {
        assert(raw.take(n) == raw);
    }
}

fn check_origins(raw: &Vec<String>) -> (r: Result<Vec<String>, String>)
    ensures
        match r {
            Ok(origins) => origins_problem(text::texts(raw@)) is None && text::texts(origins@)
                == text::texts(raw@).map_values(|s: Text| bare(s)),
            Err(why) => origins_problem(text::texts(raw@)) == Some(why@),
        },
{
    let ghost all = text::texts(raw@);
    let mut origins: Vec<String> = Vec::new();
    let mut i: usize = 0;
    while i < raw.len()
        invariant
            i <= raw@.len(),
            all == text::texts(raw@),
            origins_problem(all.take(i as int)) is None,
            text::texts(origins@) == all.take(i as int).map_values(|s: Text| bare(s)),
        decreases raw@.len() - i,
    {
        assert(all.take(i + 1).drop_last() == all.take(i as int));
        assert(all.take(i + 1).last() == raw@[i as int]@);
        let ghost before = origins@;
        match check_origin(raw[i].as_str()) {
            Ok(origin) => {
                origins.push(origin);
                assert(text::texts(origins@) == text::texts(before).push(origin@));
                assert(all.take(i + 1).map_values(|s: Text| bare(s)) == all.take(
                    i as int,
                ).map_values(|s: Text| bare(s)).push(bare(all[i as int])));
            },
            Err(why) => {
                proof {
                    lemma_later_origins(all, i + 1);
                }
                return Err(why);
            },
        }
        i += 1;
    }
    assert(all.take(raw@.len() as int) == all);
    Ok(origins)
}

/// What passes as an origin is a full web address and never a wildcard.
pub proof fn law_accepted_origins_are_full(raw: Seq<Text>, i: int)
    requires
        origins_problem(raw) is None,
        0 <= i < raw.len(),
    ensures
        web(bare(raw[i])),
        bare(raw[i]) != "*"@,
    decreases raw.len(),
{
    if i < raw.len() - 1 {
        law_accepted_origins_are_full(raw.drop_last(), i);
    }
}

/// What is wrong with the path of the feed.
pub open spec fn feed_path_problem(raw: Text) -> Option<Text> {
    let path = text::trimmed(raw);
    if !text::starts_with(path, "/"@) {
        Some("server.feed_path = \""@ + path + "\" must start with \"/\""@)
    } else if path == "/healthz"@ {
        Some("server.feed_path must not collide with /healthz"@)
    } else if text::contains(path, "//"@) || text::ends_with(path, "/"@) {
        Some("server.feed_path = \""@ + path + "\" must be a normalized path"@)
    } else {
        None
    }
}

fn check_feed_path(raw: &str) -> (r: Result<String, String>)
    ensures
        match r {
            Ok(path) => path@ == text::trimmed(raw@) && feed_path_problem(raw@) is None,
            Err(why) => feed_path_problem(raw@) == Some(why@),
        },
{
    let path = text::trim(raw);
    if !text::begins(path, "/") {
        let mut why = text::glue("server.feed_path = \"", path);
        why.append("\" must start with \"/\"");
        return Err(why);
    }
    if text::same(path, "/healthz") {
        return Err("server.feed_path must not collide with /healthz".to_owned());
    }
    if text::has(path, "//") || text::ends(path, "/") {
        let mut why = text::glue("server.feed_path = \"", path);
        why.append("\" must be a normalized path");
        return Err(why);
    }
    Ok(path.to_owned())
}

pub open spec fn server_problem(raw: RawServer, listen: Option<Listen>) -> Option<Text> {
    if listen is None {
        Some("server.listen = \""@ + raw.listen@ + "\" is not a valid socket address"@)
    } else if raw.request_timeout.zero() {
        Some("server.request_timeout must be greater than zero"@)
    } else {
        first(
            origins_problem(text::texts(raw.allowed_origins@)),
            feed_path_problem(raw.feed_path@),
        )
    }
}

pub open spec fn server_is(config: ServerConfig, raw: RawServer, listen: Option<Listen>) -> bool {
    &&& Some(config.listen) == listen
    &&& config.request_timeout == raw.request_timeout
    &&& config.min_refresh_interval == raw.min_refresh_interval
    &&& text::texts(config.allowed_origins@) == text::texts(raw.allowed_origins@).map_values(
        |s: Text| bare(s),
    )
    &&& config.feed_path@ == text::trimmed(raw.feed_path@)
}

fn check_server(raw: &RawServer, listen: Option<Listen>) -> (r: Result<ServerConfig, String>)
    ensures
        match r {
            Ok(config) => server_problem(*raw, listen) is None && server_is(config, *raw, listen),
            Err(why) => server_problem(*raw, listen) == Some(why@),
        },
{
    let listen = match listen {
        Some(listen) => listen,
        None => {
            let mut why = text::glue("server.listen = \"", raw.listen.as_str());
            why.append("\" is not a valid socket address");
            return Err(why);
        },
    };
    if raw.request_timeout.is_zero() {
        return Err("server.request_timeout must be greater than zero".to_owned());
    }
    let allowed_origins = match check_origins(&raw.allowed_origins) {
        Ok(origins) => origins,
        Err(why) => return Err(why),
    };
    let feed_path = match check_feed_path(raw.feed_path.as_str()) {
        Ok(path) => path,
        Err(why) => return Err(why),
    };
    Ok(
        ServerConfig {
            listen,
            request_timeout: raw.request_timeout,
            min_refresh_interval: raw.min_refresh_interval,
            allowed_origins,
            feed_path,
        },
    )
}

/// Whether a length fits a span.
pub open spec fn in_range(length: Length) -> bool {
    length.nanos < 1_000_000_000 && time::short_enough(length.seconds as int, length.nanos as int)
}

pub open spec fn span_is(span: Span, length: Length) -> bool {
    span.second() == length.seconds && span.nano() == length.nanos
}

pub open spec fn reminders_problem(raw: RawReminders) -> Option<Text> {
    if time::parsed_clock(text::trimmed(raw.all_day_time@)) is None {
        Some(
            "reminders.all_day_time = \""@ + raw.all_day_time@
                + "\" must be a time of day like \"09:00\""@,
        )
    } else if !in_range(raw.lead_time) {
        Some("reminders.lead_time is out of range"@)
    } else {
        None
    }
}

pub open spec fn reminders_are(config: RemindersConfig, raw: RawReminders) -> bool {
    &&& config.enabled == raw.enabled
    &&& span_is(config.lead_time, raw.lead_time)
    &&& time::parsed_clock(text::trimmed(raw.all_day_time@)) == Some(config.all_day_time as int)
    &&& config.all_day_time < 86_400
}

fn check_reminders(raw: &RawReminders) -> (r: Result<RemindersConfig, String>)
    ensures
        match r {
            Ok(config) => reminders_problem(*raw) is None && reminders_are(config, *raw),
            Err(why) => reminders_problem(*raw) == Some(why@),
        },
{
    let all_day_time = match time::read_clock(text::trim(raw.all_day_time.as_str())) {
        Some(clock) => clock,
        None => {
            let mut why = text::glue("reminders.all_day_time = \"", raw.all_day_time.as_str());
            why.append("\" must be a time of day like \"09:00\"");
            return Err(why);
        },
    };
    match time::measured(raw.lead_time.seconds, raw.lead_time.nanos) {
        Some(lead_time) => Ok(RemindersConfig { enabled: raw.enabled, lead_time, all_day_time }),
        None => Err("reminders.lead_time is out of range".to_owned()),
    }
}

/// A path with a leading `~/` replaced by the home directory, where that is known.
pub open spec fn expanded(path: Text, home: Option<Text>) -> Text {
    match (text::after_prefix(path, "~/"@), home) {
        (Some(rest), Some(home)) => home + "/"@ + rest,
        _ => path,
    }
}

/// A path with a leading `~/` replaced by the home directory, where that is known.
pub fn shellexpand(path: &str, home: &Option<String>) -> (r: String)
    ensures
        r@ == expanded(path@, text::text_of(*home)),
{
    match (text::strip_prefix(path, "~/"), home) {
        (Some(rest), Some(home)) => {
            let mut full = text::glue(home.as_str(), "/");
            full.append(rest);
            full
        },
        _ => path.to_owned(),
    }
}

pub open spec fn file_is(file: Option<String>, raw: Option<String>, home: Option<Text>) -> bool {
    match (file, raw) {
        (Some(file), Some(raw)) => file@ == expanded(raw@, home),
        (None, None) => true,
        _ => false,
    }
}

fn expand_file(raw: &Option<String>, home: &Option<String>) -> (r: Option<String>)
    ensures
        file_is(r, *raw, text::text_of(*home)),
{
    match raw {
        Some(path) => Some(shellexpand(path.as_str(), home)),
        None => None,
    }
}

pub open spec fn push_problem(raw: RawPush) -> Option<Text> {
    if raw.enabled && raw.private_key_file is None {
        Some("push.enabled is true but push.private_key_file is not set"@)
    } else if raw.enabled && raw.state_file is None {
        Some("push.enabled is true but push.state_file is not set"@)
    } else if raw.poll_interval.zero() {
        Some("push.poll_interval must be greater than zero"@)
    } else if raw.late_window.zero() {
        Some("push.late_window must be greater than zero"@)
    } else if !in_range(raw.late_window) {
        Some("push.late_window is out of range"@)
    } else {
        None
    }
}

/// The app's address without white space around it, where anything is left of it.
pub open spec fn app_url_of(raw: Option<String>) -> Option<Text> {
    match raw {
        Some(url) => if text::trimmed(url@).len() > 0 {
            Some(text::trimmed(url@))
        } else {
            None
        },
        None => None,
    }
}

pub open spec fn push_is(config: PushConfig, raw: RawPush, home: Option<Text>) -> bool {
    &&& config.enabled == raw.enabled
    &&& file_is(config.private_key_file, raw.private_key_file, home)
    &&& file_is(config.state_file, raw.state_file, home)
    &&& config.poll_interval == raw.poll_interval
    &&& span_is(config.late_window, raw.late_window)
    &&& text::text_of(config.app_url) == app_url_of(raw.app_url)
}

fn check_push(raw: &RawPush, home: &Option<String>) -> (r: Result<PushConfig, String>)
    ensures
        match r {
            Ok(config) => push_problem(*raw) is None && push_is(
                config,
                *raw,
                text::text_of(*home),
            ),
            Err(why) => push_problem(*raw) == Some(why@),
        },
{
    if raw.enabled && raw.private_key_file.is_none() {
        return Err("push.enabled is true but push.private_key_file is not set".to_owned());
    }
    if raw.enabled && raw.state_file.is_none() {
        return Err("push.enabled is true but push.state_file is not set".to_owned());
    }
    if raw.poll_interval.is_zero() {
        return Err("push.poll_interval must be greater than zero".to_owned());
    }
    if raw.late_window.is_zero() {
        return Err("push.late_window must be greater than zero".to_owned());
    }
    let late_window = match time::measured(raw.late_window.seconds, raw.late_window.nanos) {
        Some(span) => span,
        None => return Err("push.late_window is out of range".to_owned()),
    };
    let app_url = match &raw.app_url {
        Some(url) => {
            let url = text::trim(url.as_str());
            if url.unicode_len() > 0 {
                Some(url.to_owned())
            } else {
                None
            }
        },
        None => None,
    };
    Ok(
        PushConfig {
            enabled: raw.enabled,
            private_key_file: expand_file(&raw.private_key_file, home),
            state_file: expand_file(&raw.state_file, home),
            poll_interval: raw.poll_interval,
            late_window,
            app_url,
        },
    )
}

/// The user name of the facade without white space around it.
pub open spec fn username_of(raw: RawCaldav) -> Text {
    match raw.username {
        Some(name) => text::trimmed(name@),
        None => Seq::empty(),
    }
}

/// What is wrong with the settings of the generator and of the facade. The
/// generator remembers what it made in the database of the push service, so that
/// what a person deleted is not made again.
pub open spec fn services_problem(raw: RawConfig) -> Option<Text> {
    if raw.series.enabled && raw.push.state_file is None {
        Some("series.enabled is true but push.state_file is not set"@)
    } else if raw.caldav.enabled && username_of(raw.caldav).len() == 0 {
        Some("caldav.enabled is true but caldav.username is not set"@)
    } else if raw.series.poll_interval.zero() {
        Some("series.poll_interval must be greater than zero"@)
    } else {
        None
    }
}

pub open spec fn caldav_is(config: CaldavConfig, raw: RawCaldav) -> bool {
    &&& config.enabled == raw.enabled
    &&& config.username@ == username_of(raw)
    &&& config.writable == (raw.enabled && raw.writable)
    &&& config.events == (raw.enabled && raw.events)
    &&& config.settings == (raw.enabled && raw.settings)
}

/// The first thing that is wrong with the settings.
pub open spec fn problem(raw: RawConfig, listen: Option<Listen>) -> Option<Text> {
    first(
        anytype_problem(raw.anytype),
        first(
            properties_problem(raw.properties),
            first(
                calendar_problem(raw.calendar),
                first(
                    server_problem(raw.server, listen),
                    first(
                        reminders_problem(raw.reminders),
                        first(push_problem(raw.push), services_problem(raw)),
                    ),
                ),
            ),
        ),
    )
}

/// Whether checked settings are what the written ones say.
pub open spec fn config_is(
    config: Config,
    raw: RawConfig,
    listen: Option<Listen>,
    home: Option<Text>,
) -> bool {
    &&& anytype_is(config.anytype, raw.anytype)
    &&& properties_are(config.properties, raw.properties)
    &&& calendar_is(config.calendar, raw.calendar)
    &&& server_is(config.server, raw.server, listen)
    &&& reminders_are(config.reminders, raw.reminders)
    &&& push_is(config.push, raw.push, home)
    &&& config.series.enabled == raw.series.enabled
    &&& config.series.poll_interval == raw.series.poll_interval
    &&& caldav_is(config.caldav, raw.caldav)
}

impl Config {
    /// Checks the settings. `listen` is what the address to listen at was read as,
    /// where it is one; `home` is the home directory, where it is known.
    pub fn validate(raw: RawConfig, listen: Option<Listen>, home: Option<String>) -> (r: Result<
        Config,
        ConfigError,
    >)
        ensures
            match r {
                Ok(config) => problem(raw, listen) is None && config_is(
                    config,
                    raw,
                    listen,
                    text::text_of(home),
                ),
                Err(ConfigError::Invalid(why)) => problem(raw, listen) == Some(why@),
                Err(_) => false,
            },
    {
        let anytype = match check_anytype(&raw.anytype) {
            Ok(config) => config,
            Err(why) => return Err(ConfigError::Invalid(why)),
        };
        let properties = match check_properties(&raw.properties) {
            Ok(config) => config,
            Err(why) => return Err(ConfigError::Invalid(why)),
        };
        let calendar = match check_calendar(&raw.calendar) {
            Ok(config) => config,
            Err(why) => return Err(ConfigError::Invalid(why)),
        };
        let server = match check_server(&raw.server, listen) {
            Ok(config) => config,
            Err(why) => return Err(ConfigError::Invalid(why)),
        };
        let reminders = match check_reminders(&raw.reminders) {
            Ok(config) => config,
            Err(why) => return Err(ConfigError::Invalid(why)),
        };
        let push = match check_push(&raw.push, &home) {
            Ok(config) => config,
            Err(why) => return Err(ConfigError::Invalid(why)),
        };
        if raw.series.enabled && raw.push.state_file.is_none() {
            return Err(
                ConfigError::Invalid(
                    "series.enabled is true but push.state_file is not set".to_owned(),
                ),
            );
        }
        let username = match &raw.caldav.username {
            Some(name) => text::trim(name.as_str()).to_owned(),
            None => String::new(),
        };
        if raw.caldav.enabled && username.as_str().unicode_len() == 0 {
            return Err(
                ConfigError::Invalid(
                    "caldav.enabled is true but caldav.username is not set".to_owned(),
                ),
            );
        }
        if raw.series.poll_interval.is_zero() {
            return Err(
                ConfigError::Invalid("series.poll_interval must be greater than zero".to_owned()),
            );
        }
        Ok(
            Config {
                anytype,
                properties,
                calendar,
                server,
                reminders,
                push,
                series: SeriesConfig {
                    enabled: raw.series.enabled,
                    poll_interval: raw.series.poll_interval,
                },
                caldav: CaldavConfig {
                    enabled: raw.caldav.enabled,
                    username,
                    writable: raw.caldav.enabled && raw.caldav.writable,
                    events: raw.caldav.enabled && raw.caldav.events,
                    settings: raw.caldav.enabled && raw.caldav.settings,
                },
            },
        )
    }
}

// ------------------------------------------------------------------- what is accepted
/// Whether an address can be asked for objects: it names the web and is written without
/// slashes at its end.
pub open spec fn reachable_url(url: Text) -> bool {
    text::starts_with(url, "http://"@) || text::starts_with(url, "https://"@)
}

/// Whether settings can be worked with, section by section.
pub open spec fn usable(raw: RawConfig, listen: Option<Listen>) -> bool {
    &&& reachable_url(bare(raw.anytype.url@)) && object_id(text::trimmed(raw.anytype.space_id@))
    &&& text::trimmed(raw.anytype.type_key@).len() > 0 && raw.anytype.max_objects > 0
    &&& properties_problem(raw.properties) is None
    &&& time::is_zone(text::trimmed(raw.calendar.timezone@))
    &&& raw.calendar.date_only_timezone matches Some(zone) ==> time::is_zone(text::trimmed(zone@))
    &&& text::trimmed(raw.calendar.name@).len() > 0
    &&& listen is Some && !raw.server.request_timeout.zero()
    &&& forall|i: int|
        0 <= i < raw.server.allowed_origins@.len() ==> reachable_url(
            bare((#[trigger] raw.server.allowed_origins@[i])@),
        )
    &&& ({
        let path = text::trimmed(raw.server.feed_path@);
        text::starts_with(path, "/"@) && path != "/healthz"@ && !text::contains(path, "//"@)
            && !text::ends_with(path, "/"@)
    })
    &&& time::parsed_clock(text::trimmed(raw.reminders.all_day_time@)) is Some
    &&& in_range(raw.reminders.lead_time)
    &&& raw.push.enabled ==> raw.push.private_key_file is Some && raw.push.state_file is Some
    &&& !raw.push.poll_interval.zero() && !raw.push.late_window.zero() && in_range(
        raw.push.late_window,
    )
    &&& raw.series.enabled ==> raw.push.state_file is Some
    &&& raw.caldav.enabled ==> (raw.caldav.username matches Some(name) && text::trimmed(
        name@,
    ).len() > 0)
    &&& !raw.series.poll_interval.zero()
}

proof fn lemma_origins_accepted(raw: Seq<Text>)
    ensures
        origins_problem(raw) is None <==> forall|i: int|
            0 <= i < raw.len() ==> reachable_url(bare(#[trigger] raw[i])),
    decreases raw.len(),
{
    reveal_strlit("http://");
    reveal_strlit("https://");
    reveal_strlit("*");
    if raw.len() > 0 {
        let front = raw.drop_last();
        lemma_origins_accepted(front);
        let last = bare(raw.last());
        assert(raw[raw.len() - 1] == raw.last());
        assert(origin_problem(raw.last()) is None <==> reachable_url(last)) by {
            if reachable_url(last) {
                assert(last.len() >= 7);
                assert("*"@.len() == 1);
            }
        }
        if forall|i: int| 0 <= i < raw.len() ==> reachable_url(bare(#[trigger] raw[i])) {
            assert forall|i: int| 0 <= i < front.len() implies reachable_url(
                bare(#[trigger] front[i]),
            ) by {
                assert(front[i] == raw[i]);
            }
        }
        if origins_problem(raw) is None {
            assert forall|i: int| 0 <= i < raw.len() implies reachable_url(
                bare(#[trigger] raw[i]),
            ) by {
                if i < front.len() {
                    assert(front[i] == raw[i]);
                }
            }
        }
    }
}

/// Settings are accepted exactly where they can be worked with.
pub proof fn law_what_settings_are_accepted(raw: RawConfig, listen: Option<Listen>)
    ensures
        problem(raw, listen) is None <==> usable(raw, listen),
{
    reveal_strlit("http://");
    reveal_strlit("https://");
    lemma_origins_accepted(text::texts(raw.server.allowed_origins@));
    let origins = text::texts(raw.server.allowed_origins@);
    assert((forall|i: int| 0 <= i < origins.len() ==> reachable_url(bare(#[trigger] origins[i])))
        <==> forall|i: int|
        0 <= i < raw.server.allowed_origins@.len() ==> reachable_url(
            bare((#[trigger] raw.server.allowed_origins@[i])@),
        )) by {
        if forall|i: int| 0 <= i < origins.len() ==> reachable_url(bare(#[trigger] origins[i])) {
            assert forall|i: int| 0 <= i < raw.server.allowed_origins@.len() implies reachable_url(
                bare((#[trigger] raw.server.allowed_origins@[i])@),
            ) by {
                assert(origins[i] == raw.server.allowed_origins@[i]@);
            }
        }
    }
    let url = bare(raw.anytype.url@);
    let space = text::trimmed(raw.anytype.space_id@);
    if reachable_url(url) {
        assert(url.len() > 0);
    }
    if object_id(space) {
        assert(space.take(text::index_of(space, '.')).len() == 59);
        if space.len() == 0 {
            assert(text::index_of(space, '.') == 0);
        }
    }
}

/// A facade that is switched off offers nothing; one that is on offers what was switched on,
/// to the user who was named. The days of dates without a time are those of the calendar
/// unless they were given a zone of their own.
pub proof fn law_settings_mean_what_they_say(
    config: Config,
    raw: RawConfig,
    listen: Option<Listen>,
    home: Option<Text>,
)
    requires
        config_is(config, raw, listen, home),
    ensures
        !raw.caldav.enabled ==> !config.caldav.enabled && !config.caldav.writable
            && !config.caldav.events && !config.caldav.settings,
        raw.caldav.enabled ==> config.caldav.enabled && config.caldav.writable
            == raw.caldav.writable && config.caldav.events == raw.caldav.events
            && config.caldav.settings == raw.caldav.settings,
        raw.caldav.username matches Some(name) ==> config.caldav.username@ == text::trimmed(name@),
        raw.calendar.date_only_timezone is None ==> config.calendar.date_only_timezone@
            == config.calendar.timezone@,
        raw.calendar.date_only_timezone matches Some(zone)
            ==> config.calendar.date_only_timezone@ == text::trimmed(zone@),
        config.calendar.timezone@ == text::trimmed(raw.calendar.timezone@),
        config.calendar.language == raw.calendar.language,
        config.push.enabled == raw.push.enabled,
        config.series.enabled == raw.series.enabled,
        config.reminders.enabled == raw.reminders.enabled,
        config.reminders.lead_time.second() == raw.reminders.lead_time.seconds,
        config.push.late_window.second() == raw.push.late_window.seconds,
        config.push.poll_interval == raw.push.poll_interval,
        config.series.poll_interval == raw.series.poll_interval,
        config.server.request_timeout == raw.server.request_timeout,
        config.server.min_refresh_interval == raw.server.min_refresh_interval,
{
}

/// A file under the home directory is found from wherever the program runs; any other path
/// is taken as it is written.
pub proof fn law_home_is_where_it_is(rest: Text, home: Text, path: Text)
    ensures
        expanded("~/"@ + rest, Some(home)) == home + "/"@ + rest,
        expanded(path, None) == path,
        !text::starts_with(path, "~/"@) ==> expanded(path, Some(home)) == path,
{
    let full = "~/"@ + rest;
    assert(full.subrange(0, "~/"@.len() as int) == "~/"@);
    assert(full.subrange("~/"@.len() as int, full.len() as int) == rest);
}

/// Every setting can be given by the environment: the variable that is made of the prefix,
/// the section and the key gives that key of that section, in whatever case they are
/// written. Any other variable gives none.
pub proof fn law_every_setting_has_a_variable(section: Text, key: Text, variable: Text)
    requires
        section.len() > 0,
        key.len() > 0,
        !section.contains('_'),
    ensures
        setting_of("ANYTYPE_CALDAV__"@ + section + "__"@ + key) == Some(
            (text::lowered(section), text::lowered(key)),
        ),
        !text::starts_with(variable, "ANYTYPE_CALDAV__"@) ==> setting_of(variable) is None,
{
    reveal_strlit("__");
    let prefix = "ANYTYPE_CALDAV__"@;
    let rest = section + "__"@ + key;
    let full = prefix + section + "__"@ + key;
    assert(full == prefix + rest);
    assert(full.subrange(0, prefix.len() as int) == prefix);
    assert(full.subrange(prefix.len() as int, full.len() as int) == rest);
    let at = section.len() as int;
    assert(rest.subrange(at, at + 2) == "__"@);
    assert(text::occurs_at(rest, "__"@, at));
    assert forall|j: int| 0 <= j < at implies !text::occurs_at(rest, "__"@, j) by {
        if text::occurs_at(rest, "__"@, j) {
            assert(rest.subrange(j, j + 2)[0] == rest[j]);
            assert(section[j] == '_');
            assert(section.contains('_'));
        }
    }
    assert(text::first_at(rest, "__"@, at));
    let found = choose|found: int| text::first_at(rest, "__"@, found);
    assert(text::first_at(rest, "__"@, found));
    if found < at {
        assert(!text::occurs_at(rest, "__"@, found));
    }
    if at < found {
        assert(!text::occurs_at(rest, "__"@, at));
    }
    assert(rest.take(at) == section);
    assert(rest.skip(at + 2) == key);
    assert(text::lowered(section).len() == section.len());
    assert(text::lowered(key).len() == key.len());
}

} // verus!
