use anytype_caldav::config::{
    is_exposed, setting_in, shellexpand, span_of, Config, ConfigError, Length, Listen, PropertySelector,
    RawAnytype, RawCalendar, RawCaldav, RawConfig, RawProperties, RawPush, RawReminders, RawSeries,
    RawServer, DEFAULT_CALENDAR_NAME, DEFAULT_MAX_OBJECTS, DEFAULT_TIMEZONE, DEFAULT_TYPE_KEY,
};
use anytype_caldav::locale::Language;
use toml::{Table, Value};

/// A syntactically valid Anytype space id.
const SPACE_ID: &str = "bafyreiaaaaaaaaaaaaaaaaaaaaaaaaaaaaaaaaaaaaaaaaaaaaaaaaaaaa";

fn base() -> String {
    r#"
[anytype]
url = "http://127.0.0.1:31009"
space_id = "{SPACE_ID}"

[properties]
scheduled = "key:scheduled"
deadline = "key:due_date"
done = "key:done"

[calendar]
timezone = "Europe/Saratov"
name = "Anytype Tasks"

[server]
listen = "127.0.0.1:8080"
request_timeout = "10s"
min_refresh_interval = "30s"
allowed_origins = ["https://calino.io"]
"#
    .to_string()
    .replace("{SPACE_ID}", SPACE_ID)
}

fn text(table: &Table, key: &str) -> Option<String> {
    table.get(key).and_then(Value::as_str).map(str::to_string)
}

fn flag(table: &Table, key: &str, default: bool) -> bool {
    table.get(key).and_then(Value::as_bool).unwrap_or(default)
}

fn length(table: &Table, key: &str, default: Length) -> Length {
    match text(table, key) {
        Some(text) => {
            let length = humantime::parse_duration(&text).expect("a length of time");
            Length { seconds: length.as_secs(), nanos: length.subsec_nanos() }
        }
        None => default,
    }
}

/// An IPv4 address and a port.
fn listen_at(address: &str) -> Option<Listen> {
    let (host, port) = address.rsplit_once(':')?;
    port.parse::<u16>().ok()?;
    let octets: Vec<u8> = host.split('.').map(|o| o.parse().ok()).collect::<Option<_>>()?;
    if octets.len() != 4 {
        return None;
    }
    Some(Listen { address: address.to_string(), loopback: octets[0] == 127 })
}

fn raw(text_of_file: &str) -> RawConfig {
    let file: Table = toml::from_str(text_of_file).expect("TOML");
    let section = |name: &str| match file.get(name) {
        Some(Value::Table(table)) => table.clone(),
        _ => Table::new(),
    };
    let (anytype, properties, calendar) =
        (section("anytype"), section("properties"), section("calendar"));
    let (server, reminders, push) = (section("server"), section("reminders"), section("push"));
    let (series, caldav) = (section("series"), section("caldav"));
    let server_default = RawServer::default();
    let reminders_default = RawReminders::default();
    let push_default = RawPush::default();
    RawConfig {
        anytype: RawAnytype {
            url: text(&anytype, "url").expect("anytype.url"),
            space_id: text(&anytype, "space_id").expect("anytype.space_id"),
            type_key: text(&anytype, "type_key").unwrap_or(DEFAULT_TYPE_KEY.to_string()),
            max_objects: anytype
                .get("max_objects")
                .and_then(Value::as_integer)
                .map(|n| n as usize)
                .unwrap_or(DEFAULT_MAX_OBJECTS),
        },
        properties: RawProperties {
            scheduled: text(&properties, "scheduled").expect("properties.scheduled"),
            deadline: text(&properties, "deadline").expect("properties.deadline"),
            done: text(&properties, "done").expect("properties.done"),
            reminder: text(&properties, "reminder"),
            tags: text(&properties, "tags"),
            assignee: text(&properties, "assignee"),
        },
        calendar: RawCalendar {
            timezone: text(&calendar, "timezone").unwrap_or(DEFAULT_TIMEZONE.to_string()),
            name: text(&calendar, "name").unwrap_or(DEFAULT_CALENDAR_NAME.to_string()),
            date_only_timezone: text(&calendar, "date_only_timezone"),
            language: Language::default(),
        },
        server: RawServer {
            listen: text(&server, "listen").unwrap_or(server_default.listen),
            request_timeout: length(&server, "request_timeout", server_default.request_timeout),
            min_refresh_interval: length(
                &server,
                "min_refresh_interval",
                server_default.min_refresh_interval,
            ),
            allowed_origins: match server.get("allowed_origins") {
                Some(Value::Array(list)) => {
                    list.iter().map(|v| v.as_str().expect("an origin").to_string()).collect()
                }
                _ => server_default.allowed_origins,
            },
            feed_path: text(&server, "feed_path").unwrap_or(server_default.feed_path),
        },
        reminders: RawReminders {
            enabled: flag(&reminders, "enabled", reminders_default.enabled),
            lead_time: length(&reminders, "lead_time", reminders_default.lead_time),
            all_day_time: text(&reminders, "all_day_time")
                .unwrap_or(reminders_default.all_day_time),
        },
        push: RawPush {
            enabled: flag(&push, "enabled", push_default.enabled),
            private_key_file: text(&push, "private_key_file"),
            state_file: text(&push, "state_file"),
            poll_interval: length(&push, "poll_interval", push_default.poll_interval),
            late_window: length(&push, "late_window", push_default.late_window),
            app_url: text(&push, "app_url"),
        },
        series: RawSeries {
            enabled: flag(&series, "enabled", false),
            poll_interval: length(&series, "poll_interval", RawSeries::default().poll_interval),
        },
        caldav: RawCaldav {
            enabled: flag(&caldav, "enabled", false),
            username: text(&caldav, "username"),
            writable: flag(&caldav, "writable", false),
            events: flag(&caldav, "events", false),
            settings: flag(&caldav, "settings", false),
        },
    }
}

fn load(text: &str) -> Result<Config, ConfigError> {
    let raw = raw(text);
    let listen = listen_at(&raw.server.listen);
    Config::validate(raw, listen, Some("/home/me".to_string()))
}

fn refusal(text: &str) -> String {
    load(text).expect_err("a refusal").message()
}

#[test]
fn parses_a_complete_configuration() {
    let config = load(&base()).expect("valid config");
    assert_eq!(config.anytype.space_id, SPACE_ID);
    assert_eq!(config.anytype.type_key, "task", "type_key defaults to task");
    assert_eq!(config.anytype.max_objects, 5000);
    assert_eq!(config.properties.scheduled, PropertySelector::Key("scheduled".into()));
    assert_eq!(config.server.request_timeout, Length::of_seconds(10));
    assert_eq!(config.server.min_refresh_interval, Length::of_seconds(30));
    assert_eq!(config.server.allowed_origins, vec!["https://calino.io"]);
}

#[test]
fn date_only_timezone_defaults_to_the_display_timezone() {
    let config = load(&base()).expect("valid config");
    assert_eq!(config.calendar.date_only_timezone.name(), config.calendar.timezone.name());
}

#[test]
fn date_only_timezone_can_differ_from_the_display_timezone() {
    let text = base().replace(
        "name = \"Anytype Tasks\"",
        "name = \"Anytype Tasks\"\ndate_only_timezone = \"UTC\"",
    );
    let config = load(&text).expect("valid config");
    assert_eq!(config.calendar.timezone.name(), chrono_tz::Europe::Saratov.name());
    assert_eq!(config.calendar.date_only_timezone.name(), chrono_tz::UTC.name());
}

#[test]
fn accepts_id_selectors() {
    let text = base().replace("scheduled = \"key:scheduled\"", "scheduled = \"id:abc123\"");
    let config = load(&text).expect("valid config");
    assert_eq!(config.properties.scheduled, PropertySelector::Id("abc123".into()));
}

#[test]
fn rejects_a_selector_without_a_kind_prefix() {
    let text = base().replace("scheduled = \"key:scheduled\"", "scheduled = \"scheduled\"");
    let err = refusal(&text);
    assert!(err.contains("id:"), "{err}");
}

#[test]
fn rejects_an_unknown_selector_kind() {
    let text = base().replace("scheduled = \"key:scheduled\"", "scheduled = \"name:Scheduled\"");
    let err = refusal(&text);
    assert!(err.contains("unknown selector kind"), "{err}");
}

#[test]
fn rejects_two_selectors_pointing_at_one_property() {
    let text = base().replace("deadline = \"key:due_date\"", "deadline = \"key:scheduled\"");
    let err = refusal(&text);
    assert!(err.contains("must be distinct"), "{err}");
}

#[test]
fn rejects_a_wildcard_origin() {
    let text = base().replace("[\"https://calino.io\"]", "[\"*\"]");
    let err = refusal(&text);
    assert!(err.contains("does not accept"), "{err}");
}

#[test]
fn rejects_an_origin_without_a_scheme() {
    let text = base().replace("[\"https://calino.io\"]", "[\"calino.io\"]");
    let err = refusal(&text);
    assert!(err.contains("full origin"), "{err}");
}

#[test]
fn rejects_a_space_id_that_is_not_an_anytype_id() {
    let text = base().replace(SPACE_ID, "my-space");
    let err = refusal(&text);
    assert!(err.contains("is not an Anytype id"), "{err}");
}

#[test]
fn accepts_a_space_id_with_the_account_hash_suffix() {
    let text = base().replace(SPACE_ID, &format!("{SPACE_ID}.2lcxyz"));
    let config = load(&text).expect("valid config");
    assert!(config.anytype.space_id.ends_with(".2lcxyz"));
}

#[test]
fn rejects_an_invalid_timezone() {
    let text = base().replace("Europe/Saratov", "Europe/Nowhere");
    let err = refusal(&text);
    assert!(err.contains("IANA timezone"), "{err}");
}

#[test]
fn feed_path_defaults_and_is_flagged_as_guessable() {
    let config = load(&base()).expect("valid config");
    assert_eq!(config.server.feed_path, "/todos.ics");
    assert!(config.server.feed_path_is_guessable());
    assert!(!config.server.is_publicly_bound(), "127.0.0.1 is loopback");
}

#[test]
fn an_unguessable_feed_path_is_accepted() {
    let text =
        format!("{}\nfeed_path = \"/f/0f8c1d2e3a4b5c6d7e8f9a0b1c2d3e4f/todos.ics\"", base());
    let config = load(&text).expect("valid config");
    assert!(!config.server.feed_path_is_guessable());
}

#[test]
fn a_public_bind_is_detected() {
    let text = base().replace("127.0.0.1:8080", "0.0.0.0:8080");
    let config = load(&text).expect("valid config");
    assert!(config.server.is_publicly_bound());
}

#[test]
fn rejects_a_feed_path_without_a_leading_slash() {
    let text = format!("{}\nfeed_path = \"todos.ics\"", base());
    let err = refusal(&text);
    assert!(err.contains("must start with"), "{err}");
}

#[test]
fn rejects_a_feed_path_colliding_with_healthz() {
    let text = format!("{}\nfeed_path = \"/healthz\"", base());
    let err = refusal(&text);
    assert!(err.contains("healthz"), "{err}");
}

#[test]
fn rejects_an_invalid_listen_address() {
    let text = base().replace("127.0.0.1:8080", "not-an-address");
    let err = refusal(&text);
    assert!(err.contains("socket address"), "{err}");
}

#[test]
fn rejects_a_zero_request_timeout() {
    let text = base().replace("request_timeout = \"10s\"", "request_timeout = \"0s\"");
    let err = refusal(&text);
    assert!(err.contains("greater than zero"), "{err}");
}

#[test]
fn omits_cors_headers_when_no_origins_are_configured() {
    let text = base().replace("allowed_origins = [\"https://calino.io\"]", "");
    let config = load(&text).expect("valid config");
    assert!(config.server.allowed_origins.is_empty());
}

#[test]
fn push_requires_a_state_file_when_enabled() {
    let text =
        format!("{}\n[push]\nenabled = true\nprivate_key_file = \"/tmp/key.pem\"", base());
    let err = refusal(&text);
    assert!(err.contains("push.state_file"), "{err}");
}

#[test]
fn the_generator_is_off_unless_asked_for() {
    let config = load(&base()).expect("valid config");
    assert!(!config.series.enabled);
    assert_eq!(config.series.poll_interval, Length::of_seconds(300));
}

#[test]
fn caldav_is_off_unless_asked_for_and_needs_a_username() {
    assert!(!load(&base()).expect("valid config").caldav.enabled);
    let err = refusal(&format!("{}\n[caldav]\nenabled = true", base()));
    assert!(err.contains("caldav.username"), "{err}");
}

#[test]
fn the_generator_requires_a_state_file() {
    let text = format!(
        "{}
[series]
enabled = true",
        base()
    );
    let err = refusal(&text);
    assert!(err.contains("push.state_file"), "{err}");
}

#[test]
fn push_parses_scheduler_durations() {
    let text = format!(
        "{}\n[push]\nenabled = true\nprivate_key_file = \"/tmp/key.pem\"\nstate_file = \"/tmp/state.sqlite3\"\npoll_interval = \"15s\"\nlate_window = \"1h\"",
        base()
    );
    let config = load(&text).expect("valid push configuration");
    assert_eq!(config.push.poll_interval, Length::of_seconds(15));
    assert_eq!(config.push.late_window.seconds(), chrono::Duration::hours(1).num_seconds() as u64);
    assert_eq!(config.push.state_file.as_deref(), Some("/tmp/state.sqlite3"));
}

#[test]
fn push_rejects_zero_scheduler_durations() {
    for field in ["poll_interval = \"0s\"", "late_window = \"0s\""] {
        let text = format!(
            "{}\n[push]\nenabled = true\nprivate_key_file = \"/tmp/key.pem\"\nstate_file = \"/tmp/state.sqlite3\"\n{field}",
            base()
        );
        let err = refusal(&text);
        assert!(err.contains("greater than zero"), "{field}: {err}");
    }
}

/// Each complaint, word for word, on the setting that draws it.
#[test]
fn every_complaint_names_its_setting() {
    let with = |change: &dyn Fn(&mut RawConfig)| {
        let mut raw = raw(&base());
        change(&mut raw);
        let listen = listen_at(&raw.server.listen);
        Config::validate(raw, listen, None).expect_err("a refusal").message()
    };
    let s = str::to_string;
    assert_eq!(with(&|r| r.anytype.url = s(" // ")), "anytype.url must not be empty");
    assert_eq!(
        with(&|r| r.anytype.url = s("ftp://x/")),
        "anytype.url must start with http:// or https://, got \"ftp://x\""
    );
    assert_eq!(with(&|r| r.anytype.space_id = s(" ")), "anytype.space_id must not be empty");
    assert_eq!(
        with(&|r| r.anytype.space_id = s("my-space")),
        "anytype.space_id = \"my-space\" is not an Anytype id; expected a 59-character id beginning with \"bafyrei\", optionally followed by \".<hash>\""
    );
    assert_eq!(with(&|r| r.anytype.type_key = s("")), "anytype.type_key must not be empty");
    assert_eq!(
        with(&|r| r.anytype.max_objects = 0),
        "anytype.max_objects must be greater than zero"
    );
    assert_eq!(
        with(&|r| r.properties.done = s(" done ")),
        "properties.done = \"done\" must be prefixed with \"id:\" or \"key:\""
    );
    assert_eq!(
        with(&|r| r.properties.tags = Some(s("id: "))),
        "properties.tags has an empty selector value"
    );
    assert_eq!(
        with(&|r| r.properties.reminder = Some(s("name:x"))),
        "properties.reminder has unknown selector kind \"name\", expected \"id\" or \"key\""
    );
    assert_eq!(
        with(&|r| r.properties.tags = Some(s("key: done"))),
        "properties.done and properties.tags both select key:done; they must be distinct"
    );
    assert_eq!(
        with(&|r| r.calendar.date_only_timezone = Some(s("Mars"))),
        "calendar.date_only_timezone = \"Mars\" is not a valid IANA timezone name"
    );
    assert_eq!(with(&|r| r.calendar.name = s("")), "calendar.name must not be empty");
    assert_eq!(
        with(&|r| r.server.allowed_origins = vec![s("/")]),
        "server.allowed_origins contains an empty entry"
    );
    assert_eq!(
        with(&|r| r.server.feed_path = s("/a//b")),
        "server.feed_path = \"/a//b\" must be a normalized path"
    );
    assert_eq!(
        with(&|r| r.server.feed_path = s("/a/")),
        "server.feed_path = \"/a/\" must be a normalized path"
    );
    assert_eq!(
        with(&|r| r.reminders.all_day_time = s("25:00")),
        "reminders.all_day_time = \"25:00\" must be a time of day like \"09:00\""
    );
    assert_eq!(
        with(&|r| r.reminders.lead_time = Length::of_seconds(u64::MAX)),
        "reminders.lead_time is out of range"
    );
    assert_eq!(
        with(&|r| r.push.enabled = true),
        "push.enabled is true but push.private_key_file is not set"
    );
    assert_eq!(
        with(&|r| r.push.late_window = Length::of_seconds(u64::MAX)),
        "push.late_window is out of range"
    );
    assert_eq!(
        with(&|r| r.series.poll_interval = Length::of_seconds(0)),
        "series.poll_interval must be greater than zero"
    );
    assert_eq!(
        ConfigError::Read { path: s("a"), source: s("b") }.message(),
        "cannot read config file a: b"
    );
    assert_eq!(
        ConfigError::Parse { path: s("a"), source: s("b") }.message(),
        "cannot parse config file a: b"
    );
}

#[test]
fn settings_are_taken_without_white_space_and_slashes() {
    let mut raw = raw(&base());
    raw.anytype.url = " https://anytype.example// ".to_string();
    raw.anytype.type_key = " task ".to_string();
    raw.calendar.name = " Tasks ".to_string();
    raw.calendar.language = Language::Ru;
    raw.server.allowed_origins = vec![" https://calino.io/ ".to_string()];
    raw.reminders.all_day_time = " 18:30 ".to_string();
    raw.push.app_url = Some("  ".to_string());
    raw.push.state_file = Some("~/state.sqlite3".to_string());
    raw.caldav.writable = true;
    let listen = listen_at(&raw.server.listen);
    let config = Config::validate(raw, listen, Some("/home/me".to_string())).expect("valid");
    assert_eq!(config.anytype.url, "https://anytype.example");
    assert_eq!(config.anytype.type_key, "task");
    assert_eq!(config.calendar.name, "Tasks");
    assert_eq!(config.calendar.language, Language::Ru);
    assert_eq!(config.server.allowed_origins, vec!["https://calino.io"]);
    assert_eq!(config.reminders.all_day_time, 18 * 3600 + 30 * 60);
    assert_eq!(config.reminders.lead_time.seconds(), 1800);
    assert_eq!(config.push.app_url, None);
    assert_eq!(config.push.state_file.as_deref(), Some("/home/me/state.sqlite3"));
    assert!(!config.caldav.writable, "nothing is writable while the facade is off");
}

#[test]
fn a_home_directory_is_needed_to_expand_a_path() {
    assert_eq!(shellexpand("~/key.pem", &Some("/root".to_string())), "/root/key.pem");
    assert_eq!(shellexpand("~/key.pem", &None), "~/key.pem");
    assert_eq!(shellexpand("/key.pem", &Some("/root".to_string())), "/key.pem");
}

#[test]
fn a_written_selector_is_read_again() {
    for written in ["id:abc", "key:due_date", "key:a:b"] {
        let selector = PropertySelector::parse("done", written).expect("a selector");
        assert_eq!(selector.text(), written);
    }
}

#[test]
fn a_public_address_needs_a_secret_path() {
    let config = load(&base().replace("127.0.0.1:8080", "0.0.0.0:8080")).expect("valid");
    assert!(is_exposed(&config.server));
    assert!(!is_exposed(&load(&base()).expect("valid").server));
}

#[test]
fn a_length_that_no_clock_outlasts_is_capped() {
    assert_eq!(span_of(&Length::of_seconds(30)).seconds(), 30);
    assert_eq!(span_of(&Length::of_seconds(u64::MAX)).seconds(), 9_223_372_036_854_775);
}

#[test]
fn a_variable_names_a_section_and_a_key() {
    let setting = |variable: &str| setting_in(variable);
    let named = |section: &str, key: &str| Some((section.to_string(), key.to_string()));
    assert_eq!(setting("ANYTYPE_CALDAV__CALENDAR__TIMEZONE"), named("calendar", "timezone"));
    assert_eq!(
        setting("ANYTYPE_CALDAV__SERVER__ALLOWED_ORIGINS"),
        named("server", "allowed_origins")
    );
    assert_eq!(setting("ANYTYPE_API_KEY"), None);
    assert_eq!(setting("ANYTYPE_CALDAV__SERVER"), None);
    assert_eq!(setting("ANYTYPE_CALDAV____KEY"), None);
    assert_eq!(setting("ANYTYPE_CALDAV__SERVER__"), None);
}

#[test]
fn the_required_properties_default_to_the_keys_that_are_created() {
    let properties = RawProperties::default();
    assert_eq!(properties.scheduled, "key:scheduled");
    assert_eq!(properties.deadline, "key:due_date");
    assert_eq!(properties.done, "key:done");
    let calendar = RawCalendar::default();
    assert_eq!(calendar.timezone, "Europe/Saratov");
    assert_eq!(calendar.name, "Anytype Tasks");
}

/// A space id is a content id, alone or with a short hash behind a dot.
#[test]
fn a_space_id_has_the_shape_of_an_object_id() {
    let accepts = |id: &str| {
        let mut raw = raw(&base());
        raw.anytype.space_id = id.to_string();
        let listen = listen_at(&raw.server.listen);
        Config::validate(raw, listen, None).is_ok()
    };
    let id = "bafyreiafl45wf5eaxiby44pxrkhia3y5jsyix3ov2jzqiftsxjotujqlh4";
    assert!(accepts(id));
    assert!(accepts(&format!("  {id}\n")));
    assert!(accepts(&format!("{id}.0")));
    assert!(accepts(&format!("{id}.2z9k3x7q1w5ab")));
    assert!(!accepts(&format!("{id}.2z9k3x7q1w5abc")));
    assert!(!accepts(&format!("{id}.")));
    assert!(!accepts(&format!("{id}.A")));
    assert!(!accepts(&format!("{id}.a.b")));
    assert!(!accepts(&format!("{id}4")));
    assert!(!accepts(&id[..58]));
    assert!(!accepts(&id.replace('2', "0")));
    assert!(!accepts(&id.replace('w', "W")));
    assert!(!accepts(&id.replace("bafy", "xafy")));
}
