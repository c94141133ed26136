use anytype_caldav::config::{CalendarConfig, RemindersConfig};
use anytype_caldav::event_changes::{event_patch_for_update, parse_event};
use anytype_caldav::events::{can_write, can_write_all, can_write_entry, render_event, Event};
use anytype_caldav::fold::folds;
use anytype_caldav::ical::{can_name, can_number, can_write_if_any, can_write_text, can_write_texts};
use anytype_caldav::locale::Language;
use anytype_caldav::model::{AnytypeDate, Task};
use anytype_caldav::render;
use anytype_caldav::time::{Instant, Span, Zone};
use anytype_caldav::writeback::parse;

fn config() -> CalendarConfig {
    CalendarConfig {
        timezone: Zone::parse("Europe/Saratov").unwrap(),
        name: "Задачи".into(),
        date_only_timezone: Zone::parse("Europe/Saratov").unwrap(),
        language: Language::Ru,
    }
}

fn reminders() -> RemindersConfig {
    RemindersConfig { enabled: true, lead_time: Span::new(1800, 0).unwrap(), all_day_time: 32400 }
}

fn now() -> Instant {
    Instant::new(1_788_000_000, 0).unwrap()
}

fn event(location: &str) -> Event {
    Event {
        object_id: "ev1".into(),
        name: "Лекция".into(),
        start: AnytypeDate::parse("2026-08-30T06:00:00Z"),
        end: AnytypeDate::parse("2026-08-30T07:00:00Z"),
        location: Some(location.to_string()),
        tags: Vec::new(),
        reminder_names: vec!["15m".into()],
        ical_uid: None,
        object_url: None,
        last_modified: None,
        rrule: None,
        exdates: Vec::new(),
        series: None,
        occurrence: None,
        deadline: None,
    }
}

fn task(name: &str) -> Task {
    Task {
        object_id: "obj".into(),
        name: name.to_string(),
        scheduled: AnytypeDate::parse("2026-08-30T06:00:00Z"),
        deadline: AnytypeDate::parse("2026-08-29T06:00:00Z"),
        done: false,
        reminder_leads: Vec::new(),
        tags: Vec::new(),
        assignees: Vec::new(),
        ical_uid: None,
        object_url: Some("https://object.any.coop/obj".into()),
        last_modified: None,
    }
}

#[test]
fn ordinary_texts_fold() {
    assert!(folds(""));
    assert!(folds(&" ".repeat(200)));
    assert!(folds(&"word ".repeat(60)));
    assert!(folds(&"Что с ним не так и где он был ".repeat(10)));
    assert!(folds(&"день рождения 🎉 ".repeat(10)));
    assert!(folds(&"🎉".repeat(100)));
    assert!(folds(&"п р и в е т ".repeat(10)));
    assert!(can_write_texts("CATEGORIES", &vec!["a".into(), "я".into()]));
    assert!(can_write_if_any("LOCATION", &None));
    assert!(can_name("Задачи") && can_number("я", 12));
}

/// A line of at most 75 bytes is not cut at all.
#[test]
fn short_lines_fold() {
    let blank = "\u{a0}".repeat(33);
    assert!(can_write_text("SUMMARY", &blank));
    let short = "📌 do it now or we can go to the sea";
    let spaced = "я ".repeat(31);
    let mut linked = task(short);
    linked.object_url = Some("https://object.any.coop/a b\u{a0}c d".into());
    for held in [task(short), task(spaced.trim()), linked] {
        assert!(render::can_write(&held, Language::Ru));
        let body = render::render_one(&held, &config(), &reminders(), now());
        assert_eq!(parse(&body).unwrap().summary, Some(held.name));
    }
    assert!(can_write(&event(short), &Vec::new()));
}

#[test]
fn long_stretches_of_white_space_do_not_fold() {
    let blank = "\u{a0}".repeat(150);
    assert!(!folds(&blank));
    assert!(!can_write(&event(&blank), &Vec::new()));
    assert!(!render::can_write(&task(&blank), Language::Ru));
    assert!(!folds(&("🎉".repeat(74) + &" ".repeat(80))));
    assert!(!can_write_texts("CATEGORIES", &vec!["a".into(), blank.clone()]));
    assert!(!can_write_if_any("LOCATION", &Some(blank.clone())));
    assert!(!can_name(&blank) && !can_number(&blank, 1) && can_number(&blank, 0));
    let mut spaced = task("a");
    spaced.object_url = Some(blank);
    assert!(!render::can_write(&spaced, Language::Ru));
}

/// The cuts of a line one by one; whether they come to its end.
fn cuts_end(line: &str) -> bool {
    let white = |at: usize| line.chars().nth(at).is_some_and(char::is_whitespace);
    let (mut done, mut next) = (0usize, 75usize);
    while line.len() - done > 75 {
        let first = next;
        if white(next) {
            next -= 1;
        }
        while !line.is_char_boundary(next) {
            next -= 1;
            if white(next) {
                if next == 0 {
                    return false;
                }
                next -= 1;
            }
        }
        if next < done || (next == done && first == done + 74) {
            return false;
        }
        done = next;
        next += 74;
    }
    true
}

#[test]
fn a_line_folds_where_its_cuts_come_to_its_end() {
    let (mut some, mut others) = (0, 0);
    for text in texts().into_iter().chain(stretches()) {
        let line = format!("LOCATION:{text}");
        assert_eq!(folds(&line), cuts_end(&line), "{line:?}");
        if folds(&line) {
            some += 1;
        } else {
            others += 1;
        }
    }
    assert!(some > 300 && others > 100, "{some} {others}");
}

/// Texts of all kinds of characters, some of them hard to fold.
fn texts() -> Vec<String> {
    let kinds = ['a', 'я', '—', '🎉', ' ', ' ', '\u{a0}', '\u{3000}', ',', '\\', ';'];
    let mut seed: u64 = 42;
    let mut r = Vec::new();
    for round in 0..1500usize {
        let mut text = String::new();
        let length = 20 + round % 280;
        while text.chars().count() < length {
            seed = seed.wrapping_mul(6364136223846793005).wrapping_add(1442695040888963407);
            let kind = kinds[(seed >> 33) as usize % kinds.len()];
            let times = 1 + (seed >> 45) as usize % (1 + round % 35);
            for _ in 0..times {
                text.push(kind);
            }
        }
        r.push(text);
    }
    r
}

/// Wide characters, a long stretch of white space and another character.
fn stretches() -> Vec<String> {
    let mut r = Vec::new();
    for wide in ["я", "—", "🎉"] {
        for space in [" ", "\u{a0}"] {
            for some in (5..120).step_by(5) {
                for blank in (60..160).step_by(7) {
                    r.push(wide.repeat(some) + &space.repeat(blank) + "я");
                }
            }
        }
    }
    r
}

#[test]
fn what_folds_is_written_and_read_back() {
    let mut written = 0;
    for text in texts().into_iter().chain(stretches()) {
        let held = event(text.trim());
        if can_write(&held, &Vec::new()) && !text.trim().is_empty() {
            let body = render_event(&held, &config(), now()).unwrap();
            let patch = event_patch_for_update(&held, &parse_event(&body).unwrap(), &config());
            assert!(patch.is_empty(), "{text:?}: {patch:?}");
            written += 1;
        }
        let held = task(text.trim());
        if render::can_write(&held, Language::Ru) && !text.trim().is_empty() {
            let body = render::render_one(&held, &config(), &reminders(), now());
            assert_eq!(parse(&body).unwrap().summary.as_deref(), Some(text.trim()));
        }
    }
    assert!(written > 300, "{written}");
}

#[test]
fn what_an_alarm_is_known_by_must_fold() {
    let mut held = task("a");
    held.ical_uid = Some("я ".repeat(5) + &"я".repeat(40));
    assert!(render::can_write(&held, Language::Ru));
    let body = render::render_one(&held, &config(), &reminders(), now());
    assert!(body.contains("BEGIN:VALARM"));
    held.ical_uid = Some("\u{a0}".repeat(150));
    assert!(!render::can_write(&held, Language::Ru));
}

#[test]
fn a_name_is_written_twice_only_with_an_alarm() {
    // Folds behind `SUMMARY:` and not behind `DESCRIPTION:`.
    let name = stretches()
        .into_iter()
        .find(|text| can_write_text("SUMMARY", text) && !can_write_text("DESCRIPTION", text))
        .unwrap();
    let mut held = task(&name);
    assert!(!render::can_write(&held, Language::En));
    held.done = true;
    assert!(render::can_write(&held, Language::En));
    let body = render::render_one(&held, &config(), &reminders(), now());
    assert!(!body.contains("BEGIN:VALARM"));
    assert_eq!(parse(&body).unwrap().summary.as_deref(), Some(name.as_str()));
}

#[test]
fn only_what_is_written_must_fold() {
    let blank = event(&"\u{a0}".repeat(150));
    let mut master = event("Room");
    assert!(can_write(&master, &vec![&blank]));
    master.rrule = Some("FREQ=WEEKLY".into());
    assert!(!can_write(&master, &vec![&blank]));
    let mut named = event("Room");
    named.deadline = AnytypeDate::parse("2026-08-29T14:00:00Z");
    assert!(can_write_entry(&named, Language::Ru));
    named.ical_uid = Some("\u{a0}".repeat(150));
    assert!(!can_write_entry(&named, Language::Ru));
    assert!(!can_write_all(&vec![named], Language::Ru));
    assert!(can_write_all(&vec![master, event("Hall")], Language::Ru));
}
