use anytype_caldav::locale::Language;
use anytype_caldav::reminder::ReminderAnchor;
use anytype_caldav::time::parse_day;

#[test]
fn a_day_is_named_against_today() {
    let day = |text: &str| parse_day(text).unwrap();
    let today = day("2026-08-30");
    for (other, english, russian) in [
        ("2026-08-30", "today", "сегодня"),
        ("2026-08-31", "tomorrow", "завтра"),
        ("2026-08-29", "yesterday", "вчера"),
        ("2027-02-01", "on 1 February", "1 февраля"),
        ("2025-12-31", "on 31 December", "31 декабря"),
    ] {
        assert_eq!(Language::En.day(day(other), today), english);
        assert_eq!(Language::Ru.day(day(other), today), russian);
    }
}

#[test]
fn a_wait_is_rounded_to_minutes_or_hours() {
    for (seconds, english, russian) in [
        (29, "in less than a minute", "меньше чем через минуту"),
        (30, "in a minute", "через минуту"),
        (120, "in 2 minutes", "через 2 минуты"),
        (21 * 60, "in 21 minutes", "через 21 минуту"),
        (12 * 60, "in 12 minutes", "через 12 минут"),
        (59 * 60 + 40, "in an hour", "через час"),
        (5380, "in an hour", "через час"),
        (5400, "in 2 hours", "через 2 часа"),
        (11 * 3600, "in 11 hours", "через 11 часов"),
        (21 * 3600, "in 21 hours", "через 21 час"),
    ] {
        assert_eq!(Language::En.in_time(seconds), english);
        assert_eq!(Language::Ru.in_time(seconds), russian);
    }
}

#[test]
fn the_words_of_both_languages() {
    let anchors = [
        (ReminderAnchor::Deadline, false, "Deadline", "Дедлайн"),
        (ReminderAnchor::Deadline, true, "Deadline was", "Дедлайн был"),
        (ReminderAnchor::Scheduled, false, "Planned", "По плану"),
        (ReminderAnchor::Scheduled, true, "Was planned", "По плану было"),
        (ReminderAnchor::Start, false, "Starts", "Начало"),
        (ReminderAnchor::Start, true, "Started", "Началось"),
    ];
    for (anchor, past, english, russian) in anchors {
        assert_eq!(Language::En.anchor(anchor, past), english);
        assert_eq!(Language::Ru.anchor(anchor, past), russian);
    }
    let day = parse_day("2026-09-03").unwrap();
    assert_eq!(Language::En.deadline_line(day, Some("18:00")), "Deadline: 2026-09-03 18:00");
    assert_eq!(Language::Ru.deadline_line(day, None), "Дедлайн: 03.09.2026");
    assert_eq!(Language::En.at("18:00"), "at 18:00");
    assert_eq!(Language::Ru.at("18:00"), "в 18:00");
    assert_eq!(Language::En.deadline_entry("Report"), "Report (deadline)");
    assert_eq!(Language::Ru.deadline_entry("Отчёт"), "Отчёт (дедлайн)");
    assert_eq!(Language::En.events(), "Events");
    assert_eq!(Language::Ru.events(), "События");
    assert_eq!(Language::En.unassigned(), "Unassigned");
    assert_eq!(Language::Ru.unassigned(), "Без исполнителя");
    assert_eq!(Language::En.test_notification(), "Test notification from anytype-caldav");
    assert_eq!(Language::Ru.test_notification(), "Тестовое уведомление от anytype-caldav");
}

#[test]
fn waits_of_less_than_an_hour_are_told_apart() {
    for language in [Language::En, Language::Ru] {
        let mut told: Vec<String> = (1..60).map(|minutes| language.in_time(minutes * 60)).collect();
        told.sort();
        told.dedup();
        assert_eq!(told.len(), 59);
    }
}
