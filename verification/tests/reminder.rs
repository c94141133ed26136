use anytype_caldav::config::{CalendarConfig, RemindersConfig};
use anytype_caldav::locale::Language;
use anytype_caldav::model::{AnytypeDate, Task};
use anytype_caldav::reminder::{reminders_for, ReminderAnchor};
use anytype_caldav::time::{Span, Zone};
use chrono::{TimeZone, Utc};

fn calendar() -> CalendarConfig {
    CalendarConfig {
        timezone: Zone::parse("Europe/Saratov").unwrap(),
        name: "Anytype Tasks".into(),
        date_only_timezone: Zone::parse("Europe/Saratov").unwrap(),
        language: Language::En,
    }
}

fn reminders() -> RemindersConfig {
    RemindersConfig {
        enabled: true,
        lead_time: Span::new(30 * 60, 0).unwrap(),
        all_day_time: 9 * 3600,
    }
}

fn task() -> Task {
    Task {
        object_id: "task".into(),
        name: "Task".into(),
        scheduled: None,
        deadline: None,
        done: false,
        reminder_leads: Vec::new(),
        tags: Vec::new(),
        assignees: Vec::new(),
        ical_uid: None,
        object_url: None,
        last_modified: None,
    }
}

fn at(year: i32, month: u32, day: u32, hour: u32, minute: u32) -> i128 {
    let at = Utc.with_ymd_and_hms(year, month, day, hour, minute, 0).unwrap();
    at.timestamp() as i128 * 1_000_000_000
}

fn triggers(task: &Task) -> Vec<i128> {
    reminders_for(task, &calendar(), &reminders())
        .into_iter()
        .map(|moment| moment.trigger_at)
        .collect()
}

fn hours(n: u64) -> Span {
    Span::new(n * 3600, 0).unwrap()
}

#[test]
fn timed_deadline_uses_lead_time_and_wins_over_scheduled() {
    let mut task = task();
    task.scheduled = AnytypeDate::parse("2026-08-20T00:00:00+04:00");
    task.deadline = AnytypeDate::parse("2026-08-30T14:30:00+04:00");

    let moments = reminders_for(&task, &calendar(), &reminders());

    assert_eq!(moments.len(), 1);
    assert_eq!(moments[0].anchor, ReminderAnchor::Deadline);
    assert_eq!(moments[0].trigger_at, at(2026, 8, 30, 10, 0));
}

#[test]
fn all_day_deadline_uses_local_civil_time() {
    let mut task = task();
    task.deadline = AnytypeDate::parse("2026-08-30T00:00:00+04:00");
    assert_eq!(triggers(&task), vec![at(2026, 8, 30, 5, 0)]);
}

#[test]
fn completed_undated_and_disabled_tasks_have_no_reminder() {
    let mut task = task();
    assert!(reminders_for(&task, &calendar(), &reminders()).is_empty());

    task.deadline = AnytypeDate::parse("2026-08-30T00:00:00+04:00");
    task.done = true;
    assert!(reminders_for(&task, &calendar(), &reminders()).is_empty());

    task.done = false;
    let mut disabled = reminders();
    disabled.enabled = false;
    assert!(reminders_for(&task, &calendar(), &disabled).is_empty());
}

/// Several options on one task produce several reminders, earliest first.
#[test]
fn per_task_leads_replace_the_default_and_are_ordered() {
    let mut task = task();
    task.deadline = AnytypeDate::parse("2026-09-03T18:00:00+04:00");
    task.reminder_leads = vec![hours(2), hours(24)];
    assert_eq!(
        triggers(&task),
        vec![
            // 1d before 03.09 18:00 +04 = 02.09 14:00 UTC
            at(2026, 9, 2, 14, 0),
            // 2h before = 03.09 16:00 +04 = 12:00 UTC
            at(2026, 9, 3, 12, 0),
        ]
    );
}

/// The default lead is deliberately not applied to an all-day value, but an explicitly
/// chosen one is, counting back from the hour of whole days.
#[test]
fn an_explicit_lead_counts_back_from_the_all_day_hour() {
    let mut task = task();
    task.deadline = AnytypeDate::parse("2026-08-30T00:00:00+04:00");
    task.reminder_leads = vec![hours(24)];
    assert_eq!(triggers(&task), vec![at(2026, 8, 29, 5, 0)]);
}

#[test]
fn options_landing_on_one_instant_produce_one_reminder() {
    let mut task = task();
    task.deadline = AnytypeDate::parse("2026-08-30T14:30:00+04:00");
    task.reminder_leads = vec![Span::new(60 * 60, 0).unwrap(), hours(1)];
    assert_eq!(triggers(&task), vec![at(2026, 8, 30, 9, 30)]);
}

#[test]
fn a_plan_is_reminded_of_where_there_is_no_deadline() {
    let mut task = task();
    task.scheduled = AnytypeDate::parse("2026-08-30T14:30:00+04:00");
    let moments = reminders_for(&task, &calendar(), &reminders());
    assert_eq!(moments[0].anchor, ReminderAnchor::Scheduled);
    assert_eq!(moments[0].trigger_at, at(2026, 8, 30, 10, 0));
}
