use anytype_caldav::config::{CalendarConfig, RemindersConfig};
use anytype_caldav::events::Event;
use anytype_caldav::locale::Language;
use anytype_caldav::model::{AnytypeDate, Task};
use anytype_caldav::push::Notification;
use anytype_caldav::reminder::{reminders_for, ReminderMoment};
use anytype_caldav::scheduler::{
    audiences_of, decide, describe, due_reminders, event_entries, notification_for, people_of,
    CheckReport, Decision,
};
use anytype_caldav::state::{trigger_millis, ReminderOutcome};
use anytype_caldav::time::{Instant, Span, Zone};
use chrono::{TimeZone, Utc};
use std::collections::HashSet;

fn calendar() -> CalendarConfig {
    CalendarConfig {
        timezone: Zone::parse("Europe/Saratov").unwrap(),
        name: "Anytype Tasks".into(),
        date_only_timezone: Zone::parse("Europe/Saratov").unwrap(),
        language: Language::Ru,
    }
}

fn reminders() -> RemindersConfig {
    RemindersConfig {
        enabled: true,
        lead_time: Span::new(30 * 60, 0).unwrap(),
        all_day_time: 9 * 3600,
    }
}

fn instant(y: i32, mo: u32, d: u32, h: u32, m: u32, s: u32) -> Instant {
    let at = Utc.with_ymd_and_hms(y, mo, d, h, m, s).unwrap();
    Instant::new(at.timestamp(), 0).unwrap()
}

fn later(at: Instant, nanos: i128) -> Instant {
    anytype_caldav::time::instant_at(at.in_nanos() + nanos).unwrap()
}

fn task(id: &str, name: &str) -> Task {
    Task {
        object_id: id.into(),
        name: name.into(),
        scheduled: None,
        deadline: None,
        done: false,
        reminder_leads: Vec::new(),
        tags: Vec::new(),
        assignees: Vec::new(),
        ical_uid: None,
        object_url: None,
        last_modified: None,
    }
}

fn event(id: &str, leads: &[&str]) -> Event {
    Event {
        object_id: id.into(),
        name: "Семинар".into(),
        // 10:00 Saratov.
        start: AnytypeDate::parse("2026-08-30T06:00:00Z"),
        end: None,
        location: None,
        tags: Vec::new(),
        reminder_names: leads.iter().map(|l| l.to_string()).collect(),
        ical_uid: None,
        object_url: None,
        last_modified: None,
        rrule: None,
        exdates: Vec::new(),
        series: None,
        occurrence: None,
        deadline: None,
    }
}

/// A scheduler whose claims are kept in memory and whose notifications are kept here.
struct Desk {
    audience: usize,
    claims: HashSet<(String, i64)>,
    sent: Vec<Notification>,
}

impl Desk {
    fn new() -> Desk {
        Desk { audience: 1, claims: HashSet::new(), sent: Vec::new() }
    }

    fn claim(&mut self, object_id: &str, trigger_at: i128) -> bool {
        self.claims.insert((object_id.to_string(), trigger_millis(trigger_at)))
    }

    fn check(&mut self, tasks: Vec<Task>, events: &Vec<Event>, now: Instant) -> CheckReport {
        let window = Span::new(3600, 0).unwrap();
        let mut report = CheckReport::default();
        report.tasks = tasks.len();
        let mut entries: Vec<(Task, Vec<ReminderMoment>)> = tasks
            .into_iter()
            .map(|task| {
                let moments = reminders_for(&task, &calendar(), &reminders());
                (task, moments)
            })
            .collect();
        entries.extend(event_entries(events, now, &window, &calendar(), &reminders()));
        let (due, waiting) = due_reminders(&entries, now, &window, &vec![self.audience; entries.len()]);
        report.waiting = waiting;
        for one in due {
            let (task, moments) = &entries[one.entry];
            let moment = &moments[one.moment];
            let claimed = self.claim(&task.object_id, moment.trigger_at);
            if report.settle(one.outcome, claimed) {
                self.sent.push(notification_for(task, moment, now, &calendar()));
                report.add_delivery(self.audience, self.audience);
            }
        }
        report
    }

    fn tasks(&mut self, tasks: Vec<Task>, now: Instant) -> CheckReport {
        self.check(tasks, &vec![], now)
    }
}

fn hours(n: u64) -> Span {
    Span::new(n * 3600, 0).unwrap()
}

#[test]
fn a_due_task_is_claimed_and_sent_once_with_real_content() {
    let now = instant(2026, 8, 30, 5, 0, 10);
    let due = || {
        let mut task = task("obj", "Купить хлеб");
        task.deadline = AnytypeDate::parse("2026-08-30T00:00:00+04:00");
        task.object_url = Some("https://object.any.coop/obj?spaceId=space".into());
        task
    };
    let mut desk = Desk::new();
    desk.tasks(vec![due()], now);
    desk.tasks(vec![due()], now);

    assert_eq!(desk.sent.len(), 1);
    assert_eq!(desk.sent[0].title, "Купить хлеб");
    assert_eq!(desk.sent[0].body, "Дедлайн сегодня");
    assert_eq!(desk.sent[0].url.as_deref(), Some("https://object.any.coop/obj?spaceId=space"));
    assert_eq!(desk.sent[0].tag.as_deref(), Some("obj"));
}

#[test]
fn a_weekly_event_reminds_of_this_weeks_occurrence_unless_excluded_or_replaced() {
    // Weekly from 2 August, 10:00 Saratov; now is 15 minutes before the occurrence of
    // 30 August.
    let now = instant(2026, 8, 30, 5, 45, 10);
    let weekly = || {
        let mut weekly = event("weekly", &["15m"]);
        weekly.start = AnytypeDate::parse("2026-08-02T06:00:00Z");
        weekly.rrule = Some("FREQ=WEEKLY".into());
        weekly
    };
    let mut desk = Desk::new();
    desk.check(vec![], &vec![weekly()], now);
    assert_eq!(desk.sent.len(), 1, "{:?}", desk.sent);
    assert!(desk.sent[0].body.contains("10:00"), "{}", desk.sent[0].body);
    assert_eq!(desk.sent[0].day.unwrap().dashed(), "2026-08-30");

    let mut excluded = weekly();
    excluded.exdates = vec![AnytypeDate::parse("2026-08-30T06:00:00Z").unwrap()];
    let mut desk = Desk::new();
    desk.check(vec![], &vec![excluded], now);
    assert!(desk.sent.is_empty());

    // Moved to 12:00 that day: the master stays silent, the replacement reminds at its
    // own time.
    let mut moved = event("moved", &["15m"]);
    moved.name = "Семинар (перенесён)".into();
    moved.start = AnytypeDate::parse("2026-08-30T08:00:00Z");
    moved.series = Some("weekly".into());
    moved.occurrence = AnytypeDate::parse("2026-08-30T06:00:00Z");
    let both = vec![weekly(), moved];
    let mut desk = Desk::new();
    desk.check(vec![], &both, now);
    assert!(desk.sent.is_empty());
    desk.check(vec![], &both, instant(2026, 8, 30, 7, 45, 10));
    assert_eq!(desk.sent.len(), 1, "{:?}", desk.sent);
    assert_eq!(desk.sent[0].title, "Семинар (перенесён)");
}

#[test]
fn an_event_start_is_reminded_only_with_its_own_leads() {
    let now = instant(2026, 8, 30, 5, 45, 10);
    let mut desk = Desk::new();
    desk.check(vec![], &vec![event("ev", &["15m"])], now);
    assert_eq!(desk.sent.len(), 1);
    assert_eq!(desk.sent[0].title, "Семинар");
    assert!(desk.sent[0].body.starts_with("Начало "), "{}", desk.sent[0].body);
    assert!(desk.sent[0].body.contains("10:00"), "{}", desk.sent[0].body);

    let mut desk = Desk::new();
    desk.check(vec![], &vec![event("ev", &[])], now);
    assert!(desk.sent.is_empty());
}

/// An event's deadline is reminded with the event's leads, counted from the deadline,
/// and says it is the deadline.
#[test]
fn an_event_deadline_is_reminded_with_the_events_leads() {
    let mut ev = event("ev", &["15m"]);
    // 29.08 18:00 Saratov.
    ev.deadline = AnytypeDate::parse("2026-08-29T14:00:00Z");
    let mut desk = Desk::new();
    desk.check(vec![], &vec![ev], instant(2026, 8, 29, 13, 45, 10));
    assert_eq!(desk.sent.len(), 1, "{:?}", desk.sent);
    assert_eq!(desk.sent[0].title, "Семинар");
    assert!(desk.sent[0].body.starts_with("Дедлайн "), "{}", desk.sent[0].body);
    assert!(desk.sent[0].body.contains("18:00"), "{}", desk.sent[0].body);
}

/// A claim is permanent, so spending one while no browser is subscribed would silently
/// destroy the reminder.
#[test]
fn a_reminder_is_not_burned_while_nobody_is_subscribed() {
    let due = || {
        let mut due = task("obj", "Купить хлеб");
        due.deadline = AnytypeDate::parse("2026-08-30T00:00:00+04:00");
        due
    };
    let now = instant(2026, 8, 30, 5, 0, 10);
    let mut desk = Desk::new();
    desk.audience = 0;
    let report = desk.tasks(vec![due()], now);
    assert_eq!(report.waiting, 1);
    assert_eq!(report.attempted, 0);
    assert!(desk.sent.is_empty());

    // The phone subscribes a few minutes later, still inside the late window.
    desk.audience = 1;
    desk.tasks(vec![due()], later(now, 300_000_000_000));

    assert_eq!(desk.sent.len(), 1);
    let trigger = instant(2026, 8, 30, 5, 0, 0).in_nanos();
    assert!(
        !desk.claim("obj", trigger),
        "the delivered reminder must still be claimed exactly once"
    );
}

/// Each lead time is claimed and delivered on its own, so an early warning does not
/// consume the reminder that matters.
#[test]
fn two_lead_times_on_one_task_send_two_notifications() {
    let due = || {
        let mut due = task("obj", "Сдать отчёт");
        due.deadline = AnytypeDate::parse("2026-09-03T18:00:00+04:00");
        due.reminder_leads = vec![hours(2), hours(24)];
        due
    };
    let mut desk = Desk::new();
    // Only the day-before reminder is due here.
    desk.tasks(vec![due()], instant(2026, 9, 2, 14, 0, 0));
    assert_eq!(desk.sent.len(), 1);
    // The two-hour one lands the next day, and the first is not repeated.
    desk.tasks(vec![due()], instant(2026, 9, 3, 12, 0, 0));
    assert_eq!(desk.sent.len(), 2);
    // Both point at one deadline, but each says why it arrived when it did.
    assert_eq!(desk.sent[0].body, "Дедлайн завтра в 18:00");
    assert_eq!(desk.sent[1].body, "Дедлайн через 2 часа — сегодня в 18:00");
}

#[test]
fn one_hour_is_inclusive_but_older_is_expired() {
    let due = |id: &str| {
        let mut due = task(id, id);
        due.deadline = AnytypeDate::parse("2026-08-30T00:00:00+04:00");
        due
    };
    let mut desk = Desk::new();
    desk.tasks(vec![due("exact")], instant(2026, 8, 30, 6, 0, 0));
    assert_eq!(desk.sent.len(), 1);

    let mut desk = Desk::new();
    let report = desk.tasks(vec![due("old")], later(instant(2026, 8, 30, 6, 0, 0), 1_000_000));
    assert!(desk.sent.is_empty());
    assert_eq!(report.expired, 1);
    assert!(!desk.claim("old", instant(2026, 8, 30, 5, 0, 0).in_nanos()));
}

#[test]
fn future_and_completed_tasks_are_not_claimed() {
    let mut future = task("future", "Future");
    future.deadline = AnytypeDate::parse("2026-08-31T00:00:00+04:00");
    let mut done = task("done", "Done");
    done.deadline = AnytypeDate::parse("2026-08-30T00:00:00+04:00");
    done.done = true;
    let mut desk = Desk::new();
    desk.tasks(vec![future, done], instant(2026, 8, 30, 5, 0, 10));
    assert!(desk.sent.is_empty());
    assert!(desk.claim("done", instant(2026, 8, 30, 5, 0, 0).in_nanos()));
}

#[test]
fn an_edited_trigger_sends_again_but_source_failure_claims_nothing() {
    let at = |deadline: &str| {
        let mut task = task("obj", "Task");
        task.deadline = AnytypeDate::parse(deadline);
        task
    };
    let now = instant(2026, 8, 30, 5, 30, 10);
    let mut desk = Desk::new();
    // A reading that failed gives no tasks to check.
    assert!(desk.claims.is_empty());
    desk.tasks(vec![at("2026-08-30T09:30:00+04:00")], now);
    desk.tasks(vec![at("2026-08-30T10:00:00+04:00")], now);
    assert_eq!(desk.sent.len(), 2);
}

fn moment_of(task: &Task) -> ReminderMoment {
    reminders_for(task, &calendar(), &reminders())[0]
}

fn words(moment: &ReminderMoment, now: Instant) -> String {
    describe(moment, now, &calendar().timezone, Language::Ru)
}

/// Wording is relative to the moment of sending, so the same reminder reads differently
/// depending on when it actually goes out.
#[test]
fn a_body_says_why_now_as_well_as_when() {
    let mut timed = task("timed", "Сдать отчёт");
    timed.deadline = AnytypeDate::parse("2026-09-03T18:00:00+04:00");
    let moment = moment_of(&timed);
    // Two hours ahead, on the day itself.
    assert_eq!(
        words(&moment, instant(2026, 9, 3, 12, 0, 0)),
        "Дедлайн через 2 часа — сегодня в 18:00"
    );
    // The day before: the day itself already explains the push.
    assert_eq!(words(&moment, instant(2026, 9, 2, 12, 0, 0)), "Дедлайн завтра в 18:00");
    // Further out, a plain date.
    assert_eq!(words(&moment, instant(2026, 8, 30, 12, 0, 0)), "Дедлайн 3 сентября в 18:00");
    // Held back past the deadline: it must not still promise the future.
    assert_eq!(words(&moment, instant(2026, 9, 3, 15, 0, 0)), "Дедлайн был сегодня в 18:00");
}

#[test]
fn an_all_day_task_names_the_day_and_nothing_else() {
    let mut task = task("all-day", "Купить хлеб");
    task.deadline = AnytypeDate::parse("2026-08-30T00:00:00+04:00");
    let moment = moment_of(&task);
    assert_eq!(words(&moment, instant(2026, 8, 30, 5, 0, 0)), "Дедлайн сегодня");
    assert_eq!(words(&moment, instant(2026, 8, 29, 5, 0, 0)), "Дедлайн завтра");
    assert_eq!(words(&moment, instant(2026, 8, 31, 5, 0, 0)), "Дедлайн был вчера");
}

/// Without a deadline the scheduled date is the anchor, and it is not a deadline, so it
/// must not be worded as one.
#[test]
fn the_scheduled_fallback_is_worded_as_a_plan() {
    let mut scheduled = task("scheduled", "Сходить в зал");
    scheduled.scheduled = AnytypeDate::parse("2026-08-30T15:13:00+04:00");
    let moment = moment_of(&scheduled);
    assert_eq!(
        words(&moment, instant(2026, 8, 30, 10, 58, 0)),
        "По плану через 15 минут — сегодня в 15:13"
    );
    assert_eq!(words(&moment, instant(2026, 8, 30, 12, 0, 0)), "По плану было сегодня в 15:13");
}

/// Russian counts agree in three forms and "1" reads better without it.
#[test]
fn counts_agree_with_their_nouns() {
    let mut task = task("t", "T");
    task.deadline = AnytypeDate::parse("2026-08-30T23:00:00+04:00");
    let moment = moment_of(&task);
    let at = |h: u32, m: u32| words(&moment, instant(2026, 8, 30, h, m, 0));

    assert!(at(18, 59).contains("через минуту"), "{}", at(18, 59));
    assert!(at(18, 57).contains("через 3 минуты"), "{}", at(18, 57));
    assert!(at(18, 45).contains("через 15 минут"), "{}", at(18, 45));
    assert!(at(18, 0).contains("через час"), "{}", at(18, 0));
    assert!(at(16, 0).contains("через 3 часа"), "{}", at(16, 0));
    assert!(at(11, 0).contains("через 8 часов"), "{}", at(11, 0));
}

/// The scheduler wakes on a 30-second tick, so a reminder is always sent a little after
/// its trigger, and still names the lead it was set with.
#[test]
fn a_reminder_sent_seconds_late_still_names_the_lead_the_user_chose() {
    let mut task = task("t", "T");
    // 19:00 UTC.
    task.deadline = AnytypeDate::parse("2026-08-30T23:00:00+04:00");
    let moment = moment_of(&task);
    let at = |h: u32, m: u32, s: u32| words(&moment, instant(2026, 8, 30, h, m, s));

    // 59m40s left, from a lead of one hour.
    assert!(at(18, 0, 20).contains("через час"), "{}", at(18, 0, 20));
    // 14m40s left, from a lead of fifteen minutes.
    assert!(at(18, 45, 20).contains("через 15 минут"), "{}", at(18, 45, 20));
    // 1h29m40s: rounding the hours off the already-rounded minutes would reach 90 and
    // answer "через 2 часа".
    assert!(at(17, 30, 20).contains("через час"), "{}", at(17, 30, 20));
}

#[test]
fn a_decision_depends_on_the_time_and_the_audience() {
    let now = instant(2026, 8, 30, 6, 0, 0);
    let window = hours(1);
    let at = now.in_nanos();
    let hour: i128 = 3_600_000_000_000;
    assert_eq!(decide(at + 1, now, &window, 1), Decision::Wait);
    assert_eq!(decide(at, now, &window, 1), Decision::Claim(ReminderOutcome::Attempted));
    assert_eq!(decide(at, now, &window, 0), Decision::Hold);
    assert_eq!(decide(at - hour, now, &window, 1), Decision::Claim(ReminderOutcome::Attempted));
    assert_eq!(decide(at - hour - 1, now, &window, 0), Decision::Claim(ReminderOutcome::Expired));
}

#[test]
fn a_claim_is_not_spent_on_a_task_that_concerns_nobody() {
    let now = instant(2026, 8, 30, 5, 0, 10);
    let due = |id: &str| {
        let mut task = task(id, "Bread");
        task.deadline = AnytypeDate::parse("2026-08-30T00:00:00+04:00");
        let moments = reminders_for(&task, &calendar(), &reminders());
        (task, moments)
    };
    let entries = vec![due("alone"), due("followed")];
    let (claims, waiting) = due_reminders(&entries, now, &hours(1), &vec![0, 2]);
    assert_eq!(waiting, 1);
    assert_eq!(claims.len(), 1);
    assert_eq!(claims[0].entry, 1);
    assert_eq!(claims[0].outcome, ReminderOutcome::Attempted);
}

#[test]
fn a_task_reaches_its_assignees_and_an_event_everyone() {
    let of = |id: &str, people: &[&str]| {
        let mut task = task(id, "Bread");
        task.assignees = people.iter().map(|person| person.to_string()).collect();
        (task, Vec::<ReminderMoment>::new())
    };
    let entries = vec![of("a", &["anna"]), of("b", &["boris", "clara"]), of("c", &[]), of("e", &[])];
    let subscribers = vec![Some("anna".to_string()), Some("anna".to_string()), Some("boris".to_string())];
    assert_eq!(audiences_of(&entries, 3, &subscribers), [2, 1, 0, 3]);
    assert_eq!(audiences_of(&entries, 0, &subscribers), [3, 3, 3, 3]);
    assert_eq!(audiences_of(&entries, 4, &vec![None]), [1, 1, 1, 1]);
    assert_eq!(people_of(&entries, 3, 0), Some(&vec!["anna".to_string()]));
    assert_eq!(people_of(&entries, 3, 3), None);
}
