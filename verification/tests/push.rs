use anytype_caldav::push::{
    audience, base64_url, payload, reaches, refused, truncate, BrowserSubscription, Delivery,
    Notification, PushError, SubscriptionKeys,
};
use anytype_caldav::time::Day;

fn day(year: i32, month: u32, day: u32) -> Day {
    let date = chrono::NaiveDate::from_ymd_opt(year, month, day).unwrap();
    let epoch = chrono::NaiveDate::from_ymd_opt(1970, 1, 1).unwrap();
    Day::new((date - epoch).num_days()).unwrap()
}

fn reminder() -> Notification {
    Notification {
        title: "Семинар".into(),
        body: "Начало через 15 минут — сегодня в 10:00".into(),
        url: Some("https://object.any.coop/obj".into()),
        tag: Some("obj".into()),
        day: Some(day(2026, 9, 20)),
    }
}

#[test]
fn without_an_app_url_the_payload_stays_flat() {
    let value = payload(&reminder(), None);
    assert_eq!(value.title, "Семинар");
    assert_eq!(value.url.as_deref(), Some("https://object.any.coop/obj"));
    assert!(value.web_push.is_none(), "{value:?}");
    assert!(value.notification.is_none(), "{value:?}");
}

#[test]
fn with_an_app_url_the_payload_is_also_declarative() {
    let value = payload(&reminder(), Some("https://calendar.example/"));
    assert_eq!(value.web_push, Some(8030));
    let shown = value.notification.expect("a declarative part");
    assert_eq!(shown.title, "Семинар");
    assert_eq!(shown.body, value.body);
    assert_eq!(shown.navigate, "https://calendar.example/?date=2026-09-20");
    assert_eq!(shown.tag.as_deref(), Some("obj"));
    // A service worker keeps reading the flat fields.
    assert_eq!(value.tag.as_deref(), Some("obj"));

    let mut test = reminder();
    test.day = None;
    test.tag = None;
    let value = payload(&test, Some("https://calendar.example/"));
    let shown = value.notification.expect("a declarative part");
    assert_eq!(shown.navigate, "https://calendar.example/");
    assert!(shown.tag.is_none(), "{shown:?}");
}

#[test]
fn a_public_key_is_written_for_urls() {
    assert_eq!(base64_url(&[0xfb, 0xff, 0x00]), "-_8A");
    assert_eq!(base64_url(b"f"), "Zg");
}

#[test]
fn an_endpoint_is_cut_for_the_log() {
    let long = "https://push.example/".to_string() + &"x".repeat(100);
    assert_eq!(truncate(&long), long[..48]);
    assert_eq!(truncate("https://push.example/"), "https://push.example/");
}

#[test]
fn a_subscription_that_is_gone_is_dropped() {
    let mut delivery = Delivery::new();
    delivery.record("a", &Ok(()));
    delivery.record("b", &Err(PushError::Rejected("410 Gone".into())));
    delivery.record("c", &Err(PushError::Rejected("429 Too Many Requests".into())));
    delivery.record("d", &Err(PushError::Transport("410".into())));
    assert_eq!(delivery.delivered, 1);
    assert_eq!(delivery.gone, vec!["b".to_string()]);
}

#[test]
fn a_failure_is_told_in_words() {
    let said = |err: PushError| err.message();
    assert_eq!(
        said(PushError::KeyRead { path: "k".into(), source: "gone".into() }),
        "cannot read the VAPID private key at k: gone"
    );
    assert_eq!(
        said(PushError::KeyInvalid("odd".into())),
        "the VAPID private key is not a usable P-256 PEM key: odd"
    );
    assert_eq!(
        said(PushError::KeyWrite { path: "k".into(), source: "full".into() }),
        "cannot write a new VAPID private key at k: full"
    );
    assert_eq!(said(PushError::Build("b".into())), "building the push message failed: b");
    assert_eq!(said(PushError::Rejected("r".into())), "the push service rejected the message: r");
    assert_eq!(said(PushError::Transport("t".into())), "could not reach the push service: t");
}

#[test]
fn a_subscription_is_told_apart_by_its_keys() {
    let one = |p256dh: &str| BrowserSubscription {
        endpoint: "https://push.example/1".into(),
        keys: SubscriptionKeys { p256dh: p256dh.into(), auth: "auth".into() },
    };
    assert_eq!(one("a"), one("a"));
    assert_ne!(one("a"), one("b"));
}

#[test]
fn a_dropped_endpoint_is_forgotten() {
    let dropped = refused(true, "gone");
    assert_eq!(dropped.message(), "the push service rejected the message: 410 (gone)");
    let other = refused(false, "410 is a number");
    assert_eq!(other.message(), "could not reach the push service: 410 is a number");
    let mut delivery = Delivery::new();
    delivery.record("a", &Err(dropped));
    delivery.record("b", &Err(other));
    delivery.record("c", &Ok(()));
    assert_eq!(delivery.gone, ["a"]);
    assert_eq!(delivery.delivered, 1);
}

#[test]
fn a_persons_own_subscription_receives_what_concerns_them() {
    let anna = Some("anna".to_string());
    let people = vec!["anna".to_string(), "boris".to_string()];
    let others = vec!["boris".to_string()];
    assert!(reaches(&anna, Some(&people)));
    assert!(!reaches(&anna, Some(&others)));
    assert!(reaches(&anna, None));
    assert!(reaches(&None, Some(&others)));
}

#[test]
fn an_audience_counts_whom_a_notification_reaches() {
    let subscribers = vec![None, Some("anna".to_string()), Some("boris".to_string())];
    let annas = vec!["anna".to_string()];
    assert_eq!(audience(&subscribers, None), 3);
    assert_eq!(audience(&subscribers, Some(&annas)), 2);
    assert_eq!(audience(&subscribers[1..].to_vec(), Some(&Vec::new())), 0);
}
