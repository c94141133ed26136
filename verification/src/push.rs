//! Web Push: what a notification carries, and what becomes of a send.
//!
//! The transport belongs to the browser vendor: the browser hands the client a
//! subscription endpoint on the vendor's infrastructure, and the service only signs
//! and POSTs to it.
use vstd::prelude::*;

use crate::digest;
use crate::text;
use crate::text::Text;
use crate::time;
use crate::time::Day;

verus! {

#[derive(Debug)]
pub enum PushError {
    KeyRead { path: String, source: String },
    KeyInvalid(String),
    KeyWrite { path: String, source: String },
    Build(String),
    Rejected(String),
    Transport(String),
}

impl PushError {
    pub open spec fn words(self) -> Text {
        match self {
            PushError::KeyRead { path, source } => "cannot read the VAPID private key at "@ + path@
                + ": "@ + source@,
            PushError::KeyInvalid(why) =>
                "the VAPID private key is not a usable P-256 PEM key: "@ + why@,
            PushError::KeyWrite { path, source } =>
                "cannot write a new VAPID private key at "@ + path@ + ": "@ + source@,
            PushError::Build(why) => "building the push message failed: "@ + why@,
            PushError::Rejected(why) => "the push service rejected the message: "@ + why@,
            PushError::Transport(why) => "could not reach the push service: "@ + why@,
        }
    }

    /// The error in words.
    pub fn message(&self) -> (r: String)
        ensures
            r@ == self.words(),
    {
        match self {
            PushError::KeyRead { path, source } => {
                let mut r = "cannot read the VAPID private key at ".to_owned();
                r.append(path.as_str());
                r.append(": ");
                r.append(source.as_str());
                r
            },
            PushError::KeyInvalid(why) => text::glue(
                "the VAPID private key is not a usable P-256 PEM key: ",
                why.as_str(),
            ),
            PushError::KeyWrite { path, source } => {
                let mut r = "cannot write a new VAPID private key at ".to_owned();
                r.append(path.as_str());
                r.append(": ");
                r.append(source.as_str());
                r
            },
            PushError::Build(why) => text::glue("building the push message failed: ", why.as_str()),
            PushError::Rejected(why) => text::glue(
                "the push service rejected the message: ",
                why.as_str(),
            ),
            PushError::Transport(why) => text::glue(
                "could not reach the push service: ",
                why.as_str(),
            ),
        }
    }
}

/// A subscription exactly as the browser produced it.
#[derive(Debug, Clone, PartialEq, Eq)]
pub struct BrowserSubscription {
    pub endpoint: String,
    pub keys: SubscriptionKeys,
}

#[derive(Debug, Clone, PartialEq, Eq)]
pub struct SubscriptionKeys {
    pub p256dh: String,
    pub auth: String,
}

/// What a notification carries. A page's service worker reads the flat fields; the
/// browser reads the declarative envelope added by [`payload`].
#[derive(Debug, Clone, PartialEq, Eq)]
pub struct Notification {
    pub title: String,
    pub body: String,
    /// Opened when the notification is tapped.
    pub url: Option<String>,
    /// Collapses repeats for the same task rather than stacking them.
    pub tag: Option<String>,
    /// The day the reminder is about, for opening that day in the calendar.
    pub day: Option<Day>,
}

/// What the browser shows by itself, with no service worker: it opens `navigate` on a
/// tap.
#[derive(Debug, PartialEq, Eq)]
pub struct Declarative {
    pub title: String,
    pub body: String,
    pub navigate: String,
    pub tag: Option<String>,
}

/// What is sent to the browser: the flat fields, and beside them the number of the
/// declarative format and what it shows.
#[derive(Debug, PartialEq, Eq)]
pub struct Payload {
    pub title: String,
    pub body: String,
    pub url: Option<String>,
    pub tag: Option<String>,
    pub web_push: Option<u32>,
    pub notification: Option<Declarative>,
}

/// The number of the declarative format.
pub const DECLARATIVE: u32 = 8030;

/// Where a tap leads: the app, at the day of the notification.
pub open spec fn navigate_to(app_url: Text, day: Option<Day>) -> Text {
    match day {
        Some(day) => app_url + "?date="@ + time::dashed_day(day.nth()),
        None => app_url,
    }
}

/// What is sent to the browser. With an `app_url` it also carries the declarative
/// envelope; the flat fields stay for a page's service worker.
pub fn payload(notification: &Notification, app_url: Option<&str>) -> (r: Payload)
    ensures
        r.title == notification.title,
        r.body == notification.body,
        r.url == notification.url,
        r.tag == notification.tag,
        match app_url {
            Some(app_url) => r.web_push == Some(DECLARATIVE) && (r.notification matches Some(shown)
                && shown.title == notification.title && shown.body == notification.body
                && shown.tag == notification.tag && shown.navigate@ == navigate_to(
                app_url@,
                notification.day,
            )),
            None => r.web_push is None && r.notification is None,
        },
{
    let shown = match app_url {
        Some(app_url) => {
            let mut navigate = app_url.to_owned();
            if let Some(day) = notification.day {
                navigate.append("?date=");
                navigate.append(day.dashed().as_str());
            }
            Some(
                Declarative {
                    title: notification.title.clone(),
                    body: notification.body.clone(),
                    navigate,
                    tag: text::copy_text(&notification.tag),
                },
            )
        },
        None => None,
    };
    Payload {
        title: notification.title.clone(),
        body: notification.body.clone(),
        url: text::copy_text(&notification.url),
        tag: text::copy_text(&notification.tag),
        web_push: if shown.is_some() {
            Some(DECLARATIVE)
        } else {
            None
        },
        notification: shown,
    }
}

/// Whether a subscription receives what concerns some people. One that nobody in
/// particular made receives everything, and a person's own what concerns them; `None`
/// concerns everyone.
pub open spec fn concerns(person: Option<Text>, people: Option<Seq<Text>>) -> bool {
    match (person, people) {
        (Some(person), Some(people)) => people.contains(person),
        _ => true,
    }
}

/// Whether a subscription that a person made, or nobody in particular, receives what
/// concerns some people.
pub fn reaches(person: &Option<String>, people: Option<&Vec<String>>) -> (r: bool)
    ensures
        r == concerns(
            text::text_of(*person),
            match people {
                Some(people) => Some(text::texts(people@)),
                None => None,
            },
        ),
{
    match (person, people) {
        (Some(person), Some(people)) => text::listed(people, person.as_str()),
        _ => true,
    }
}

/// How many subscriptions receive what concerns some people, by who made each.
pub open spec fn reached(subscribers: Seq<Option<Text>>, people: Option<Seq<Text>>) -> nat
    decreases subscribers.len(),
{
    if subscribers.len() == 0 {
        0
    } else {
        reached(subscribers.drop_last(), people) + (if concerns(subscribers.last(), people) {
            1nat
        } else {
            0nat
        })
    }
}

/// Who made each subscription.
pub open spec fn subscribed(subscribers: Seq<Option<String>>) -> Seq<Option<Text>> {
    Seq::new(subscribers.len(), |i: int| text::text_of(subscribers[i]))
}

/// The audience of what concerns some people, where `subscribers` holds who made each
/// subscription.
pub fn audience(subscribers: &Vec<Option<String>>, people: Option<&Vec<String>>) -> (r: usize)
    ensures
        r == reached(
            subscribed(subscribers@),
            match people {
                Some(people) => Some(text::texts(people@)),
                None => None,
            },
        ),
{
    let ghost all = subscribed(subscribers@);
    let ghost whom = match people {
        Some(people) => Some(text::texts(people@)),
        None => None,
    };
    let mut r: usize = 0;
    let mut i: usize = 0;
    while i < subscribers.len()
        invariant
            i <= subscribers@.len(),
            r <= i,
            all == subscribed(subscribers@),
            whom == (match people {
                Some(people) => Some(text::texts(people@)),
                None => None,
            }),
            r == reached(all.take(i as int), whom),
        decreases subscribers@.len() - i,
    {
        assert(all.take(i + 1).drop_last() == all.take(i as int));
        assert(all.take(i + 1).last() == text::text_of(subscribers@[i as int]));
        if reaches(&subscribers[i], people) {
            r += 1;
        }
        i += 1;
    }
    assert(all.take(all.len() as int) == all);
    r
}

/// Whether the browser dropped a subscription.
pub open spec fn is_gone(err: PushError) -> bool {
    err matches PushError::Rejected(why) && text::contains(why@, "410"@)
}

/// What a push service's refusal is: of an endpoint that the browser dropped, or of
/// another kind.
pub open spec fn refusal(dropped: bool, why: Text) -> Text {
    if dropped {
        "410 ("@ + why + ")"@
    } else {
        why
    }
}

/// The error of a send that the push service did not take. Exactly the refusal of a
/// dropped endpoint has the subscription forgotten.
pub fn refused(dropped: bool, why: &str) -> (r: PushError)
    ensures
        match r {
            PushError::Rejected(said) => dropped && said@ == refusal(dropped, why@),
            PushError::Transport(said) => !dropped && said@ == refusal(dropped, why@),
            _ => false,
        },
        is_gone(r) == dropped,
{
    if dropped {
        let mut said = "410 (".to_owned();
        said.append(why);
        said.append(")");
        proof {
            reveal_strlit("410 (");
            reveal_strlit("410");
            assert(said@.subrange(0, 3) == "410"@);
            assert(text::occurs_at(said@, "410"@, 0));
        }
        PushError::Rejected(said)
    } else {
        PushError::Transport(why.to_owned())
    }
}

/// What became of a send to several subscriptions.
pub struct Delivery {
    pub delivered: usize,
    /// Endpoints that are to be forgotten.
    pub gone: Vec<String>,
}

impl Delivery {
    pub fn new() -> (r: Delivery)
        ensures
            r.delivered == 0,
            r.gone@.len() == 0,
    {
        Delivery { delivered: 0, gone: Vec::new() }
    }

    /// Takes in what became of one send. A subscription that the browser dropped is
    /// kept no longer; any other failure leaves it in place.
    pub fn record(&mut self, endpoint: &str, sent: &Result<(), PushError>)
        requires
            old(self).delivered < usize::MAX,
        ensures
            match sent {
                Ok(_) => final(self).delivered == old(self).delivered + 1 && final(self).gone@
                    == old(self).gone@,
                Err(err) => final(self).delivered == old(self).delivered && text::texts(
                    final(self).gone@,
                ) == (if is_gone(*err) {
                    text::texts(old(self).gone@).push(endpoint@)
                } else {
                    text::texts(old(self).gone@)
                }),
            },
    {
        let ghost before = self.gone@;
        match sent {
            Ok(_) => {
                self.delivered = self.delivered + 1;
            },
            Err(PushError::Rejected(why)) => {
                if text::has(why.as_str(), "410") {
                    self.gone.push(endpoint.to_owned());
                    assert(text::texts(self.gone@) == text::texts(before).push(endpoint@));
                }
            },
            Err(_) => {},
        }
    }
}

/// The public key as it is handed to the browser.
pub fn base64_url(bytes: &[u8]) -> (r: String)
    ensures
        r@ == digest::base64_url_text(bytes@),
{
    digest::to_base64_url(bytes)
}

/// Endpoints are long and semi-sensitive; logs only need enough to correlate.
pub fn truncate(endpoint: &str) -> (r: String)
    ensures
        r@ == (if endpoint@.len() > 48 {
            endpoint@.take(48)
        } else {
            endpoint@
        }),
{
    if endpoint.unicode_len() > 48 {
        let r = text::part(endpoint, 0, 48);
        assert(r@ == endpoint@.take(48));
        r.to_owned()
    } else {
        endpoint.to_owned()
    }
}

/// What concerns everyone reaches every subscription.
pub proof fn law_what_concerns_everyone_reaches_all(subscribers: Seq<Option<Text>>)
    ensures
        reached(subscribers, None) == subscribers.len(),
    decreases subscribers.len(),
{
    if subscribers.len() > 0 {
        law_what_concerns_everyone_reaches_all(subscribers.drop_last());
    }
}

/// What concerns some people reaches somebody exactly where one of them made a subscription,
/// or nobody in particular did: a person's own subscription gets nothing that concerns only
/// others.
pub proof fn law_what_concerns_people_reaches_their_own(
    subscribers: Seq<Option<Text>>,
    people: Seq<Text>,
)
    ensures
        reached(subscribers, Some(people)) > 0 <==> exists|i: int|
            0 <= i < subscribers.len() && ((#[trigger] subscribers[i]) is None || people.contains(
                subscribers[i]->0,
            )),
        reached(subscribers, Some(people)) <= subscribers.len(),
    decreases subscribers.len(),
{
    if subscribers.len() > 0 {
        let front = subscribers.drop_last();
        let last = subscribers.len() - 1;
        law_what_concerns_people_reaches_their_own(front, people);
        assert(subscribers[last] == subscribers.last());
        if exists|i: int|
            0 <= i < front.len() && ((#[trigger] front[i]) is None || people.contains(
                front[i]->0,
            )) {
            let i = choose|i: int|
                0 <= i < front.len() && ((#[trigger] front[i]) is None || people.contains(
                    front[i]->0,
                ));
            assert(subscribers[i] == front[i]);
        }
        if exists|i: int|
            0 <= i < subscribers.len() && ((#[trigger] subscribers[i]) is None || people.contains(
                subscribers[i]->0,
            )) {
            let i = choose|i: int|
                0 <= i < subscribers.len() && ((#[trigger] subscribers[i]) is None
                    || people.contains(subscribers[i]->0));
            if i < last {
                assert(front[i] == subscribers[i]);
            }
        }
    }
}

/// A tap on a notification leads to the app, and to the day that the notification is about.
pub proof fn law_a_tap_leads_to_the_day(app_url: Text, day: Option<Day>)
    ensures
        text::starts_with(navigate_to(app_url, day), app_url),
        day matches Some(day) ==> text::ends_with(
            navigate_to(app_url, Some(day)),
            "?date="@ + time::dashed_day(day.nth()),
        ),
        day is None ==> navigate_to(app_url, day) == app_url,
{
    let to = navigate_to(app_url, day);
    assert(to.subrange(0, app_url.len() as int) == app_url);
    if let Some(day) = day {
        let end = "?date="@ + time::dashed_day(day.nth());
        assert(to == app_url + end);
        assert(to.subrange(to.len() - end.len(), to.len() as int) == end);
    }
}

/// A subscription is forgotten exactly where its browser dropped it: the refusal of a dropped
/// endpoint says so whatever the push service says of it, and no other error does unless it
/// was refused.
pub proof fn law_a_dropped_subscription_is_forgotten(why: Text, err: PushError)
    ensures
        text::contains(refusal(true, why), "410"@),
        refusal(false, why) == why,
        err matches PushError::Rejected(said) ==> (said@ == refusal(true, why) ==> is_gone(err)),
        err !is Rejected ==> !is_gone(err),
{
    reveal_strlit("410 (");
    reveal_strlit("410");
    let said = refusal(true, why);
    assert(said.subrange(0, 3) =~= "410"@);
    assert(text::occurs_at(said, "410"@, 0));
}

} // verus!
