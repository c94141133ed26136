//! What is answered over HTTP: the feed, its preflight, captured thoughts and push
//! subscriptions.
use vstd::prelude::*;
use vstd::utf8::*;

use crate::caldav::auth;
use crate::caldav::auth::Reader;
use crate::caldav::xml;
use crate::caldav::xml::{Answer, AnswerView};
use crate::capture;
use crate::config::CalendarConfig;
use crate::digest;
use crate::feed;
use crate::feed::{Outcome, Snapshot};
use crate::locale::Language;
use crate::push::{BrowserSubscription, Notification};
use crate::source::SourceError;
use crate::table;
use crate::text;
use crate::text::Text;
use crate::time::Instant;
use crate::writeback;
use crate::writeback::{Patch, PatchView};

verus! {

// ------------------------------------------------------------------ logging
/// The place of the last slash, or -1.
pub open spec fn last_slash(s: Text) -> int
    decreases s.len(),
{
    if s.len() == 0 {
        -1
    } else if s.last() == '/' {
        s.len() - 1
    } else {
        last_slash(s.drop_last())
    }
}

/// Everything before the last part of a path: `/f/<token>/todos.ics` has `/f/<token>`.
pub open spec fn prefix_of(feed_path: Text) -> Text {
    let cut = last_slash(feed_path);
    if cut <= 0 {
        Seq::empty()
    } else {
        feed_path.take(cut)
    }
}

pub fn secret_prefix(feed_path: &str) -> (r: String)
    ensures
        r@ == prefix_of(feed_path@),
{
    let v = text::chars_of(feed_path);
    let mut end: usize = v.len();
    assert(v@.take(v@.len() as int) == v@);
    while end > 0 && v[end - 1] != '/'
        invariant
            end <= v@.len(),
            last_slash(v@.take(end as int)) == last_slash(v@),
        decreases end,
    {
        assert(v@.take(end as int).drop_last() == v@.take(end - 1));
        end -= 1;
    }
    if end <= 1 {
        return String::new();
    }
    let r = text::part(feed_path, 0, end - 1);
    assert(r@ == feed_path@.take(end - 1));
    r.to_owned()
}

/// A path with a secret prefix replaced.
pub open spec fn hidden(path: Text, prefix: Text) -> Text {
    match text::after_prefix(path, prefix) {
        Some(rest) => if prefix.len() > 0 {
            "/[secret]"@ + rest
        } else {
            path
        },
        None => path,
    }
}

pub fn redact_prefix(path: &str, prefix: &str) -> (r: String)
    ensures
        r@ == hidden(path@, prefix@),
{
    match text::strip_prefix(path, prefix) {
        Some(rest) => if prefix.unicode_len() > 0 {
            text::glue("/[secret]", rest)
        } else {
            path.to_owned()
        },
        None => path.to_owned(),
    }
}

/// A path as it is logged: the secret prefix of the feed, which is all that protects
/// the feed on a public address, is replaced.
pub fn redact(path: &str, feed_path: &str) -> (r: String)
    ensures
        r@ == hidden(path@, prefix_of(feed_path@)),
{
    let prefix = secret_prefix(feed_path);
    redact_prefix(path, prefix.as_str())
}

/// What is logged of a path under the feed's prefix is the same whatever the prefix
/// is: it tells nothing of it.
pub proof fn law_a_logged_path_tells_nothing_of_the_prefix(
    one: Text,
    other: Text,
    rest: Text,
)
    requires
        prefix_of(one).len() > 0,
        prefix_of(other).len() > 0,
    ensures
        hidden(prefix_of(one) + rest, prefix_of(one)) == hidden(
            prefix_of(other) + rest,
            prefix_of(other),
        ),
        hidden(prefix_of(one) + rest, prefix_of(one)) == "/[secret]"@ + rest,
{
    let a = prefix_of(one) + rest;
    let b = prefix_of(other) + rest;
    assert(a.subrange(0, prefix_of(one).len() as int) == prefix_of(one));
    assert(b.subrange(0, prefix_of(other).len() as int) == prefix_of(other));
    assert(a.skip(prefix_of(one).len() as int) == rest);
    assert(b.skip(prefix_of(other).len() as int) == rest);
}

/// How loudly a request is logged.
#[derive(Debug, Clone, Copy, PartialEq, Eq, Structural)]
pub enum Level {
    Warn,
    Info,
    Debug,
}

/// A server's own failures stand out, and probes stay quiet.
pub fn log_level(status: u16, path: &str) -> (r: Level)
    ensures
        r == (if 500 <= status < 600 {
            Level::Warn
        } else if path@ == "/healthz"@ {
            Level::Debug
        } else {
            Level::Info
        }),
{
    if 500 <= status && status < 600 {
        Level::Warn
    } else if text::same(path, "/healthz") {
        Level::Debug
    } else {
        Level::Info
    }
}

// ------------------------------------------------------------------- routes
/// What is served.
#[derive(Debug, Clone, Copy, PartialEq, Eq, Structural)]
pub enum Endpoint {
    Feed,
    Health,
    PushKey,
    PushSubscribe,
    PushTest,
    SignedSubscribe,
    SignedTest,
    Capture,
    Dav,
}

/// The paths at which a deployment serves something. Push lives under the feed's own
/// prefix: an open way to subscribe would let anyone receive the reminders. For a
/// script of the calendar app, which must not know that prefix, the same stands in the
/// open and asks for credentials.
pub open spec fn routed(feed_path: Text, push: bool, dav: bool, writer: bool) -> Seq<
    (Text, Endpoint),
> {
    let prefix = prefix_of(feed_path);
    let always = seq![(feed_path, Endpoint::Feed), ("/healthz"@, Endpoint::Health)];
    let secret = if push {
        seq![
            (prefix + "/push/key"@, Endpoint::PushKey),
            (prefix + "/push/subscribe"@, Endpoint::PushSubscribe),
            (prefix + "/push/test"@, Endpoint::PushTest),
        ]
    } else {
        seq![]
    };
    let open = if push && dav {
        seq![
            ("/push/key"@, Endpoint::PushKey),
            ("/push/subscribe"@, Endpoint::SignedSubscribe),
            ("/push/test"@, Endpoint::SignedTest),
        ]
    } else {
        seq![]
    };
    let voice = if writer && dav {
        seq![("/capture"@, Endpoint::Capture)]
    } else {
        seq![]
    };
    let facade = if dav {
        seq![
            ("/dav"@, Endpoint::Dav),
            ("/dav/"@, Endpoint::Dav),
            ("/dav/{*rest}"@, Endpoint::Dav),
        ]
    } else {
        seq![]
    };
    always + secret + open + voice + facade
}

pub open spec fn routes_view(routes: Seq<(String, Endpoint)>) -> Seq<(Text, Endpoint)> {
    Seq::new(routes.len(), |i: int| (routes[i].0@, routes[i].1))
}

fn route(routes: &mut Vec<(String, Endpoint)>, prefix: &str, path: &str, endpoint: Endpoint)
    ensures
        routes_view(final(routes)@) == routes_view(old(routes)@).push((prefix@ + path@, endpoint)),
{
    let ghost before = routes@;
    routes.push((text::glue(prefix, path), endpoint));
    assert(routes_view(routes@) == routes_view(before).push((prefix@ + path@, endpoint)));
}

pub fn routes(feed_path: &str, push: bool, dav: bool, writer: bool) -> (r: Vec<(String, Endpoint)>)
    ensures
        routes_view(r@) == routed(feed_path@, push, dav, writer),
{
    let prefix = secret_prefix(feed_path);
    let mut r: Vec<(String, Endpoint)> = Vec::new();
    assert(routes_view(r@) == Seq::<(Text, Endpoint)>::empty());
    proof {
        reveal_strlit("");
        assert(""@ == Seq::<char>::empty());
        assert forall|s: Text| #[trigger] (""@ + s) == s by {
            assert(""@ + s =~= s);
        }
    }
    route(&mut r, "", feed_path, Endpoint::Feed);
    route(&mut r, "", "/healthz", Endpoint::Health);
    if push {
        route(&mut r, prefix.as_str(), "/push/key", Endpoint::PushKey);
        route(&mut r, prefix.as_str(), "/push/subscribe", Endpoint::PushSubscribe);
        route(&mut r, prefix.as_str(), "/push/test", Endpoint::PushTest);
    }
    if push && dav {
        route(&mut r, "", "/push/key", Endpoint::PushKey);
        route(&mut r, "", "/push/subscribe", Endpoint::SignedSubscribe);
        route(&mut r, "", "/push/test", Endpoint::SignedTest);
    }
    if writer && dav {
        route(&mut r, "", "/capture", Endpoint::Capture);
    }
    if dav {
        route(&mut r, "", "/dav", Endpoint::Dav);
        route(&mut r, "", "/dav/", Endpoint::Dav);
        route(&mut r, "", "/dav/{*rest}", Endpoint::Dav);
    }
    assert(routes_view(r@) =~= routed(feed_path@, push, dav, writer));
    r
}

/// Without the facade, whose credentials guard the rest, every path but those of the
/// feed and of the probe lies under the feed's prefix.
pub proof fn law_nothing_is_open_without_credentials(feed_path: Text, push: bool, writer: bool)
    ensures
        forall|i: int|
            2 <= i < routed(feed_path, push, false, writer).len() ==> text::starts_with(
                (#[trigger] routed(feed_path, push, false, writer)[i]).0,
                prefix_of(feed_path),
            ),
{
    let prefix = prefix_of(feed_path);
    assert forall|s: Text| #[trigger] text::starts_with(prefix + s, prefix) by {
        assert((prefix + s).subrange(0, prefix.len() as int) == prefix);
    }
}

// --------------------------------------------------------------------- feed
/// The second that an HTTP date names.
pub uninterp spec fn http_date(s: Text) -> Option<int>;

/// `httpdate::parse_http_date`, as seconds since 1970: what it reads depends on the
/// text alone and lies in the years 1970 to 9999.
#[verifier::external_body]
fn read_http_date(s: &str) -> (r: Option<u64>)
    ensures
        match r {
            Some(second) => http_date(s@) == Some(second as int) && second < 253_402_300_800,
            None => http_date(s@) is None,
        },
{
    let at = httpdate::parse_http_date(s).ok()?;
    at.duration_since(std::time::UNIX_EPOCH).ok().map(|since| since.as_secs())
}

/// A second as an HTTP date.
pub uninterp spec fn http_date_text(second: int) -> Text;

/// `httpdate::fmt_http_date`: the text depends on the second alone, and is read as that
/// second again. It panics before 1970 and after the year 9999.
#[verifier::external_body]
fn write_http_date(second: u64) -> (r: String)
    requires
        second < 253_402_300_800,
    ensures
        r@ == http_date_text(second as int),
        http_date(r@) == Some(second as int),
{
    httpdate::fmt_http_date(std::time::UNIX_EPOCH + std::time::Duration::from_secs(second))
}

/// The whole second that a moment lies in.
pub open spec fn whole_second(at: Instant) -> int {
    at.total() / 1_000_000_000
}

/// Whether an HTTP date can name the second of a moment.
pub open spec fn datable(at: Instant) -> bool {
    0 <= at.total() < 253_402_300_800_000_000_000
}

/// Whether one of the tags that a client lists is this one, or stands for any.
pub open spec fn lists_tag(header: Text, etag: Text) -> bool {
    exists|i: int|
        0 <= i < text::split(header, ',').len() && ({
            let candidate = text::trimmed(#[trigger] text::split(header, ',')[i]);
            candidate == etag || candidate == "*"@
        })
}

fn tag_listed(header: &str, etag: &str) -> (r: bool)
    ensures
        r == lists_tag(header@, etag@),
{
    let parts = text::split_at_each(header, ',');
    let ghost all = text::split(header@, ',');
    let mut i: usize = 0;
    while i < parts.len()
        invariant
            i <= parts@.len(),
            all == text::split(header@, ','),
            text::texts(parts@) == all,
            forall|j: int|
                0 <= j < i ==> text::trimmed(#[trigger] all[j]) != etag@ && text::trimmed(all[j])
                    != "*"@,
        decreases parts@.len() - i,
    {
        assert(all[i as int] == parts@[i as int]@);
        let candidate = text::trim(parts[i].as_str());
        if text::same(candidate, etag) || text::same(candidate, "*") {
            return true;
        }
        i += 1;
    }
    false
}

/// Whether what a client has is still current, by the tag it has or else by the date.
pub open spec fn current(
    if_none_match: Option<Text>,
    if_modified_since: Option<Text>,
    etag: Text,
    modified: Instant,
) -> bool {
    match (if_none_match, if_modified_since) {
        (Some(header), _) => lists_tag(header, etag),
        (None, Some(header)) => match http_date(header) {
            // An HTTP date has whole seconds.
            Some(since) => modified.total() - since * 1_000_000_000 < 1_000_000_000,
            None => false,
        },
        (None, None) => false,
    }
}

/// Honours both validators, because clients revalidate with whichever they happen to
/// implement.
pub fn not_modified(
    if_none_match: &Option<String>,
    if_modified_since: &Option<String>,
    snapshot: &Snapshot,
) -> (r: bool)
    ensures
        r == current(
            text::text_of(*if_none_match),
            text::text_of(*if_modified_since),
            snapshot.etag@,
            snapshot.last_modified,
        ),
{
    match (if_none_match, if_modified_since) {
        (Some(header), _) => tag_listed(header.as_str(), snapshot.etag.as_str()),
        (None, Some(header)) => match read_http_date(header.as_str()) {
            Some(since) => snapshot.last_modified.in_nanos() - since as i128 * 1_000_000_000
                < 1_000_000_000,
            None => false,
        },
        (None, None) => false,
    }
}

/// An answer in plain words.
pub open spec fn text_answer(status: int, body: Text) -> AnswerView {
    xml::headed(status, "content-type"@, "text/plain; charset=utf-8"@, body)
}

fn in_text(code: u16, body: &str) -> (r: Answer)
    ensures
        r@ == text_answer(code as int, body@),
{
    xml::with_header(code, "content-type", "text/plain; charset=utf-8", body)
}

/// The feed as it is sent.
pub open spec fn served_feed(snapshot: Snapshot, stale: bool) -> AnswerView {
    let headers = seq![
        ("content-type"@, "text/calendar; charset=utf-8"@),
        ("content-disposition"@, "inline; filename=\"todos.ics\""@),
        ("cache-control"@, "no-cache"@),
        ("etag"@, snapshot.etag@),
        ("last-modified"@, http_date_text(whole_second(snapshot.last_modified))),
    ];
    AnswerView {
        status: 200,
        headers: if stale {
            headers.push(("x-exporter-stale"@, "true"@))
        } else {
            headers
        },
        body: snapshot.body@,
    }
}

fn add_header(answer: &mut Answer, name: &str, value: &str)
    ensures
        final(answer)@ == (AnswerView {
            headers: old(answer)@.headers.push((name@, value@)),
            ..old(answer)@
        }),
{
    let ghost before = answer@;
    answer.headers.push((name.to_owned(), value.to_owned()));
    assert(answer@.headers == before.headers.push((name@, value@)));
}

/// The feed as it is sent. A client that sends back the date it is given here, and no
/// tag, is told that nothing changed.
pub fn feed_response(snapshot: &Snapshot, stale: bool) -> (r: Answer)
    requires
        datable(snapshot.last_modified),
    ensures
        r@ == served_feed(*snapshot, stale),
        r@.headers[4].0 == "last-modified"@,
        current(None, Some(r@.headers[4].1), snapshot.etag@, snapshot.last_modified),
{
    let mut r = xml::with_body(200, snapshot.body.as_str());
    add_header(&mut r, "content-type", "text/calendar; charset=utf-8");
    add_header(&mut r, "content-disposition", "inline; filename=\"todos.ics\"");
    add_header(&mut r, "cache-control", "no-cache");
    add_header(&mut r, "etag", snapshot.etag.as_str());
    let second: u64 = (snapshot.last_modified.in_nanos() as u128 / 1_000_000_000) as u64;
    let modified = write_http_date(second);
    add_header(&mut r, "last-modified", modified.as_str());
    if stale {
        add_header(&mut r, "x-exporter-stale", "true");
    }
    assert(r@.headers =~= served_feed(*snapshot, stale).headers);
    r
}

/// What a request for the feed is answered. A stale body is always sent in full, even
/// against a matching validator: the fallback is to be seen, not to hide behind a
/// cache.
pub open spec fn feed_answer(
    outcome: Outcome,
    if_none_match: Option<Text>,
    if_modified_since: Option<Text>,
) -> AnswerView {
    match outcome {
        Outcome::Fresh(snapshot) => if current(
            if_none_match,
            if_modified_since,
            snapshot.etag@,
            snapshot.last_modified,
        ) {
            xml::bare(304)
        } else {
            served_feed(*snapshot, false)
        },
        Outcome::Stale(snapshot) => served_feed(*snapshot, true),
        Outcome::Unavailable { category } => text_answer(
            503,
            "feed unavailable: "@ + category@ + "\n"@,
        ),
    }
}

/// Whether what is sent of an outcome can be dated. Nothing is dated where the client
/// has what is current.
pub open spec fn outcome_datable(
    outcome: Outcome,
    if_none_match: Option<Text>,
    if_modified_since: Option<Text>,
) -> bool {
    match outcome {
        Outcome::Fresh(snapshot) => datable(snapshot.last_modified) || current(
            if_none_match,
            if_modified_since,
            snapshot.etag@,
            snapshot.last_modified,
        ),
        Outcome::Stale(snapshot) => datable(snapshot.last_modified),
        Outcome::Unavailable { .. } => true,
    }
}

fn is_datable(instant: &Instant) -> (r: bool)
    ensures
        r == datable(*instant),
{
    let nanos: i128 = instant.in_nanos();
    0 <= nanos && nanos < 253_402_300_800_000_000_000
}

/// Whether `todos` can answer.
pub fn can_answer(
    outcome: &Outcome,
    if_none_match: &Option<String>,
    if_modified_since: &Option<String>,
) -> (r: bool)
    ensures
        r == outcome_datable(
            *outcome,
            text::text_of(*if_none_match),
            text::text_of(*if_modified_since),
        ),
{
    match outcome {
        Outcome::Fresh(snapshot) => is_datable(&snapshot.last_modified) || not_modified(
            if_none_match,
            if_modified_since,
            snapshot,
        ),
        Outcome::Stale(snapshot) => is_datable(&snapshot.last_modified),
        Outcome::Unavailable { .. } => true,
    }
}

/// The headers that let a page of this origin read an answer: none unless the origin
/// is configured.
pub open spec fn cors(origin: Option<Text>, allowed: Seq<Text>) -> Seq<(Text, Text)> {
    match origin {
        Some(origin) => if allowed.contains(origin) {
            seq![
                ("access-control-allow-origin"@, origin),
                ("access-control-expose-headers"@, "ETag, X-Exporter-Stale"@),
                ("vary"@, "Origin"@),
            ]
        } else {
            seq![]
        },
        None => seq![],
    }
}

/// Echoes only a configured origin. Without the list of exposed headers a script could
/// read neither the tag nor whether the body is stale.
pub fn apply_cors(answer: &mut Answer, origin: &Option<String>, allowed: &Vec<String>)
    ensures
        final(answer)@ == (AnswerView {
            headers: old(answer)@.headers + cors(text::text_of(*origin), text::texts(allowed@)),
            ..old(answer)@
        }),
{
    let ghost before = answer@;
    if let Some(origin) = origin {
        if text::listed(allowed, origin.as_str()) {
            add_header(answer, "access-control-allow-origin", origin.as_str());
            add_header(answer, "access-control-expose-headers", "ETag, X-Exporter-Stale");
            add_header(answer, "vary", "Origin");
        }
    }
    assert(answer@.headers =~= before.headers + cors(
        text::text_of(*origin),
        text::texts(allowed@),
    ));
}

/// Answers a request for the feed.
pub fn todos(
    outcome: &Outcome,
    if_none_match: &Option<String>,
    if_modified_since: &Option<String>,
    origin: &Option<String>,
    allowed: &Vec<String>,
) -> (r: Answer)
    requires
        outcome_datable(
            *outcome,
            text::text_of(*if_none_match),
            text::text_of(*if_modified_since),
        ),
    ensures
        ({
            let answer = feed_answer(
                *outcome,
                text::text_of(*if_none_match),
                text::text_of(*if_modified_since),
            );
            r@ == (AnswerView {
                headers: answer.headers + cors(text::text_of(*origin), text::texts(allowed@)),
                ..answer
            })
        }),
{
    let mut answer = match outcome {
        Outcome::Fresh(snapshot) => if not_modified(if_none_match, if_modified_since, snapshot) {
            xml::status(304)
        } else {
            feed_response(snapshot, false)
        },
        Outcome::Stale(snapshot) => feed_response(snapshot, true),
        Outcome::Unavailable { category } => {
            let mut body = text::glue("feed unavailable: ", category);
            body.append("\n");
            in_text(503, body.as_str())
        },
    };
    apply_cors(&mut answer, origin, allowed);
    answer
}

/// What a preflight says beyond who may read.
pub open spec fn preflight_headers(private_network: bool) -> Seq<(Text, Text)> {
    let always = seq![
        ("access-control-allow-methods"@, "GET, OPTIONS"@),
        ("access-control-allow-headers"@, "If-None-Match, If-Modified-Since"@),
        ("access-control-max-age"@, "600"@),
    ];
    if private_network {
        always.push(("access-control-allow-private-network"@, "true"@))
    } else {
        always
    }
}

/// Answers the preflight that a browser sends before a conditional request from a page
/// of another origin. `private_network` is whether the browser asks to reach an address
/// of this machine from a public page.
pub fn todos_preflight(origin: &Option<String>, allowed: &Vec<String>, private_network: bool) -> (r:
    Answer)
    ensures
        r@ == (AnswerView {
            headers: cors(text::text_of(*origin), text::texts(allowed@)) + preflight_headers(
                private_network,
            ),
            ..xml::bare(204)
        }),
{
    let mut r = xml::status(204);
    apply_cors(&mut r, origin, allowed);
    add_header(&mut r, "access-control-allow-methods", "GET, OPTIONS");
    add_header(&mut r, "access-control-allow-headers", "If-None-Match, If-Modified-Since");
    add_header(&mut r, "access-control-max-age", "600");
    if private_network {
        add_header(&mut r, "access-control-allow-private-network", "true");
    }
    assert(r@.headers =~= cors(text::text_of(*origin), text::texts(allowed@))
        + preflight_headers(private_network));
    r
}

/// Answers a probe: this process lives, whatever it depends on.
pub fn healthz() -> (r: Answer)
    ensures
        r@ == text_answer(200, "ok"@),
{
    in_text(200, "ok")
}

/// A client that sends the tag of the body it was given is told that nothing changed.
pub proof fn law_a_served_tag_is_honoured(body: Text, since: Option<Text>, modified: Instant)
    ensures
        current(Some(feed::tag_of(body)), since, feed::tag_of(body), modified),
{
    let etag = feed::tag_of(body);
    let inner = digest::hex(digest::sha256(encode_utf8(body)).take(16));
    digest::lemma_hex(digest::sha256(encode_utf8(body)).take(16));
    reveal_strlit("\"");
    assert forall|i: int| 0 <= i < etag.len() implies etag[i] != ',' && !text::white_space(
        etag[i],
    ) by {
        if 0 < i < etag.len() - 1 {
            assert(etag[i] == inner[i - 1]);
            assert(text::alphanumeric(inner[i - 1]));
        }
    }
    text::lemma_trimmed_is_same(etag);
    text::lemma_one_part(etag, ',');
    assert(text::trimmed(text::split(etag, ',')[0]) == etag);
}

/// A page learns nothing of the feed unless its origin is configured.
pub proof fn law_only_configured_origins_may_read(origin: Option<Text>, allowed: Seq<Text>)
    ensures
        cors(origin, allowed).len() > 0 <==> origin is Some && allowed.contains(origin->0),
        forall|i: int|
            0 <= i < cors(origin, allowed).len() && (#[trigger] cors(origin, allowed)[i]).0
                == "access-control-allow-origin"@ ==> origin == Some(cors(origin, allowed)[i].1),
{
    reveal_strlit("access-control-allow-origin");
    reveal_strlit("access-control-expose-headers");
    reveal_strlit("vary");
    assert("access-control-expose-headers"@.len() != "access-control-allow-origin"@.len());
    assert("vary"@.len() != "access-control-allow-origin"@.len());
}

/// While the space cannot be read, what was read of it before is sent in full, and is
/// marked.
pub proof fn law_a_stale_feed_is_sent_and_marked(
    snapshot: &Snapshot,
    if_none_match: Option<Text>,
    if_modified_since: Option<Text>,
)
    ensures
        ({
            let answer = feed_answer(Outcome::Stale(snapshot), if_none_match, if_modified_since);
            &&& answer.status == 200
            &&& answer.body == snapshot.body@
            &&& answer.headers.contains(("x-exporter-stale"@, "true"@))
        }),
{
    let answer = feed_answer(Outcome::Stale(snapshot), if_none_match, if_modified_since);
    assert(answer.headers[5] == ("x-exporter-stale"@, "true"@));
}

// --------------------------------------------------------------------- push
/// What is answered where push is not configured.
pub open spec fn no_push() -> AnswerView {
    text_answer(404, "push is disabled"@)
}

pub fn push_disabled() -> (r: Answer)
    ensures
        r@ == no_push(),
{
    in_text(404, "push is disabled")
}

/// What is answered once a subscription was stored, or could not be.
pub fn subscription_stored(stored: bool) -> (r: Answer)
    ensures
        r@ == (if stored {
            text_answer(204, ""@)
        } else {
            text_answer(500, "cannot store subscription"@)
        }),
{
    if stored {
        in_text(204, "")
    } else {
        in_text(500, "cannot store subscription")
    }
}

/// A subscription to store: a person's receives the reminders of their own tasks only.
pub struct Subscribe {
    pub subscription: BrowserSubscription,
    pub person: Option<String>,
}

/// Stores a subscription that came by the feed's secret path.
pub fn push_subscribe(subscription: BrowserSubscription, push: bool) -> (r: Result<
    Subscribe,
    Answer,
>)
    ensures
        match r {
            Ok(todo) => push && todo.subscription == subscription && todo.person is None,
            Err(answer) => !push && answer@ == no_push(),
        },
{
    if push {
        Ok(Subscribe { subscription, person: None })
    } else {
        Err(push_disabled())
    }
}

/// Stores a subscription that the calendar app sends. The credentials come before the
/// body: an anonymous caller learns nothing of what a body must be. There is no
/// challenge in the refusal, which would make the browser ask for a password over the
/// app.
pub fn authorized_subscribe(
    reader: &Option<Reader>,
    subscription: Option<BrowserSubscription>,
    push: bool,
) -> (r: Result<Subscribe, Answer>)
    ensures
        match (reader, subscription) {
            (None, _) => r is Err && r->Err_0@ == xml::bare(401),
            (Some(_), None) => r is Err && r->Err_0@ == text_answer(
                422,
                "not a push subscription"@,
            ),
            (Some(reader), Some(subscription)) => match r {
                Ok(todo) => push && todo.subscription == subscription && text::text_of(
                    todo.person,
                ) == auth::person_view(*reader),
                Err(answer) => !push && answer@ == no_push(),
            },
        },
{
    match (reader, subscription) {
        (None, _) => Err(xml::status(401)),
        (Some(_), None) => Err(in_text(422, "not a push subscription")),
        (Some(reader), Some(subscription)) => if push {
            let person = match reader {
                Reader::Shared => None,
                Reader::Person(id) => Some(id.clone()),
            };
            Ok(Subscribe { subscription, person })
        } else {
            Err(push_disabled())
        },
    }
}

/// Whose devices a test notification goes to: a person's own, or everyone's.
pub fn authorized_test(reader: &Option<Reader>, push: bool) -> (r: Result<Option<String>, Answer>)
    ensures
        match reader {
            None => r is Err && r->Err_0@ == xml::bare(401),
            Some(reader) => match r {
                Ok(person) => push && text::text_of(person) == auth::person_view(*reader),
                Err(answer) => !push && answer@ == no_push(),
            },
        },
{
    match reader {
        None => Err(xml::status(401)),
        Some(reader) => if push {
            match reader {
                Reader::Shared => Ok(None),
                Reader::Person(id) => Ok(Some(id.clone())),
            }
        } else {
            Err(push_disabled())
        },
    }
}

/// The notification that proves the whole chain without waiting for a deadline.
pub fn test_notification(language: Language) -> (r: Notification)
    ensures
        r.title@ == "Anytype"@,
        r.body@ == (match language {
            Language::En => "Test notification from anytype-caldav"@,
            Language::Ru => "Тестовое уведомление от anytype-caldav"@,
        }),
        r.url is None,
        text::text_of(r.tag) == Some("test"@),
        r.day is None,
{
    Notification {
        title: "Anytype".to_owned(),
        body: language.test_notification().to_owned(),
        url: None,
        tag: Some("test".to_owned()),
        day: None,
    }
}

// ------------------------------------------------------------------ capture
/// One captured thought.
#[derive(Debug)]
pub struct Capture {
    /// What to call the task.
    pub text: String,
    /// When it is planned: a moment, or a day alone.
    pub due: Option<String>,
    /// The sender's own id for this thought, so that sending it twice writes one
    /// task.
    pub id: Option<String>,
    /// Tag names; missing options are created.
    pub tags: Vec<String>,
}

/// An optional text without white space around it, where anything is left of it.
pub open spec fn filled(s: Option<String>) -> Option<Text> {
    match s {
        Some(s) => if text::trimmed(s@).len() > 0 {
            Some(text::trimmed(s@))
        } else {
            None
        },
        None => None,
    }
}

fn filled_text<'a>(s: &'a Option<String>) -> (r: Option<&'a str>)
    ensures
        match r {
            Some(r) => filled(*s) == Some(r@),
            None => filled(*s) is None,
        },
{
    match s {
        Some(s) => {
            let s = text::trim(s.as_str());
            if s.unicode_len() > 0 {
                Some(s)
            } else {
                None
            }
        },
        None => None,
    }
}

/// An id for words that have none: the same within one minute.
pub open spec fn words_id(words: Text, minute: nat) -> Text {
    digest::hex(
        digest::sha256(encode_utf8(text::decimal(minute) + ":"@ + words)).take(16),
    )
}

/// A stable id for a text with no id of its own, so that a retry of the same words
/// within the same minute does not make a second task.
pub fn uuid_like(words: &str, minute: u64) -> (r: String)
    ensures
        r@ == words_id(words@, minute as nat),
{
    let mut said = text::number(minute);
    said.append(":");
    said.append(words);
    let whole = digest::sha256_of(said.as_str().as_bytes());
    digest::hex_of(feed::first_bytes(&whole, 16).as_slice())
}

/// The UID that a captured thought is written under.
pub open spec fn capture_uid(capture: Capture, minute: nat) -> Text {
    match filled(capture.id) {
        Some(id) => id + "@capture.anytype-task-exporter"@,
        None => words_id(text::trimmed(capture.text@), minute)
            + "@capture.anytype-task-exporter"@,
    }
}

/// A thought on its way to becoming a task.
pub struct Pending {
    pub uid: String,
    pub name: String,
}

/// What a capture is refused with before anything is looked up.
pub open spec fn refusal(authorized: bool, writable: bool, capture: Option<Capture>) -> Option<
    AnswerView,
> {
    if !authorized {
        Some(xml::bare(401))
    } else if !writable {
        Some(text_answer(404, "capture is disabled"@))
    } else {
        match capture {
            None => Some(text_answer(422, "expected {\"text\": …}"@)),
            Some(capture) => if text::trimmed(capture.text@).len() == 0 {
                Some(text_answer(422, "text is empty"@))
            } else {
                None
            },
        }
    }
}

/// Takes a captured thought in: who sent it comes first, then whether there is a space
/// to write to, then what was sent. `minute` is the minute of the clock.
pub fn begin_capture(
    authorized: bool,
    writable: bool,
    capture: &Option<Capture>,
    minute: u64,
) -> (r: Result<Pending, Answer>)
    ensures
        match r {
            Ok(pending) => {
                &&& refusal(authorized, writable, *capture) is None
                &&& pending.uid@ == capture_uid(capture->0, minute as nat)
                &&& pending.name@ == text::trimmed(capture->0.text@)
            },
            Err(answer) => refusal(authorized, writable, *capture) == Some(answer@),
        },
{
    if !authorized {
        return Err(xml::status(401));
    }
    if !writable {
        return Err(in_text(404, "capture is disabled"));
    }
    match capture {
        None => Err(in_text(422, "expected {\"text\": …}")),
        Some(capture) => {
            let name = text::trim(capture.text.as_str());
            if name.unicode_len() == 0 {
                return Err(in_text(422, "text is empty"));
            }
            let mut uid = match filled_text(&capture.id) {
                Some(id) => id.to_owned(),
                None => uuid_like(name, minute),
            };
            uid.append("@capture.anytype-task-exporter");
            Ok(Pending { uid, name: name.to_owned() })
        },
    }
}

/// What becomes of a captured thought.
pub enum CaptureStep {
    /// It was written before, as this object.
    Written(String),
    /// It is refused.
    Refused(Answer),
    /// It is to be created under this UID.
    Create(String, Patch),
}

pub enum CaptureView {
    Written(Text),
    Refused(AnswerView),
    Create(Text, PatchView),
}

impl View for CaptureStep {
    type V = CaptureView;

    open spec fn view(&self) -> CaptureView {
        match self {
            CaptureStep::Written(object_id) => CaptureView::Written(object_id@),
            CaptureStep::Refused(answer) => CaptureView::Refused(answer@),
            CaptureStep::Create(uid, patch) => CaptureView::Create(uid@, patch@),
        }
    }
}

/// The object that an outcome of the feed holds under a UID.
pub open spec fn object_under(outcome: Outcome, uid: Text) -> Option<Text> {
    match outcome {
        Outcome::Fresh(snapshot) | Outcome::Stale(snapshot) => match table::at(
            snapshot.objects@,
            feed::filename_of(uid),
        ) {
            Some(resource) => Some(resource.object_id@),
            None => None,
        },
        Outcome::Unavailable { .. } => None,
    }
}

/// The task that a captured thought becomes. It is planned for the day it names, or
/// for none, and belongs to nobody until someone sorts it.
pub open spec fn captured_task(name: Text, scheduled: Option<Text>, tags: Seq<Text>) -> PatchView {
    PatchView {
        name: Some(name),
        done: Some(false),
        scheduled: Some(scheduled),
        deadline: None,
        tags: writeback::filled_list(tags),
        assignees: None,
    }
}

/// What becomes of a captured thought, given what the feed holds.
pub open spec fn capture_step(
    uid: Text,
    name: Text,
    capture: Capture,
    outcome: Outcome,
    zone: Text,
) -> CaptureView {
    match (object_under(outcome, uid), filled(capture.due)) {
        (Some(object_id), _) => CaptureView::Written(object_id),
        (None, None) => CaptureView::Create(
            uid,
            captured_task(name, None, text::texts(capture.tags@)),
        ),
        (None, Some(due)) => match capture::captured_date(due, zone) {
            Some(value) => CaptureView::Create(
                uid,
                captured_task(name, Some(value), text::texts(capture.tags@)),
            ),
            None => CaptureView::Refused(text_answer(422, "due is not a date"@)),
        },
    }
}

fn object_for(outcome: &Outcome, uid: &str) -> (r: Option<String>)
    ensures
        text::text_of(r) == object_under(*outcome, uid@),
{
    match outcome {
        Outcome::Fresh(snapshot) | Outcome::Stale(snapshot) => {
            let name = feed::calino_filename(uid);
            match snapshot.objects.get(name.as_str()) {
                Some(resource) => Some(resource.object_id.clone()),
                None => None,
            }
        },
        Outcome::Unavailable { .. } => None,
    }
}

/// Decides what becomes of a captured thought. One that the feed already holds under
/// its UID is not written again, so that a client may retry without looking first.
pub fn continue_capture(
    pending: &Pending,
    capture: &Capture,
    outcome: &Outcome,
    config: &CalendarConfig,
) -> (r: CaptureStep)
    ensures
        r@ == capture_step(
            pending.uid@,
            pending.name@,
            *capture,
            *outcome,
            config.date_only_timezone@,
        ),
{
    if let Some(object_id) = object_for(outcome, pending.uid.as_str()) {
        return CaptureStep::Written(object_id);
    }
    let scheduled = match filled_text(&capture.due) {
        None => None,
        Some(due) => match capture::anytype_date(due, config) {
            Some(value) => Some(value),
            None => return CaptureStep::Refused(in_text(422, "due is not a date")),
        },
    };
    let patch = Patch {
        name: Some(pending.name.clone()),
        done: Some(false),
        scheduled: Some(scheduled),
        deadline: None,
        tags: writeback::list_or_none(&capture.tags),
        assignees: None,
    };
    CaptureStep::Create(pending.uid.clone(), patch)
}

/// What is answered where the space would not take a captured thought.
pub fn capture_failed(err: &SourceError) -> (r: Answer)
    ensures
        r@ == text_answer(503, err.category()@),
{
    in_text(503, err.public_category())
}

/// A thought that the feed holds under its UID is never written again, whatever the
/// retry says of it.
pub proof fn law_a_captured_thought_is_written_once(
    capture: Capture,
    minute: nat,
    name: Text,
    outcome: Outcome,
    zone: Text,
)
    requires
        object_under(outcome, capture_uid(capture, minute)) is Some,
    ensures
        !(capture_step(capture_uid(capture, minute), name, capture, outcome, zone) is Create),
{
}

/// With an id of the sender's own, the UID is the same in every minute.
pub proof fn law_an_id_outlasts_the_minute(capture: Capture, one: nat, other: nat)
    requires
        filled(capture.id) is Some,
    ensures
        capture_uid(capture, one) == capture_uid(capture, other),
{
}

// ------------------------------------------------------------ what a client gets

/// A fresh feed is sent in full, with its tag, unless the client has what is current; it is
/// never marked as stale. Where the client has what is current, it is told so and nothing
/// is sent.
pub proof fn law_a_fresh_feed_is_sent_in_full(
    snapshot: &Snapshot,
    if_none_match: Option<Text>,
    if_modified_since: Option<Text>,
)
    ensures
        ({
            let answer = feed_answer(Outcome::Fresh(snapshot), if_none_match, if_modified_since);
            if current(
                if_none_match,
                if_modified_since,
                snapshot.etag@,
                snapshot.last_modified,
            ) {
                answer.status == 304 && answer.body.len() == 0
            } else {
                &&& answer.status == 200
                &&& answer.body == snapshot.body@
                &&& answer.headers.contains(("etag"@, snapshot.etag@))
                &&& !answer.headers.contains(("x-exporter-stale"@, "true"@))
            }
        }),
{
    let answer = served_feed(*snapshot, false);
    assert(answer.headers[3] == ("etag"@, snapshot.etag@));
    reveal_strlit("x-exporter-stale");
    reveal_strlit("content-type");
    reveal_strlit("content-disposition");
    reveal_strlit("cache-control");
    reveal_strlit("etag");
    reveal_strlit("last-modified");
    assert("x-exporter-stale"@.len() == 16 && "content-type"@.len() == 12);
    assert("content-disposition"@.len() == 19 && "cache-control"@.len() == 13);
    assert("etag"@.len() == 4 && "last-modified"@.len() == 13);
}

/// Without anything ever read, a request for the feed fails and says why; it never gets an
/// empty calendar.
pub proof fn law_an_unavailable_feed_fails(
    category: &'static str,
    if_none_match: Option<Text>,
    if_modified_since: Option<Text>,
)
    ensures
        ({
            let answer = feed_answer(
                Outcome::Unavailable { category },
                if_none_match,
                if_modified_since,
            );
            answer.status == 503 && text::contains(answer.body, category@)
        }),
{
    let body = "feed unavailable: "@ + category@ + "\n"@;
    let n = "feed unavailable: "@.len() as int;
    assert(body.subrange(n, n + category@.len()) == category@);
    assert(text::occurs_at(body, category@, n));
}

/// What a client has counts as current only by the tag of the feed where it sends tags, and
/// only by a date that is not before the last change where it sends none; with neither it
/// has nothing.
pub proof fn law_what_changed_is_sent(
    if_none_match: Option<Text>,
    if_modified_since: Option<Text>,
    etag: Text,
    modified: Instant,
)
    requires
        current(if_none_match, if_modified_since, etag, modified),
    ensures
        if_none_match matches Some(header) ==> exists|i: int|
            0 <= i < text::split(header, ',').len() && (text::trimmed(
                #[trigger] text::split(header, ',')[i],
            ) == etag || text::trimmed(text::split(header, ',')[i]) == "*"@),
        if_none_match is None ==> (if_modified_since matches Some(header) && (http_date(
            header,
        ) matches Some(since) && modified.total() < (since + 1) * 1_000_000_000)),
{
}

/// A thought is taken in exactly where its sender may write, there is a space to write to,
/// and it says something. It becomes a task named by its words.
pub proof fn law_a_thought_is_taken_in(authorized: bool, writable: bool, capture: Option<Capture>)
    ensures
        (refusal(authorized, writable, capture) is None) <==> (authorized && writable && (
        capture matches Some(capture) && text::trimmed(capture.text@).len() > 0)),
        !authorized ==> (refusal(authorized, writable, capture) matches Some(answer)
            && answer.status == 401),
        authorized ==> (refusal(authorized, writable, capture) matches Some(answer)
            ==> answer.status == 404 || answer.status == 422),
{
}

/// A thought that the feed does not hold becomes a task under its UID: it has the words as
/// its name and the tags that were sent, is open, has no deadline and belongs to nobody, and
/// is planned for what was sent. A date that cannot be read is refused, and nothing is
/// written.
pub proof fn law_a_thought_becomes_a_task(
    uid: Text,
    name: Text,
    capture: Capture,
    outcome: Outcome,
    zone: Text,
)
    requires
        object_under(outcome, uid) is None,
    ensures
        match capture_step(uid, name, capture, outcome, zone) {
            CaptureView::Written(_) => false,
            CaptureView::Refused(answer) => answer.status == 422 && (filled(
                capture.due,
            ) matches Some(due) && capture::captured_date(due, zone) is None),
            CaptureView::Create(under, patch) => {
                &&& under == uid && patch.name == Some(name) && patch.done == Some(false)
                &&& patch.deadline is None && patch.assignees is None
                &&& (match patch.tags {
                    Some(tags) => tags,
                    None => Seq::empty(),
                }) == text::texts(capture.tags@)
                &&& match filled(capture.due) {
                    None => patch.scheduled == Some(None::<Text>),
                    Some(due) => patch.scheduled == Some(capture::captured_date(due, zone))
                        && capture::captured_date(due, zone) is Some,
                }
            },
        },
{
    let tags = text::texts(capture.tags@);
    assert(tags.len() == 0 ==> tags == Seq::<Text>::empty());
}

/// A deployment serves what it was set up for, and each at one path of its own: the feed and
/// the health check always, the calendars where there are credentials for them, and a
/// captured thought where it can also be written. Push stands under the prefix of the feed,
/// and in the open only where credentials are asked for.
pub proof fn law_what_a_deployment_serves(
    feed_path: Text,
    push: bool,
    dav: bool,
    writer: bool,
    path: Text,
)
    ensures
        ({
            let served = routed(feed_path, push, dav, writer);
            &&& served.contains((feed_path, Endpoint::Feed))
            &&& served.contains(("/healthz"@, Endpoint::Health))
            &&& dav <==> served.contains(("/dav/"@, Endpoint::Dav))
            &&& push <==> served.contains(
                (prefix_of(feed_path) + "/push/subscribe"@, Endpoint::PushSubscribe),
            )
            &&& push && dav <==> served.contains(("/push/subscribe"@, Endpoint::SignedSubscribe))
            &&& writer && dav <==> served.contains(("/capture"@, Endpoint::Capture))
            &&& served.contains((path, Endpoint::Feed)) ==> path == feed_path
            &&& served.contains((path, Endpoint::PushSubscribe)) ==> path == prefix_of(feed_path)
                + "/push/subscribe"@
            &&& served.contains((path, Endpoint::PushTest)) ==> path == prefix_of(feed_path)
                + "/push/test"@
        }),
{
    let served = routed(feed_path, push, dav, writer);
    assert(served[0] == (feed_path, Endpoint::Feed));
    assert(served[1] == ("/healthz"@, Endpoint::Health));
    let own: int = if push {
        3
    } else {
        0
    };
    let open: int = if push && dav {
        3
    } else {
        0
    };
    let voice: int = if writer && dav {
        1
    } else {
        0
    };
    if push {
        assert(served[3] == (prefix_of(feed_path) + "/push/subscribe"@, Endpoint::PushSubscribe));
    }
    if push && dav {
        assert(served[2 + own + 1] == ("/push/subscribe"@, Endpoint::SignedSubscribe));
    }
    if writer && dav {
        assert(served[2 + own + open] == ("/capture"@, Endpoint::Capture));
    }
    if dav {
        assert(served[2 + own + open + voice + 1] == ("/dav/"@, Endpoint::Dav));
    }
}

} // verus!
