//! WebDAV responses: multistatus, properties, escaping and REPORT kinds.
use vstd::prelude::*;

use crate::text;
use crate::text::Text;

verus! {

/// What a request is answered: the status, the headers in lower case and the
/// body.
pub struct Answer {
    pub status: u16,
    pub headers: Vec<(String, String)>,
    pub body: String,
}

#[verifier::ext_equal]
pub struct AnswerView {
    pub status: int,
    pub headers: Seq<(Text, Text)>,
    pub body: Text,
}

impl View for Answer {
    type V = AnswerView;

    open spec fn view(&self) -> AnswerView {
        AnswerView {
            status: self.status as int,
            headers: Seq::new(
                self.headers@.len(),
                |i: int| (self.headers@[i].0@, self.headers@[i].1@),
            ),
            body: self.body@,
        }
    }
}

/// An answer without headers.
pub open spec fn plain_answer(status: int, body: Text) -> AnswerView {
    AnswerView { status, headers: Seq::empty(), body }
}

/// An answer without headers and without a body.
pub open spec fn bare(status: int) -> AnswerView {
    plain_answer(status, Seq::empty())
}

/// An answer with one header.
pub open spec fn headed(status: int, name: Text, value: Text, body: Text) -> AnswerView {
    AnswerView { status, headers: seq![(name, value)], body }
}

pub fn with_body(code: u16, body: &str) -> (r: Answer)
    ensures
        r@ == plain_answer(code as int, body@),
{
    let r = Answer { status: code, headers: Vec::new(), body: body.to_owned() };
    assert(r@ == plain_answer(code as int, body@));
    r
}

/// An answer that is a status and nothing else.
pub fn status(code: u16) -> (r: Answer)
    ensures
        r@ == bare(code as int),
{
    let r = Answer { status: code, headers: Vec::new(), body: String::new() };
    assert(r@ == bare(code as int));
    r
}

pub fn with_header(code: u16, name: &str, value: &str, body: &str) -> (r: Answer)
    ensures
        r@ == headed(code as int, name@, value@, body@),
{
    let mut headers: Vec<(String, String)> = Vec::new();
    headers.push((name.to_owned(), value.to_owned()));
    let r = Answer { status: code, headers, body: body.to_owned() };
    assert(r@ == headed(code as int, name@, value@, body@));
    r
}

/// A calendar resource: its text, with its tag.
pub open spec fn resource_answer(etag: Text, body: Text) -> AnswerView {
    AnswerView {
        status: 200,
        headers: seq![
            ("content-type"@, "text/calendar; charset=utf-8"@),
            ("etag"@, etag),
        ],
        body,
    }
}

/// The text of a calendar resource; HEAD is answered without it.
pub fn resource(etag: &str, body: &str, head: bool) -> (r: Answer)
    ensures
        r@ == resource_answer(etag@, if head {
            Seq::empty()
        } else {
            body@
        }),
{
    let mut headers: Vec<(String, String)> = Vec::new();
    headers.push(("content-type".to_owned(), "text/calendar; charset=utf-8".to_owned()));
    headers.push(("etag".to_owned(), etag.to_owned()));
    let body = if head {
        String::new()
    } else {
        body.to_owned()
    };
    let r = Answer { status: 200, headers, body };
    assert(r@.headers == resource_answer(etag@, r@.body).headers);
    r
}

#[derive(Debug, Clone, Copy, PartialEq, Eq, Structural)]
pub enum Report {
    Tasks,
    TasksOnly,
    EventsOnly,
    SyncCollection,
}

/// What a REPORT body asks for, told by its text.
pub open spec fn asked(body: Text) -> Report {
    let events = text::contains(body, "\"VEVENT\""@) || text::contains(body, "'VEVENT'"@);
    let tasks = text::contains(body, "\"VTODO\""@) || text::contains(body, "'VTODO'"@);
    if text::contains(body, "sync-collection"@) {
        Report::SyncCollection
    } else if events && !tasks {
        Report::EventsOnly
    } else if tasks && !events {
        Report::TasksOnly
    } else {
        Report::Tasks
    }
}

/// Classifies a REPORT body by its text. Prefixes are free in XML, so only
/// local names and attribute values are looked at.
pub fn report_kind(body: &str) -> (r: Report)
    ensures
        r == asked(body@),
{
    if text::has(body, "sync-collection") {
        return Report::SyncCollection;
    }
    let asks_events = text::has(body, "\"VEVENT\"") || text::has(body, "'VEVENT'");
    let asks_tasks = text::has(body, "\"VTODO\"") || text::has(body, "'VTODO'");
    if asks_events && !asks_tasks {
        Report::EventsOnly
    } else if asks_tasks && !asks_events {
        Report::TasksOnly
    } else {
        Report::Tasks
    }
}

/// A character as XML text.
pub open spec fn entity(c: char) -> Text {
    if c == '&' {
        "&amp;"@
    } else if c == '<' {
        "&lt;"@
    } else if c == '>' {
        "&gt;"@
    } else if c == '"' {
        "&quot;"@
    } else if c == '\'' {
        "&apos;"@
    } else {
        seq![c]
    }
}

/// A text as XML text.
pub open spec fn escaped(s: Text) -> Text
    decreases s.len(),
{
    if s.len() == 0 {
        Seq::empty()
    } else {
        escaped(s.drop_last()) + entity(s.last())
    }
}

/// XML text escaping. `calendar-data` must be escaped, not raw: a SUMMARY with
/// `&` or `<` would otherwise break the document for the whole listing.
pub fn escape(value: &str) -> (out: String)
    ensures
        out@ == escaped(value@),
{
    let v = text::chars_of(value);
    let mut out: String = String::new();
    let mut i: usize = 0;
    while i < v.len()
        invariant
            i <= v@.len(),
            out@ == escaped(v@.take(i as int)),
        decreases v@.len() - i,
    {
        let c = v[i];
        assert(v@.take(i + 1).drop_last() == v@.take(i as int));
        let ghost before = out@;
        if c == '&' {
            out.append("&amp;");
        } else if c == '<' {
            out.append("&lt;");
        } else if c == '>' {
            out.append("&gt;");
        } else if c == '"' {
            out.append("&quot;");
        } else if c == '\'' {
            out.append("&apos;");
        } else {
            out.push(c);
            assert(out@ == before + seq![c]);
        }
        i += 1;
    }
    assert(v@.take(v@.len() as int) == v@);
    out
}

/// `<name>value</name>`, the value escaped.
pub open spec fn text_prop(name: Text, value: Text) -> Text {
    "<"@ + name + ">"@ + escaped(value) + "</"@ + name + ">"@
}

pub fn prop_text(name: &str, value: &str) -> (r: String)
    ensures
        r@ == text_prop(name@, value@),
{
    let mut r = "<".to_owned();
    r.append(name);
    r.append(">");
    r.append(escape(value).as_str());
    r.append("</");
    r.append(name);
    r.append(">");
    r
}

/// `<name><d:href>href</d:href></name>`, the path escaped.
pub open spec fn href_prop(name: Text, href: Text) -> Text {
    "<"@ + name + "><d:href>"@ + escaped(href) + "</d:href></"@ + name + ">"@
}

pub fn prop_href(name: &str, href: &str) -> (r: String)
    ensures
        r@ == href_prop(name@, href@),
{
    let mut r = "<".to_owned();
    r.append(name);
    r.append("><d:href>");
    r.append(escape(href).as_str());
    r.append("</d:href></");
    r.append(name);
    r.append(">");
    r
}

/// What a multistatus says of one path.
pub open spec fn response_of(href: Text, props: Seq<Text>) -> Text {
    "<d:response><d:href>"@ + escaped(href) + "</d:href><d:propstat><d:prop>"@ + text::concat(props)
        + "</d:prop><d:status>HTTP/1.1 200 OK</d:status></d:propstat></d:response>"@
}

pub fn response(href: &str, props: &Vec<String>) -> (r: String)
    ensures
        r@ == response_of(href@, text::texts(props@)),
{
    let mut r = "<d:response><d:href>".to_owned();
    r.append(escape(href).as_str());
    r.append("</d:href><d:propstat><d:prop>");
    r.append(text::concat_all(props).as_str());
    r.append("</d:prop><d:status>HTTP/1.1 200 OK</d:status></d:propstat></d:response>");
    r
}

/// The properties that a listing gives of a task or an event.
pub open spec fn member_properties(etag: Text) -> Seq<Text> {
    seq![
        text_prop("d:getetag"@, etag),
        text_prop("d:getcontenttype"@, "text/calendar"@),
    ]
}

/// What a PROPFIND tells of a task or an event. A client may fetch only the
/// members listed as `text/calendar`.
pub fn member_props(etag: &str) -> (r: Vec<String>)
    ensures
        text::texts(r@) == member_properties(etag@),
{
    let mut r: Vec<String> = Vec::new();
    r.push(prop_text("d:getetag", etag));
    r.push(prop_text("d:getcontenttype", "text/calendar"));
    assert(text::texts(r@) == member_properties(etag@));
    r
}

/// The properties that a REPORT gives of a member: its tag and its text.
pub open spec fn data_properties(etag: Text, data: Text) -> Seq<Text> {
    member_properties(etag).push(text_prop("c:calendar-data"@, data))
}

pub fn data_props(etag: &str, data: &str) -> (r: Vec<String>)
    ensures
        text::texts(r@) == data_properties(etag@, data@),
{
    let mut r = member_props(etag);
    let ghost before = r@;
    r.push(prop_text("c:calendar-data", data));
    assert(text::texts(r@) == text::texts(before).push(text_prop("c:calendar-data"@, data@)));
    r
}

/// The components that a collection declares.
pub open spec fn declared(components: Seq<Text>) -> Text
    decreases components.len(),
{
    if components.len() == 0 {
        Seq::empty()
    } else {
        declared(components.drop_last()) + ("<c:comp name=\""@ + components.last() + "\"/>"@)
    }
}

/// What a client may do in a collection.
pub open spec fn privileges(writable: bool) -> Text {
    if writable {
        "<d:current-user-privilege-set><d:privilege><d:read/></d:privilege><d:privilege><d:write/></d:privilege><d:privilege><d:write-content/></d:privilege><d:privilege><d:bind/></d:privilege><d:privilege><d:unbind/></d:privilege></d:current-user-privilege-set>"@
    } else {
        "<d:current-user-privilege-set><d:privilege><d:read/></d:privilege></d:current-user-privilege-set>"@
    }
}

/// The properties of a collection.
pub open spec fn collection_properties(
    components: Seq<Text>,
    name: Text,
    ctag: Text,
    writable: bool,
) -> Seq<Text> {
    seq![
        "<d:resourcetype><d:collection/><c:calendar/></d:resourcetype>"@,
        text_prop("d:displayname"@, name),
        "<c:supported-calendar-component-set>"@ + declared(components)
            + "</c:supported-calendar-component-set>"@,
        text_prop("cs:getctag"@, ctag),
        privileges(writable),
    ]
}

/// The tag changes whenever any member changes, so a client can skip an
/// unchanged collection without listing it.
pub fn collection_props(components: &Vec<String>, name: &str, ctag: &str, writable: bool) -> (r: Vec<
    String,
>)
    ensures
        text::texts(r@) == collection_properties(text::texts(components@), name@, ctag@, writable),
{
    let mut set: String = String::new();
    let mut i: usize = 0;
    while i < components.len()
        invariant
            i <= components@.len(),
            set@ == declared(text::texts(components@).take(i as int)),
        decreases components@.len() - i,
    {
        assert(text::texts(components@).take(i + 1).drop_last() == text::texts(components@).take(
            i as int,
        ));
        let mut one = "<c:comp name=\"".to_owned();
        one.append(components[i].as_str());
        one.append("\"/>");
        set.append(one.as_str());
        i += 1;
    }
    assert(text::texts(components@).take(components@.len() as int) == text::texts(components@));
    let mut supported = "<c:supported-calendar-component-set>".to_owned();
    supported.append(set.as_str());
    supported.append("</c:supported-calendar-component-set>");
    let mut r: Vec<String> = Vec::new();
    r.push("<d:resourcetype><d:collection/><c:calendar/></d:resourcetype>".to_owned());
    r.push(prop_text("d:displayname", name));
    r.push(supported);
    r.push(prop_text("cs:getctag", ctag));
    r.push(
        if writable {
            "<d:current-user-privilege-set><d:privilege><d:read/></d:privilege><d:privilege><d:write/></d:privilege><d:privilege><d:write-content/></d:privilege><d:privilege><d:bind/></d:privilege><d:privilege><d:unbind/></d:privilege></d:current-user-privilege-set>".to_owned()
        } else {
            "<d:current-user-privilege-set><d:privilege><d:read/></d:privilege></d:current-user-privilege-set>".to_owned()
        },
    );
    assert(text::texts(r@) == collection_properties(
        text::texts(components@),
        name@,
        ctag@,
        writable,
    ));
    r
}

/// The body of a multistatus.
pub open spec fn multistatus_body(responses: Seq<Text>) -> Text {
    "<?xml version=\"1.0\" encoding=\"utf-8\"?>\n<d:multistatus xmlns:d=\"DAV:\" xmlns:c=\"urn:ietf:params:xml:ns:caldav\" xmlns:cs=\"http://calendarserver.org/ns/\" xmlns:a=\"http://apple.com/ns/ical/\">"@
        + text::concat(responses) + "</d:multistatus>"@
}

pub open spec fn multistatus_answer(responses: Seq<Text>) -> AnswerView {
    headed(
        207,
        "content-type"@,
        "application/xml; charset=utf-8"@,
        multistatus_body(responses),
    )
}

pub fn multistatus(responses: &Vec<String>) -> (r: Answer)
    ensures
        r@ == multistatus_answer(text::texts(responses@)),
{
    let mut body = "<?xml version=\"1.0\" encoding=\"utf-8\"?>\n<d:multistatus xmlns:d=\"DAV:\" xmlns:c=\"urn:ietf:params:xml:ns:caldav\" xmlns:cs=\"http://calendarserver.org/ns/\" xmlns:a=\"http://apple.com/ns/ical/\">".to_owned();
    body.append(text::concat_all(responses).as_str());
    body.append("</d:multistatus>");
    with_header(207, "content-type", "application/xml; charset=utf-8", body.as_str())
}

/// A multistatus on one path.
pub fn single(href: &str, props: &Vec<String>) -> (r: Answer)
    ensures
        r@ == multistatus_answer(seq![response_of(href@, text::texts(props@))]),
{
    let mut responses: Vec<String> = Vec::new();
    responses.push(response(href, props));
    assert(text::texts(responses@) == seq![response_of(href@, text::texts(props@))]);
    multistatus(&responses)
}

/// What OPTIONS is answered, whoever asks.
pub open spec fn options_answer() -> AnswerView {
    AnswerView {
        status: 200,
        headers: seq![
            ("allow"@, "OPTIONS, GET, HEAD, PROPFIND, REPORT, PUT, DELETE"@),
            ("dav"@, "1, 3, calendar-access"@),
        ],
        body: Seq::empty(),
    }
}

pub fn options() -> (r: Answer)
    ensures
        r@ == options_answer(),
{
    let mut headers: Vec<(String, String)> = Vec::new();
    headers.push(
        ("allow".to_owned(), "OPTIONS, GET, HEAD, PROPFIND, REPORT, PUT, DELETE".to_owned()),
    );
    headers.push(("dav".to_owned(), "1, 3, calendar-access".to_owned()));
    let r = Answer { status: 200, headers, body: String::new() };
    assert(r@.headers == options_answer().headers);
    assert(r@.body == options_answer().body);
    r
}

/// Every `from` in `s` replaced by `to`, from the left.
pub open spec fn replaced(s: Text, from: Text, to: Text) -> Text
    decreases s.len(),
{
    if s.len() == 0 {
        Seq::empty()
    } else if from.len() > 0 && text::starts_with(s, from) {
        to + replaced(s.skip(from.len() as int), from, to)
    } else {
        seq![s[0]] + replaced(s.drop_first(), from, to)
    }
}

/// XML text as the text that it stands for.
pub open spec fn unescaped(s: Text) -> Text {
    replaced(
        replaced(
            replaced(
                replaced(replaced(s, "&lt;"@, "<"@), "&gt;"@, ">"@),
                "&quot;"@,
                "\""@,
            ),
            "&apos;"@,
            "'"@,
        ),
        "&amp;"@,
        "&"@,
    )
}

/// `str::replace` for a pattern that is not empty.
fn replace(s: &str, from: &str, to: &str) -> (r: String)
    requires
        from@.len() > 0,
    ensures
        r@ == replaced(s@, from@, to@),
{
    let v = text::chars_of(s);
    let p = text::chars_of(from);
    let mut r: String = String::new();
    let mut i: usize = 0;
    assert(v@.skip(0) == v@);
    while i < v.len()
        invariant
            i <= v@.len(),
            p@ == from@,
            p@.len() > 0,
            r@ + replaced(v@.skip(i as int), from@, to@) == replaced(v@, from@, to@),
        decreases v@.len() - i,
    {
        let ghost rest = v@.skip(i as int);
        let ghost before = r@;
        if stands(&v, &p, i) {
            r.append(to);
            i += p.len();
            assert(rest.skip(from@.len() as int) == v@.skip(i as int));
            assert(before + (to@ + replaced(v@.skip(i as int), from@, to@)) == r@ + replaced(
                v@.skip(i as int),
                from@,
                to@,
            ));
        } else {
            r.push(v[i]);
            i += 1;
            assert(rest.drop_first() == v@.skip(i as int));
            assert(before + (seq![rest[0]] + replaced(v@.skip(i as int), from@, to@)) == r@
                + replaced(v@.skip(i as int), from@, to@));
        }
    }
    assert(r@ + Seq::<char>::empty() == r@);
    r
}

fn stands(v: &Vec<char>, p: &Vec<char>, at: usize) -> (r: bool)
    requires
        at <= v@.len(),
    ensures
        r == text::starts_with(v@.skip(at as int), p@),
        r ==> at + p@.len() <= v@.len(),
{
    if p.len() > v.len() - at {
        return false;
    }
    let mut i: usize = 0;
    while i < p.len()
        invariant
            i <= p@.len(),
            at + p.len() <= v.len(),
            forall|j: int| 0 <= j < i ==> v@[at + j] == p@[j],
        decreases p@.len() - i,
    {
        if v[at + i] != p[i] {
            assert(v@.skip(at as int).subrange(0, p@.len() as int)[i as int] == v@[at + i]);
            return false;
        }
        i += 1;
    }
    assert(v@.skip(at as int).subrange(0, p@.len() as int) == p@);
    true
}

pub fn unescape(value: &str) -> (r: String)
    ensures
        r@ == unescaped(value@),
{
    proof {
        reveal_strlit("&lt;");
        reveal_strlit("&gt;");
        reveal_strlit("&quot;");
        reveal_strlit("&apos;");
        reveal_strlit("&amp;");
    }
    let a = replace(value, "&lt;", "<");
    let b = replace(a.as_str(), "&gt;", ">");
    let c = replace(b.as_str(), "&quot;", "\"");
    let d = replace(c.as_str(), "&apos;", "'");
    replace(d.as_str(), "&amp;", "&")
}

/// The order in which the entities are undone.
spec fn stage(c: char) -> int {
    if c == '<' {
        0
    } else if c == '>' {
        1
    } else if c == '"' {
        2
    } else if c == '\'' {
        3
    } else if c == '&' {
        4
    } else {
        -1
    }
}

spec fn image(c: char, k: int) -> Text {
    if stage(c) >= k && stage(c) >= 0 {
        entity(c)
    } else {
        seq![c]
    }
}

/// `s` with the characters escaped whose entities are undone at `k` or later.
spec fn partly(s: Text, k: int) -> Text
    decreases s.len(),
{
    if s.len() == 0 {
        Seq::empty()
    } else {
        image(s[0], k) + partly(s.drop_first(), k)
    }
}

proof fn lemma_partly_push(s: Text, k: int)
    requires
        s.len() > 0,
    ensures
        partly(s, k) == partly(s.drop_last(), k) + image(s.last(), k),
    decreases s.len(),
{
    if s.len() == 1 {
        assert(s.drop_first() == Seq::<char>::empty());
        assert(s.drop_last() == Seq::<char>::empty());
        assert(partly(Seq::<char>::empty(), k) == Seq::<char>::empty());
        assert(image(s[0], k) + Seq::<char>::empty() == Seq::<char>::empty() + image(s[0], k));
    } else {
        lemma_partly_push(s.drop_first(), k);
        assert(s.drop_first().drop_last() == s.drop_last().drop_first());
        assert(s.drop_last()[0] == s[0]);
        assert(partly(s, k) == partly(s.drop_last(), k) + image(s.last(), k));
    }
}

proof fn lemma_escaped_is_partly(s: Text)
    ensures
        escaped(s) == partly(s, 0),
    decreases s.len(),
{
    if s.len() > 0 {
        lemma_escaped_is_partly(s.drop_last());
        lemma_partly_push(s, 0);
    }
}

proof fn lemma_partly_all(s: Text)
    ensures
        partly(s, 5) == s,
    decreases s.len(),
{
    if s.len() > 0 {
        lemma_partly_all(s.drop_first());
        assert(seq![s[0]] + s.drop_first() == s);
    }
}

proof fn lemma_replaced_skips(u: Text, rest: Text, from: Text, to: Text)
    requires
        from.len() > 0,
        from[0] == '&',
        !u.contains('&'),
    ensures
        replaced(u + rest, from, to) == u + replaced(rest, from, to),
    decreases u.len(),
{
    if u.len() == 0 {
        assert(u + rest == rest);
        assert(u + replaced(rest, from, to) == replaced(rest, from, to));
    } else {
        let s = u + rest;
        assert(s[0] == u[0]);
        assert(u.contains(u[0]));
        if text::starts_with(s, from) {
            assert(s.subrange(0, from.len() as int)[0] == s[0]);
        }
        assert(s.drop_first() == u.drop_first() + rest);
        assert forall|i: int| 0 <= i < u.drop_first().len() implies u.drop_first()[i] != '&' by {
            assert(u.drop_first()[i] == u[i + 1]);
            assert(u.contains(u[i + 1]));
        }
        lemma_replaced_skips(u.drop_first(), rest, from, to);
        assert(seq![s[0]] + (u.drop_first() + replaced(rest, from, to)) == u + replaced(
            rest,
            from,
            to,
        ));
    }
}

proof fn lemma_undo(s: Text, c: char)
    requires
        stage(c) >= 0,
    ensures
        replaced(partly(s, stage(c)), entity(c), seq![c]) == partly(s, stage(c) + 1),
    decreases s.len(),
{
    reveal_strlit("&lt;");
    reveal_strlit("&gt;");
    reveal_strlit("&quot;");
    reveal_strlit("&apos;");
    reveal_strlit("&amp;");
    let k = stage(c);
    if s.len() > 0 {
        lemma_undo(s.drop_first(), c);
        let first = image(s[0], k);
        let rest = partly(s.drop_first(), k);
        let all = first + rest;
        if s[0] == c {
            assert(all.subrange(0, entity(c).len() as int) == entity(c));
            assert(all.skip(entity(c).len() as int) == rest);
            assert(image(s[0], k + 1) == seq![c]);
        } else if stage(s[0]) > k {
            let tail = first.drop_first();
            assert(first == seq!['&'] + tail);
            assert(!tail.contains('&'));
            if text::starts_with(all, entity(c)) {
                let head = all.subrange(0, entity(c).len() as int);
                assert(head[1] == first[1] && head[2] == first[2]);
                assert(head[1] == entity(c)[1] && head[2] == entity(c)[2]);
                assert(false);
            }
            assert(all.drop_first() == tail + rest);
            lemma_replaced_skips(tail, rest, entity(c), seq![c]);
            assert(seq![all[0]] + (tail + replaced(rest, entity(c), seq![c])) == first + replaced(
                rest,
                entity(c),
                seq![c],
            ));
        } else {
            assert(first == seq![s[0]]);
            lemma_replaced_skips(first, rest, entity(c), seq![c]);
        }
    }
}

/// Escaping loses nothing: undoing the entities of an escaped text gives the
/// text back.
pub proof fn law_unescape_undoes_escape(s: Text)
    ensures
        unescaped(escaped(s)) == s,
{
    reveal_strlit("<");
    reveal_strlit(">");
    reveal_strlit("\"");
    reveal_strlit("'");
    reveal_strlit("&");
    assert("<"@ == seq!['<']);
    assert(">"@ == seq!['>']);
    assert("\""@ == seq!['"']);
    assert("'"@ == seq!['\'']);
    assert("&"@ == seq!['&']);
    lemma_escaped_is_partly(s);
    lemma_undo(s, '<');
    lemma_undo(s, '>');
    lemma_undo(s, '"');
    lemma_undo(s, '\'');
    lemma_undo(s, '&');
    lemma_partly_all(s);
}

} // verus!
