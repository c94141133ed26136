//! `calino-settings/`: the client's own documents, kept outside the space.
use vstd::prelude::*;
use vstd::utf8::encode_utf8;

use super::paths;
use super::xml;
use super::xml::{Answer, AnswerView};
use super::{Request, SETTINGS};
use crate::feed;
use crate::text;
use crate::text::Text;

verus! {

/// A settings document is a few kilobytes; this only stops a runaway client.
pub const MAX_DOCUMENT_BYTES: usize = 524_288;

/// Documents by their names.
pub open spec fn documents_view(v: Seq<(String, String)>) -> Seq<(Text, Text)> {
    Seq::new(v.len(), |i: int| (v[i].0@, v[i].1@))
}

pub open spec fn stored_view(v: Option<Vec<(String, String)>>) -> Option<Seq<(Text, Text)>> {
    match v {
        Some(v) => Some(documents_view(v@)),
        None => None,
    }
}

/// Documents as `name:body`.
pub open spec fn spelled(documents: Seq<(Text, Text)>) -> Seq<Text> {
    Seq::new(documents.len(), |i: int| documents[i].0 + ":"@ + documents[i].1)
}

/// The tag of the documents; `None` are documents that could not be read.
pub open spec fn documents_tag(documents: Option<Seq<(Text, Text)>>) -> Text {
    match documents {
        Some(documents) => feed::tag_of(text::join(spelled(documents), ","@)),
        None => "\"unknown\""@,
    }
}

/// The properties of the collection, with the marker the calendar app looks for;
/// without it the client makes a calendar of its own, which is not allowed.
pub open spec fn settings_properties(documents: Option<Seq<(Text, Text)>>) -> Seq<Text> {
    xml::collection_properties(
        seq!["VEVENT"@],
        "Calino Settings"@,
        documents_tag(documents),
        true,
    ).push(
        "<C:X-CALINO-SETTINGS-CALENDAR xmlns:C=\"http://calino.app/ns/\">1</C:X-CALINO-SETTINGS-CALENDAR>"@,
    )
}

fn spell(documents: &Vec<(String, String)>) -> (r: Vec<String>)
    ensures
        text::texts(r@) == spelled(documents_view(documents@)),
{
    let mut r: Vec<String> = Vec::new();
    let mut i: usize = 0;
    while i < documents.len()
        invariant
            i <= documents@.len(),
            r@.len() == i,
            forall|k: int|
                0 <= k < i ==> (#[trigger] r@[k])@ == documents@[k].0@ + ":"@ + documents@[k].1@,
        decreases documents@.len() - i,
    {
        let mut one = documents[i].0.clone();
        one.append(":");
        one.append(documents[i].1.as_str());
        r.push(one);
        i += 1;
    }
    assert(text::texts(r@) == spelled(documents_view(documents@)));
    r
}

/// `None` are documents that could not be read.
pub fn settings_collection_props(documents: &Option<Vec<(String, String)>>) -> (r: Vec<String>)
    ensures
        text::texts(r@) == settings_properties(stored_view(*documents)),
{
    let ctag = match documents {
        Some(documents) => feed::etag_for(text::join_all(&spell(documents), ",").as_str()),
        None => "\"unknown\"".to_owned(),
    };
    let mut components: Vec<String> = Vec::new();
    components.push("VEVENT".to_owned());
    assert(text::texts(components@) == seq!["VEVENT"@]);
    let mut props = xml::collection_props(&components, "Calino Settings", ctag.as_str(), true);
    let ghost before = props@;
    let marker = "<C:X-CALINO-SETTINGS-CALENDAR xmlns:C=\"http://calino.app/ns/\">1</C:X-CALINO-SETTINGS-CALENDAR>".to_owned();
    props.push(marker);
    assert(text::texts(props@) == text::texts(before).push(marker@));
    props
}

/// The path of a document.
pub open spec fn document_href(name: Text) -> Text {
    SETTINGS@ + name + ".ics"@
}

fn href_of(name: &str) -> (r: String)
    ensures
        r@ == document_href(name@),
{
    let mut r = SETTINGS.to_owned();
    r.append(name);
    r.append(".ics");
    r
}

/// The tag of a document as a property.
pub open spec fn tag_property(body: Text) -> Seq<Text> {
    seq![xml::text_prop("d:getetag"@, feed::tag_of(body))]
}

fn tag_props(body: &str) -> (r: Vec<String>)
    ensures
        text::texts(r@) == tag_property(body@),
{
    let mut r: Vec<String> = Vec::new();
    r.push(xml::prop_text("d:getetag", feed::etag_for(body).as_str()));
    assert(text::texts(r@) == tag_property(body@));
    r
}

/// What is said of each document: its tag, or its tag and its text.
pub open spec fn document_responses(documents: Seq<(Text, Text)>, data: bool) -> Seq<Text> {
    Seq::new(
        documents.len(),
        |i: int|
            xml::response_of(
                document_href(documents[i].0),
                if data {
                    xml::data_properties(feed::tag_of(documents[i].1), documents[i].1)
                } else {
                    tag_property(documents[i].1)
                },
            ),
    )
}

fn put_documents(responses: &mut Vec<String>, documents: &Vec<(String, String)>, data: bool)
    ensures
        text::texts(final(responses)@) == text::texts(old(responses)@) + document_responses(
            documents_view(documents@),
            data,
        ),
{
    let ghost start = text::texts(responses@);
    let ghost all = document_responses(documents_view(documents@), data);
    let mut i: usize = 0;
    assert(start + all.take(0) == start);
    while i < documents.len()
        invariant
            i <= documents@.len(),
            all == document_responses(documents_view(documents@), data),
            text::texts(responses@) == start + all.take(i as int),
        decreases documents@.len() - i,
    {
        let body = documents[i].1.as_str();
        let props = if data {
            xml::data_props(feed::etag_for(body).as_str(), body)
        } else {
            tag_props(body)
        };
        let one = xml::response(href_of(documents[i].0.as_str()).as_str(), &props);
        let ghost before = responses@;
        assert(one@ == all[i as int]);
        responses.push(one);
        assert(text::texts(responses@) == text::texts(before).push(one@));
        i += 1;
        assert(all.take(i as int) == all.take(i - 1).push(all[i - 1]));
    }
    assert(all.take(all.len() as int) == all);
}

/// What a request to the documents leads to.
pub enum Step {
    Answered(Answer),
    /// The body is stored under this name and then answered with this; with status 500
    /// where it could not be stored.
    Put { name: String, answer: Answer },
    /// The document under this name is deleted and then answered by `deleted`.
    Delete { name: String },
}

#[verifier::ext_equal]
pub enum StepView {
    Answered(AnswerView),
    Put { name: Text, answer: AnswerView },
    Delete { name: Text },
}

impl View for Step {
    type V = StepView;

    open spec fn view(&self) -> StepView {
        match self {
            Step::Answered(answer) => StepView::Answered(answer@),
            Step::Put { name, answer } => StepView::Put { name: name@, answer: answer@ },
            Step::Delete { name } => StepView::Delete { name: name@ },
        }
    }
}

/// What a PUT of a document leads to.
pub open spec fn put_step(name: Text, current: Option<Text>, request: Request) -> StepView {
    let expected = super::expected_tag(text::text_of(request.if_match));
    if encode_utf8(request.body@).len() > MAX_DOCUMENT_BYTES {
        StepView::Answered(xml::bare(413))
    } else if super::wants_none(text::text_of(request.if_none_match)) && current is Some {
        StepView::Answered(super::failed_condition("resource exists"@))
    } else if expected is Some && (current is None || feed::tag_of(current->0) != expected->0) {
        StepView::Answered(super::failed_condition("etag mismatch"@))
    } else {
        StepView::Put {
            name,
            answer: xml::headed(
                if current is Some {
                    204
                } else {
                    201
                },
                "etag"@,
                feed::tag_of(request.body@),
                Seq::empty(),
            ),
        }
    }
}

/// What a request to the documents leads to. `documents` are those of the reader and
/// `current` the one that is addressed; the path a client sees is the same for
/// everyone.
pub open spec fn settings_step(
    request: Request,
    documents: Option<Seq<(Text, Text)>>,
    current: Option<Text>,
) -> StepView {
    let method = request.method@;
    let path = request.path@;
    let name = paths::name_in(path, SETTINGS@);
    let listed = match documents {
        Some(documents) => documents,
        None => Seq::empty(),
    };
    if method == "PROPFIND"@ && path == SETTINGS@ {
        StepView::Answered(
            xml::multistatus_answer(
                seq![xml::response_of(SETTINGS@, settings_properties(documents))] + (
                if request.depth@ == "1"@ {
                    document_responses(listed, false)
                } else {
                    Seq::empty()
                }),
            ),
        )
    } else if method == "REPORT"@ && path == SETTINGS@ {
        StepView::Answered(xml::multistatus_answer(document_responses(listed, true)))
    } else if method == "PROPPATCH"@ && path == SETTINGS@ {
        StepView::Answered(
            xml::multistatus_answer(seq![xml::response_of(SETTINGS@, Seq::empty())]),
        )
    } else if name is Some && (method == "GET"@ || method == "HEAD"@ || method == "PROPFIND"@) {
        match current {
            None => StepView::Answered(xml::bare(404)),
            Some(body) => if method == "PROPFIND"@ {
                StepView::Answered(
                    xml::multistatus_answer(
                        seq![xml::response_of(document_href(name->0), tag_property(body))],
                    ),
                )
            } else {
                StepView::Answered(
                    xml::resource_answer(
                        feed::tag_of(body),
                        if method == "HEAD"@ {
                            Seq::empty()
                        } else {
                            body
                        },
                    ),
                )
            },
        }
    } else if name is Some && method == "PUT"@ {
        put_step(name->0, current, request)
    } else if name is Some && method == "DELETE"@ {
        StepView::Delete { name: name->0 }
    } else {
        StepView::Answered(xml::bare(404))
    }
}

/// The name of the document that a path addresses.
pub fn document_name<'a>(path: &'a str) -> (r: Option<&'a str>)
    ensures
        (match r {
            Some(name) => Some(name@),
            None => None,
        }) == paths::name_in(path@, SETTINGS@),
{
    paths::resource_name_in(path, SETTINGS)
}

fn decide_put(name: &str, current: &Option<String>, request: &Request) -> (r: Step)
    ensures
        r@ == put_step(name@, text::text_of(*current), *request),
{
    let body = request.body.as_str();
    if body.as_bytes().len() > MAX_DOCUMENT_BYTES {
        return Step::Answered(xml::status(413));
    }
    if super::if_none_match_any(&request.if_none_match) && current.is_some() {
        return Step::Answered(super::precondition_failed("resource exists"));
    }
    if let Some(expected) = super::if_match(&request.if_match) {
        let same = match current {
            Some(current) => text::same(
                feed::etag_for(current.as_str()).as_str(),
                expected.as_str(),
            ),
            None => false,
        };
        if !same {
            return Step::Answered(super::precondition_failed("etag mismatch"));
        }
    }
    let code: u16 = if current.is_some() {
        204
    } else {
        201
    };
    proof {
        reveal_strlit("");
        assert(""@ == Seq::<char>::empty());
    }
    let answer = xml::with_header(code, "etag", feed::etag_for(body).as_str(), "");
    Step::Put { name: name.to_owned(), answer }
}

/// Decides on a request to the documents.
pub fn settings_route(
    request: &Request,
    documents: &Option<Vec<(String, String)>>,
    current: &Option<String>,
) -> (r: Step)
    ensures
        r@ == settings_step(*request, stored_view(*documents), text::text_of(*current)),
{
    let method = request.method.as_str();
    let path = request.path.as_str();
    let collection = text::same(path, SETTINGS);
    let propfind = text::same(method, "PROPFIND");
    if propfind && collection {
        let mut responses: Vec<String> = Vec::new();
        responses.push(xml::response(SETTINGS, &settings_collection_props(documents)));
        let ghost head = seq![
            xml::response_of(SETTINGS@, settings_properties(stored_view(*documents))),
        ];
        assert(text::texts(responses@) == head);
        if text::same(request.depth.as_str(), "1") {
            if let Some(documents) = documents {
                put_documents(&mut responses, documents, false);
            } else {
                assert(head + document_responses(Seq::empty(), false) == head);
            }
        } else {
            assert(head + Seq::<Text>::empty() == head);
        }
        return Step::Answered(xml::multistatus(&responses));
    }
    // A client filters by UID; every document of this collection is its own, so the
    // filter needs no reading.
    if collection && text::same(method, "REPORT") {
        let mut responses: Vec<String> = Vec::new();
        assert(text::texts(responses@) == Seq::<Text>::empty());
        if let Some(documents) = documents {
            put_documents(&mut responses, documents, true);
            assert(Seq::<Text>::empty() + document_responses(documents_view(documents@), true)
                == document_responses(documents_view(documents@), true));
        } else {
            assert(document_responses(Seq::empty(), true) == Seq::<Text>::empty());
        }
        return Step::Answered(xml::multistatus(&responses));
    }
    // The collection is already marked; a client setting properties on it is told the
    // write went nowhere rather than that it failed.
    if collection && text::same(method, "PROPPATCH") {
        let props: Vec<String> = Vec::new();
        assert(text::texts(props@) == Seq::<Text>::empty());
        return Step::Answered(xml::single(SETTINGS, &props));
    }
    let name = match document_name(path) {
        Some(name) => name,
        None => {
            return Step::Answered(xml::status(404));
        },
    };
    let head = text::same(method, "HEAD");
    if propfind || head || text::same(method, "GET") {
        return match current {
            None => Step::Answered(xml::status(404)),
            Some(body) => if propfind {
                Step::Answered(xml::single(href_of(name).as_str(), &tag_props(body.as_str())))
            } else {
                Step::Answered(
                    xml::resource(feed::etag_for(body.as_str()).as_str(), body.as_str(), head),
                )
            },
        };
    }
    if text::same(method, "PUT") {
        return decide_put(name, current, request);
    }
    if text::same(method, "DELETE") {
        return Step::Delete { name: name.to_owned() };
    }
    Step::Answered(xml::status(404))
}

/// What a DELETE of a document is answered: whether it was there, or that it could not
/// be deleted.
pub fn deleted(was_there: Option<bool>) -> (r: Answer)
    ensures
        r@ == (match was_there {
            Some(true) => xml::bare(204),
            Some(false) => xml::bare(404),
            None => xml::bare(500),
        }),
{
    match was_there {
        Some(true) => xml::status(204),
        Some(false) => xml::status(404),
        None => xml::status(500),
    }
}

/// What a write to a document is answered with can be asked for: the tag of a stored
/// body satisfies an `If-Match` of the next write.
pub proof fn law_a_written_tag_is_accepted(name: Text, body: Text, request: Request, tag: Text)
    requires
        encode_utf8(request.body@).len() <= MAX_DOCUMENT_BYTES,
        text::text_of(request.if_match) == Some(tag),
        text::trimmed(tag) == feed::tag_of(body),
        request.if_none_match is None,
    ensures
        put_step(name, Some(body), request) is Put,
{
    reveal_strlit("\"");
    reveal_strlit("*");
    assert(feed::tag_of(body)[0] == '"');
}

/// A document is read back as it was stored, under the tag that its write was answered
/// with.
pub proof fn law_a_document_is_read_back_as_stored(
    put: Request,
    get: Request,
    before: Option<Seq<(Text, Text)>>,
    current: Option<Text>,
    after: Option<Seq<(Text, Text)>>,
)
    requires
        settings_step(put, before, current) is Put,
        get.method@ == "GET"@,
        get.path@ == put.path@,
    ensures
        settings_step(put, before, current)->answer.headers == seq![
            ("etag"@, feed::tag_of(put.body@)),
        ],
        settings_step(get, after, Some(put.body@)) == StepView::Answered(
            xml::resource_answer(feed::tag_of(put.body@), put.body@),
        ),
{
    reveal_strlit("GET");
    reveal_strlit("PROPFIND");
    reveal_strlit("REPORT");
    reveal_strlit("PROPPATCH");
    reveal_strlit("HEAD");
    assert(get.method@.len() == 3);
    assert("HEAD"@.len() == 4 && "REPORT"@.len() == 6);
    assert("PROPFIND"@.len() == 8 && "PROPPATCH"@.len() == 9);
}

} // verus!
