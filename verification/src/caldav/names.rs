//! Names a reader gives the calendars, kept per reader.
use vstd::prelude::*;

use super::xml;
use super::xml::{Answer, AnswerView};
use crate::table;
use crate::table::Table;
use crate::text;
use crate::text::Text;

verus! {

/// The name of a calendar among those that a reader gave, or the server's own.
pub open spec fn name_at(given: Seq<(Text, Text)>, path: Text, default: Text) -> Text {
    match table::at(given, path) {
        Some(name) => name,
        None => default,
    }
}

/// The name a reader gave a calendar, or the one the server gives it.
pub fn named(given: &Table<String>, path: &str, default: &str) -> (r: String)
    ensures
        r@ == name_at(table::views(given@), path@, default@),
{
    proof {
        table::lemma_views_at(given@, path@);
    }
    match given.get(path) {
        Some(name) => name.clone(),
        None => default.to_owned(),
    }
}

/// Whether `displayname` stands in a body as the name of an element: behind `<` or a
/// namespace prefix, and before the end of the tag, a space or a slash.
pub open spec fn is_element(before: Text, after: Text) -> bool {
    &&& before.len() > 0
    &&& before.last() == '<' || before.last() == ':'
    &&& after.len() > 0
    &&& after[0] == '>' || after[0] == ' ' || after[0] == '/'
}

/// What an element says behind its name: nothing where it is closed at once.
pub open spec fn element_text(after: Text) -> Option<Text> {
    match text::find(after, ">"@) {
        None => None,
        Some(end) => if end > 0 && after[end - 1] == '/' {
            Some(Seq::empty())
        } else {
            let rest = after.skip(end + 1);
            match text::find(rest, "<"@) {
                None => None,
                Some(n) => Some(xml::unescaped(rest.take(n))),
            }
        },
    }
}

/// The text of the first `displayname` element in a body.
pub open spec fn display_name_in(body: Text) -> Option<Text>
    decreases body.len(),
{
    match text::find(body, "displayname"@) {
        None => None,
        Some(at) => {
            let after = body.skip(at + 11);
            if is_element(body.take(at), after) {
                element_text(after)
            } else if 0 <= at && at + 11 <= body.len() {
                display_name_in(after)
            } else {
                None
            }
        },
    }
}

fn read_element(after: &str) -> (r: Option<String>)
    ensures
        text::text_of(r) == element_text(after@),
{
    proof {
        reveal_strlit(">");
        reveal_strlit("<");
    }
    let len = after.unicode_len();
    let end = match text::find_text(after, ">") {
        Some(end) => end,
        None => {
            return None;
        },
    };
    if end > 0 && after.get_char(end - 1) == '/' {
        let r: String = String::new();
        assert(r@ == Seq::<char>::empty());
        return Some(r);
    }
    let rest = text::part(after, end + 1, len);
    assert(rest@ == after@.skip(end + 1));
    match text::find_text(rest, "<") {
        Some(n) => {
            let inner = text::part(rest, 0, n);
            assert(inner@ == rest@.take(n as int));
            Some(xml::unescape(inner))
        },
        None => None,
    }
}

/// The text of the first `displayname` element in a request body, whatever its
/// namespace prefix; empty for `<displayname/>`.
pub fn display_name(body: &str) -> (r: Option<String>)
    ensures
        text::text_of(r) == display_name_in(body@),
{
    proof {
        reveal_strlit("displayname");
    }
    let mut rest = body;
    loop
        invariant
            "displayname"@.len() == 11,
            display_name_in(body@) == display_name_in(rest@),
        decreases rest@.len(),
    {
        let at = match text::find_text(rest, "displayname") {
            Some(at) => at,
            None => {
                return None;
            },
        };
        let n = rest.unicode_len();
        let after = text::part(rest, at + 11, n);
        assert(after@ == rest@.skip(at + 11));
        let opens = at > 0 && (rest.get_char(at - 1) == '<' || rest.get_char(at - 1) == ':');
        let ends = after.unicode_len() > 0 && (after.get_char(0) == '>' || after.get_char(0) == ' '
            || after.get_char(0) == '/');
        proof {
            if at > 0 {
                assert(rest@.take(at as int).last() == rest@[at - 1]);
            }
            assert((opens && ends) == is_element(rest@.take(at as int), after@));
        }
        if opens && ends {
            return read_element(after);
        }
        rest = after;
    }
}

/// What a PROPPATCH of a calendar asks for.
pub enum Rename {
    /// It is refused.
    Refused(Answer),
    /// The calendar returns to its own name; answered with this.
    Clear(Answer),
    /// The calendar gets this name; answered with this.
    Keep(String, Answer),
}

/// What a stored name is answered.
pub open spec fn renamed_answer(path: Text) -> AnswerView {
    xml::multistatus_answer(
        seq![xml::response_of(path, seq!["<d:displayname/>"@])],
    )
}

fn answer_renamed(path: &str) -> (r: Answer)
    ensures
        r@ == renamed_answer(path@),
{
    let mut props: Vec<String> = Vec::new();
    props.push("<d:displayname/>".to_owned());
    assert(text::texts(props@) == seq!["<d:displayname/>"@]);
    xml::single(path, &props)
}

/// Decides on the name a reader gives a calendar. The calendar app renames with a
/// PROPPATCH of `displayname` alone and reads the name back on every sync, so a name
/// the server does not keep is gone by the next one. An empty name, or a `displayname`
/// under `remove`, returns the calendar to its own name. One that could not be stored
/// is answered with status 500.
pub fn rename(path: &str, body: &str) -> (r: Rename)
    ensures
        match display_name_in(body@) {
            None => r matches Rename::Refused(answer) && answer@ == xml::bare(403),
            Some(name) => if text::trimmed(name).len() == 0 {
                r matches Rename::Clear(answer) && answer@ == renamed_answer(path@)
            } else {
                r matches Rename::Keep(kept, answer) && kept@ == text::trimmed(name) && answer@
                    == renamed_answer(path@)
            },
        },
{
    match display_name(body) {
        None => Rename::Refused(xml::status(403)),
        Some(name) => {
            let name = text::trim(name.as_str());
            if name.is_empty() {
                Rename::Clear(answer_renamed(path))
            } else {
                Rename::Keep(name.to_owned(), answer_renamed(path))
            }
        },
    }
}

proof fn lemma_escaped_is_text(s: Text, i: int)
    requires
        0 <= i < xml::escaped(s).len(),
    ensures
        xml::escaped(s)[i] != '<',
        xml::escaped(s)[i] != '>',
    decreases s.len(),
{
    reveal_strlit("&amp;");
    reveal_strlit("&lt;");
    reveal_strlit("&gt;");
    reveal_strlit("&quot;");
    reveal_strlit("&apos;");
    let front = xml::escaped(s.drop_last());
    if i < front.len() {
        lemma_escaped_is_text(s.drop_last(), i);
    } else {
        assert(xml::escaped(s)[i] == xml::entity(s.last())[i - front.len()]);
    }
}

proof fn lemma_found_at(s: Text, part: Text, at: int)
    requires
        text::first_at(s, part, at),
    ensures
        text::find(s, part) == Some(at),
{
    assert(text::occurs_at(s, part, at));
    let found = choose|found: int| text::first_at(s, part, found);
    assert(text::first_at(s, part, found));
    if found < at {
        assert(!text::occurs_at(s, part, found));
    }
    if at < found {
        assert(!text::occurs_at(s, part, at));
    }
}

/// A reader may give a calendar any name: the first `displayname` element of a body says
/// what was written into it, whatever stands before it or behind it and whatever prefix the
/// element has.
#[verifier::spinoff_prover]
pub proof fn law_a_given_name_is_read(before: Text, name: Text, behind: Text)
    requires
        before.len() > 0,
        before.last() == '<' || before.last() == ':',
        forall|at: int| !text::occurs_at(before + "displayname"@.drop_last(), "displayname"@, at),
    ensures
        display_name_in(before + "displayname>"@ + xml::escaped(name) + "<"@ + behind) == Some(name),
{
    reveal_strlit("displayname");
    reveal_strlit("displayname>");
    reveal_strlit("<");
    reveal_strlit(">");
    let word = "displayname"@;
    let told = xml::escaped(name);
    let body = before + "displayname>"@ + told + "<"@ + behind;
    let at = before.len() as int;
    let open = before + word.drop_last();
    assert(body.subrange(at, at + 11) == word);
    assert forall|j: int| 0 <= j < at implies !text::occurs_at(body, word, j) by {
        if text::occurs_at(body, word, j) {
            assert(open.subrange(j, j + 11) == body.subrange(j, j + 11));
            assert(text::occurs_at(open, word, j));
        }
    }
    lemma_found_at(body, word, at);
    let after = body.skip(at + 11);
    assert(body.take(at) == before);
    assert(after == ">"@ + told + "<"@ + behind);
    assert(after.subrange(0, 1) == ">"@);
    lemma_found_at(after, ">"@, 0);
    let rest = after.skip(1);
    assert(rest == told + "<"@ + behind);
    let n = told.len() as int;
    assert(rest.subrange(n, n + 1) == "<"@);
    assert forall|j: int| 0 <= j < n implies !text::occurs_at(rest, "<"@, j) by {
        lemma_escaped_is_text(name, j);
        if text::occurs_at(rest, "<"@, j) {
            assert(rest.subrange(j, j + 1)[0] == rest[j]);
        }
    }
    lemma_found_at(rest, "<"@, n);
    assert(rest.take(n) == told);
    xml::law_unescape_undoes_escape(name);
}

/// A calendar has the name that its reader gave it; the others keep theirs, and one that is
/// given none, or that is given back, has the server's own.
pub proof fn law_a_calendar_has_the_name_it_was_given(
    given: Seq<(Text, Text)>,
    path: Text,
    name: Text,
    other: Text,
    default: Text,
)
    ensures
        name_at(table::put(given, path, name), path, default) == name,
        name_at(table::without(given, path), path, default) == default,
        name_at(Seq::empty(), path, default) == default,
        other != path ==> name_at(table::put(given, path, name), other, default) == name_at(
            given,
            other,
            default,
        ) && name_at(table::without(given, path), other, default) == name_at(
            given,
            other,
            default,
        ),
{
    table::lemma_at_put(given, path, name, path);
    table::lemma_at_put(given, path, name, other);
    table::lemma_at_without(given, path, path);
    table::lemma_at_without(given, path, other);
}

} // verus!
