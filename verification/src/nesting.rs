//! How deep the components of a calendar document stand in one another.
//!
//! The parser of the `icalendar` crate calls itself for every component that stands in
//! another, so that a document which nests them without end would end the stack. A
//! document is read where few components open in it, or where every line of it is one
//! that surely opens a component, closes one or does neither, and no component stands in
//! too many others.
use vstd::prelude::*;

use crate::text;
use crate::text::Text;

verus! {

/// How many components may stand in one another. A calendar nests three.
pub const DEEPEST: usize = 50;

/// How long the break is that a text starts with, where the line goes on behind it.
pub open spec fn fold_length(s: Text) -> int {
    if s.len() >= 3 && s[0] == '\r' && s[1] == '\n' && (s[2] == ' ' || s[2] == '\t') {
        3
    } else if s.len() >= 2 && s[0] == '\n' && (s[1] == ' ' || s[1] == '\t') {
        2
    } else {
        0
    }
}

/// A document whose long lines are put together again.
pub open spec fn unfolded(s: Text) -> Text
    decreases s.len(),
{
    if s.len() == 0 {
        s
    } else if fold_length(s) > 0 {
        unfolded(s.skip(fold_length(s)))
    } else {
        seq![s[0]] + unfolded(s.skip(1))
    }
}

/// How often a component may open before a position of a text in lower case.
pub open spec fn openings(s: Text, at: int) -> int
    decreases at,
{
    if at <= 0 {
        0
    } else if text::occurs_at(s, "begin:"@, at - 1) {
        openings(s, at - 1) + 1
    } else {
        openings(s, at - 1)
    }
}

/// The characters of keys and of the names of components.
pub open spec fn key_char(c: char) -> bool {
    text::alphanumeric(c) || c == '.' || c == ',' || c == '/' || c == '_' || c == '-'
}

pub open spec fn is_key(s: Text) -> bool {
    forall|i: int| 0 <= i < s.len() ==> key_char(#[trigger] s[i])
}

/// How far a line with a property has been read.
#[derive(Clone, Copy)]
pub enum Place {
    /// In its key.
    Key,
    /// In the name of a parameter.
    Name,
    /// Behind the sign between the name of a parameter and its value.
    Sign,
    /// In a value without quotes.
    Bare,
    /// In a value with quotes.
    Quoted,
    /// Behind the quotes.
    Closed,
    /// Behind the comma between two values with quotes.
    Comma,
    /// In what the property says.
    Said,
    /// It is no such line.
    Nowhere,
}

/// Where a character leads.
pub open spec fn place_after(place: Place, c: char) -> Place {
    match place {
        Place::Said => Place::Said,
        Place::Nowhere => Place::Nowhere,
        Place::Quoted => if c == '"' {
            Place::Closed
        } else {
            Place::Quoted
        },
        Place::Comma => if c == '"' {
            Place::Quoted
        } else {
            Place::Nowhere
        },
        _ => if c == ':' {
            Place::Said
        } else if c == ';' {
            Place::Name
        } else {
            match place {
                Place::Key => if key_char(c) {
                    Place::Key
                } else {
                    Place::Nowhere
                },
                Place::Name => if key_char(c) {
                    Place::Name
                } else if c == '=' {
                    Place::Sign
                } else {
                    Place::Nowhere
                },
                Place::Sign => if c == '"' {
                    Place::Quoted
                } else {
                    Place::Bare
                },
                Place::Bare => if c == '"' {
                    Place::Nowhere
                } else {
                    Place::Bare
                },
                _ => if c == ',' {
                    Place::Comma
                } else {
                    Place::Nowhere
                },
            }
        },
    }
}

/// Where the characters of a line lead.
pub open spec fn place_of(line: Text) -> Place
    decreases line.len(),
{
    if line.len() == 0 {
        Place::Key
    } else {
        place_after(place_of(line.drop_last()), line.last())
    }
}

/// How many components are open behind a line in lower case; `None` where too many are,
/// or where it is not sure what the line does.
pub open spec fn level_after(level: int, line: Text) -> Option<int> {
    match (text::after_prefix(line, "begin:"@), text::after_prefix(line, "end:"@)) {
        (Some(name), _) => if is_key(name) && level < DEEPEST {
            Some(level + 1)
        } else {
            None
        },
        (None, Some(name)) => if is_key(name) && level > 0 {
            Some(level - 1)
        } else {
            None
        },
        (None, None) => if place_of(line) is Said || place_of(line) is Key {
            Some(level)
        } else {
            None
        },
    }
}

/// A line without the carriage return at its end.
pub open spec fn bare_line(line: Text) -> Text {
    match text::before_suffix(line, "\r"@) {
        Some(line) => line,
        None => line,
    }
}

/// How many components are open behind some lines.
pub open spec fn level_of(lines: Seq<Text>) -> Option<int>
    decreases lines.len(),
{
    if lines.len() == 0 {
        Some(0)
    } else {
        match level_of(lines.drop_last()) {
            Some(level) => level_after(level, bare_line(lines.last())),
            None => None,
        }
    }
}

/// Whether a carriage return stands before each line feed or before none.
pub open spec fn evenly_broken(s: Text) -> bool {
    ||| forall|i: int| 0 <= i < s.len() && #[trigger] s[i] == '\n' ==> i > 0 && s[i - 1] == '\r'
    ||| forall|i: int| 0 < i < s.len() && #[trigger] s[i] == '\n' ==> s[i - 1] != '\r'
}

/// Whether the components of a document do not stand in too many others.
pub open spec fn shallow(body: Text) -> bool {
    let s = text::lowered(unfolded(body));
    ||| openings(s, s.len() as int) <= DEEPEST
    ||| evenly_broken(s) && level_of(text::split(s, '\n')) is Some
}

fn unfold(v: &Vec<char>) -> (r: String)
    ensures
        r@ == unfolded(v@),
{
    let mut r: String = String::new();
    let all: usize = v.len();
    let mut i: usize = 0;
    assert(v@.skip(0) == v@);
    while i < all
        invariant
            i <= all,
            all == v@.len(),
            r@ + unfolded(v@.skip(i as int)) == unfolded(v@),
        decreases all - i,
    {
        let ghost rest = v@.skip(i as int);
        let ghost before = r@;
        if all - i >= 3 && v[i] == '\r' && v[i + 1] == '\n' && (v[i + 2] == ' ' || v[i + 2]
            == '\t') {
            assert(fold_length(rest) == 3);
            assert(rest.skip(3) == v@.skip(i + 3));
            i += 3;
        } else if all - i >= 2 && v[i] == '\n' && (v[i + 1] == ' ' || v[i + 1] == '\t') {
            assert(fold_length(rest) == 2);
            assert(rest.skip(2) == v@.skip(i + 2));
            i += 2;
        } else {
            assert(fold_length(rest) == 0);
            assert(rest.skip(1) == v@.skip(i + 1));
            r.push(v[i]);
            assert(r@ + unfolded(v@.skip(i + 1)) == before + (seq![rest[0]] + unfolded(
                rest.skip(1),
            )));
            i += 1;
        }
    }
    assert(v@.skip(all as int) == Seq::<char>::empty());
    assert(r@ + Seq::<char>::empty() == r@);
    r
}

/// Whether few components open in a text in lower case.
fn few_openings(v: &Vec<char>) -> (r: bool)
    ensures
        r == (openings(v@, v@.len() as int) <= DEEPEST),
{
    let word = text::chars_of("begin:");
    let all: usize = v.len();
    let mut count: usize = 0;
    let mut i: usize = 0;
    while i < all
        invariant
            i <= all,
            all == v@.len(),
            word@ == "begin:"@,
            count == openings(v@, i as int),
            count <= DEEPEST,
        decreases all - i,
    {
        if text::stands_at(v, &word, i) {
            if count == DEEPEST {
                proof {
                    lemma_openings(v@, i + 1, all as int);
                }
                return false;
            }
            count += 1;
        }
        i += 1;
    }
    true
}

proof fn lemma_openings(s: Text, a: int, b: int)
    requires
        a <= b,
    ensures
        openings(s, a) <= openings(s, b),
    decreases b - a,
{
    if a < b {
        lemma_openings(s, a, b - 1);
    }
}

fn is_key_char(c: char) -> (r: bool)
    ensures
        r == key_char(c),
{
    text::is_alphanumeric(c) || c == '.' || c == ',' || c == '/' || c == '_' || c == '-'
}

fn is_all_key(s: &str) -> (r: bool)
    ensures
        r == is_key(s@),
{
    let v = text::chars_of(s);
    let mut i: usize = 0;
    while i < v.len()
        invariant
            i <= v@.len(),
            v@ == s@,
            forall|j: int| 0 <= j < i ==> key_char(#[trigger] v@[j]),
        decreases v@.len() - i,
    {
        if !is_key_char(v[i]) {
            assert(!key_char(s@[i as int]));
            return false;
        }
        i += 1;
    }
    true
}

fn step(place: Place, c: char) -> (r: Place)
    ensures
        r == place_after(place, c),
{
    match place {
        Place::Said => Place::Said,
        Place::Nowhere => Place::Nowhere,
        Place::Quoted => if c == '"' {
            Place::Closed
        } else {
            Place::Quoted
        },
        Place::Comma => if c == '"' {
            Place::Quoted
        } else {
            Place::Nowhere
        },
        _ => if c == ':' {
            Place::Said
        } else if c == ';' {
            Place::Name
        } else {
            match place {
                Place::Key => if is_key_char(c) {
                    Place::Key
                } else {
                    Place::Nowhere
                },
                Place::Name => if is_key_char(c) {
                    Place::Name
                } else if c == '=' {
                    Place::Sign
                } else {
                    Place::Nowhere
                },
                Place::Sign => if c == '"' {
                    Place::Quoted
                } else {
                    Place::Bare
                },
                Place::Bare => if c == '"' {
                    Place::Nowhere
                } else {
                    Place::Bare
                },
                _ => if c == ',' {
                    Place::Comma
                } else {
                    Place::Nowhere
                },
            }
        },
    }
}

fn is_property(line: &str) -> (r: bool)
    ensures
        r == (place_of(line@) is Said || place_of(line@) is Key),
{
    let v = text::chars_of(line);
    let mut place = Place::Key;
    let mut i: usize = 0;
    while i < v.len()
        invariant
            i <= v@.len(),
            place == place_of(v@.take(i as int)),
        decreases v@.len() - i,
    {
        assert(v@.take(i + 1).drop_last() == v@.take(i as int));
        place = step(place, v[i]);
        i += 1;
    }
    assert(v@.take(v@.len() as int) == v@);
    matches!(place, Place::Said | Place::Key)
}

fn level_behind(level: usize, line: &str) -> (r: Option<usize>)
    requires
        level <= DEEPEST,
    ensures
        match level_after(level as int, line@) {
            Some(after) => r matches Some(r) && r == after && r <= DEEPEST,
            None => r is None,
        },
{
    match (text::strip_prefix(line, "begin:"), text::strip_prefix(line, "end:")) {
        (Some(name), _) => if is_all_key(name) && level < DEEPEST {
            Some(level + 1)
        } else {
            None
        },
        (None, Some(name)) => if is_all_key(name) && level > 0 {
            Some(level - 1)
        } else {
            None
        },
        (None, None) => if is_property(line) {
            Some(level)
        } else {
            None
        },
    }
}

fn has_level(lines: &Vec<String>) -> (r: bool)
    ensures
        r == (level_of(text::texts(lines@)) is Some),
{
    let mut level: usize = 0;
    let mut i: usize = 0;
    let ghost all = text::texts(lines@);
    while i < lines.len()
        invariant
            i <= lines@.len(),
            all == text::texts(lines@),
            level <= DEEPEST,
            level_of(all.take(i as int)) == Some(level as int),
        decreases lines@.len() - i,
    {
        let line = match text::strip_suffix(lines[i].as_str(), "\r") {
            Some(line) => line,
            None => lines[i].as_str(),
        };
        assert(line@ == bare_line(all[i as int]));
        assert(all.take(i + 1).drop_last() == all.take(i as int));
        match level_behind(level, line) {
            Some(after) => {
                level = after;
            },
            None => {
                proof {
                    lemma_no_level(all, i + 1, all.len() as int);
                    assert(all.take(all.len() as int) == all);
                }
                return false;
            },
        }
        i += 1;
    }
    assert(all.take(all.len() as int) == all);
    true
}

proof fn lemma_no_level(lines: Seq<Text>, a: int, b: int)
    requires
        0 <= a <= b <= lines.len(),
        level_of(lines.take(a)) is None,
    ensures
        level_of(lines.take(b)) is None,
    decreases b - a,
{
    if a < b {
        lemma_no_level(lines, a, b - 1);
        assert(lines.take(b).drop_last() == lines.take(b - 1));
    }
}

fn is_evenly_broken(v: &Vec<char>) -> (r: bool)
    ensures
        r == evenly_broken(v@),
{
    let mut with = true;
    let mut without = true;
    let mut i: usize = 0;
    while i < v.len()
        invariant
            i <= v@.len(),
            with == (forall|j: int|
                0 <= j < i && #[trigger] v@[j] == '\n' ==> j > 0 && v@[j - 1] == '\r'),
            without == (forall|j: int|
                0 < j < i && #[trigger] v@[j] == '\n' ==> v@[j - 1] != '\r'),
        decreases v@.len() - i,
    {
        if v[i] == '\n' {
            if i > 0 && v[i - 1] == '\r' {
                assert(v@[i as int] == '\n');
                without = false;
            } else {
                assert(v@[i as int] == '\n');
                with = false;
            }
        }
        i += 1;
    }
    with || without
}

/// Whether the components of a document do not stand in too many others.
pub fn is_shallow(body: &str) -> (r: bool)
    ensures
        r == shallow(body@),
{
    let whole = unfold(&text::chars_of(body));
    let s = text::to_lower(whole.as_str());
    let v = text::chars_of(s.as_str());
    few_openings(&v) || (is_evenly_broken(&v) && has_level(&text::split_at_each(s.as_str(), '\n')))
}

} // verus!
