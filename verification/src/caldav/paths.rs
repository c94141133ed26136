//! Which collection and resource a path under `/dav/` addresses.
use vstd::prelude::*;

use super::{EVENTS, TASKS, TASKS_PREFIX};
use crate::text;
use crate::text::Text;

verus! {

/// The key of the task collection that a path addresses: what stands between
/// `tasks-` and the next slash, or the empty text for the flat collection.
pub open spec fn key_of(path: Text) -> Option<Text> {
    if text::starts_with(path, TASKS@) {
        Some(Seq::empty())
    } else {
        match text::after_prefix(path, TASKS_PREFIX@) {
            None => None,
            Some(rest) => {
                let at = text::index_of(rest, '/');
                if 0 < at < rest.len() && text::all_alphanumeric(rest.take(at)) {
                    Some(rest.take(at))
                } else {
                    None
                }
            },
        }
    }
}

/// The path of the task collection with this key.
pub open spec fn path_of(key: Text) -> Text {
    if key.len() == 0 {
        TASKS@
    } else {
        TASKS_PREFIX@ + key + "/"@
    }
}

/// A character that a resource name may hold.
pub open spec fn plain(c: char) -> bool {
    text::alphanumeric(c) || c == '.' || c == '_' || c == '~' || c == '-'
}

/// A name that a resource can have: not empty, of plain characters, and
/// without `..`.
pub open spec fn plain_name(name: Text) -> bool {
    &&& name.len() > 0
    &&& forall|i: int| 0 <= i < name.len() ==> plain(#[trigger] name[i])
    &&& !text::contains(name, ".."@)
}

/// The name of the resource that a path addresses in a collection.
pub open spec fn name_in(path: Text, collection: Text) -> Option<Text> {
    match text::after_prefix(path, collection) {
        None => None,
        Some(rest) => match text::before_suffix(rest, ".ics"@) {
            None => None,
            Some(name) => if plain_name(name) {
                Some(name)
            } else {
                None
            },
        },
    }
}

/// The task collection a path addresses: the key that follows `tasks-`, or the
/// empty string for the flat one. A key is a digest or the reserved
/// `unassigned`, so anything else is not a task path at all.
pub fn tasks_key<'a>(path: &'a str) -> (r: Option<&'a str>)
    ensures
        match r {
            Some(key) => key_of(path@) == Some(key@),
            None => key_of(path@) is None,
        },
{
    if text::begins(path, TASKS) {
        let none = text::part(path, 0, 0);
        assert(none@ == Seq::<char>::empty());
        return Some(none);
    }
    match text::strip_prefix(path, TASKS_PREFIX) {
        None => None,
        Some(rest) => {
            let at = text::position(rest, '/');
            if at == 0 || at == rest.unicode_len() {
                return None;
            }
            let key = text::part(rest, 0, at);
            assert(key@ == rest@.take(at as int));
            if text::is_all_alphanumeric(key) {
                Some(key)
            } else {
                None
            }
        },
    }
}

/// Whether a path is that of a task or event collection.
pub open spec fn calendar(path: Text) -> bool {
    path == EVENTS@ || (key_of(path) is Some && path_of(key_of(path)->0) == path)
}

/// A task or event collection, which a reader may rename.
pub fn is_calendar(path: &str) -> (r: bool)
    ensures
        r == calendar(path@),
{
    if text::same(path, EVENTS) {
        return true;
    }
    match tasks_key(path) {
        Some(key) => text::same(collection_path(key).as_str(), path),
        None => false,
    }
}

pub fn collection_path(key: &str) -> (r: String)
    ensures
        r@ == path_of(key@),
{
    if key.is_empty() {
        TASKS.to_owned()
    } else {
        let mut r = TASKS_PREFIX.to_owned();
        r.append(key);
        r.append("/");
        r
    }
}

/// `/dav/calendars/tasks/<name>.ics` → `("", <name>)`. A name is an object id
/// or a name derived from a UID, so only `[A-Za-z0-9._~-]` is accepted; `..` and
/// anything path-like is refused rather than looked up.
pub fn object_id<'a>(path: &'a str) -> (r: Option<(&'a str, &'a str)>)
    ensures
        match r {
            Some((key, name)) => key_of(path@) == Some(key@) && name_in(path@, path_of(key@))
                == Some(name@),
            None => key_of(path@) is None || name_in(path@, path_of(key_of(path@)->0)) is None,
        },
{
    match tasks_key(path) {
        None => None,
        Some(key) => match resource_name_in(path, collection_path(key).as_str()) {
            None => None,
            Some(name) => Some((key, name)),
        },
    }
}

pub fn resource_name_in<'a>(path: &'a str, collection: &str) -> (r: Option<&'a str>)
    ensures
        match r {
            Some(name) => name_in(path@, collection@) == Some(name@),
            None => name_in(path@, collection@) is None,
        },
{
    let rest = match text::strip_prefix(path, collection) {
        None => return None,
        Some(rest) => rest,
    };
    let name = match text::strip_suffix(rest, ".ics") {
        None => return None,
        Some(name) => name,
    };
    if is_plain_name(name) {
        Some(name)
    } else {
        None
    }
}

fn is_plain_name(name: &str) -> (r: bool)
    ensures
        r == plain_name(name@),
{
    let v = text::chars_of(name);
    let mut i: usize = 0;
    while i < v.len()
        invariant
            i <= v@.len(),
            v@ == name@,
            forall|j: int| 0 <= j < i ==> plain(#[trigger] v@[j]),
        decreases v@.len() - i,
    {
        let c = v[i];
        if !(text::is_alphanumeric(c) || c == '.' || c == '_' || c == '~' || c == '-') {
            assert(!plain(name@[i as int]));
            return false;
        }
        i += 1;
    }
    v.len() > 0 && !text::has(name, "..")
}

/// The path of one resource of the task collection with this key.
pub open spec fn member_path(key: Text, name: Text) -> Text {
    path_of(key) + name + ".ics"@
}

pub fn href_for(key: &str, object_id: &str) -> (r: String)
    ensures
        r@ == member_path(key@, object_id@),
{
    let mut r = collection_path(key);
    r.append(object_id);
    r.append(".ics");
    r
}

/// The paths of collections that may be written without the last slash.
pub open spec fn lacks_slash(path: Text) -> bool {
    ||| path == "/dav"@
    ||| path == "/dav/principal"@
    ||| path == "/dav/calendars"@
    ||| path == "/dav/calendars/events"@
    ||| path == "/dav/calendars/calino-settings"@
    ||| match text::after_prefix(path, "/dav/calendars/tasks"@) {
        Some(rest) => text::index_of(rest, '/') == rest.len(),
        None => false,
    }
}

/// A path with the last slash that a collection's path has.
pub open spec fn normalized(path: Text) -> Text {
    if lacks_slash(path) {
        path + "/"@
    } else {
        path
    }
}

/// Collections are addressed with a trailing slash; accept them without one.
pub fn normalize(path: &str) -> (r: String)
    ensures
        r@ == normalized(path@),
{
    let tasks = match text::strip_prefix(path, "/dav/calendars/tasks") {
        Some(rest) => text::position(rest, '/') == rest.unicode_len(),
        None => false,
    };
    let mut r = path.to_owned();
    if text::same(path, "/dav") || text::same(path, "/dav/principal") || text::same(path, "/dav/calendars") || text::same(
        path,
        "/dav/calendars/events",
    ) || text::same(path, "/dav/calendars/calino-settings") || tasks {
        r.append("/");
    }
    r
}

proof fn lemma_slash_after_key(key: Text, rest: Text)
    requires
        text::all_alphanumeric(key),
    ensures
        text::index_of(key + "/"@ + rest, '/') == key.len(),
        (key + "/"@ + rest).take(key.len() as int) == key,
{
    reveal_strlit("/");
    let s = key + "/"@ + rest;
    assert forall|j: int| 0 <= j < key.len() implies s[j] != '/' by {
        assert(text::alphanumeric(key[j]));
        assert(s[j] == key[j]);
    }
    assert(s[key.len() as int] == '/');
    text::lemma_index_of(s, '/', key.len() as int);
    assert(s.take(key.len() as int) == key);
}

/// What stands under the path of a task collection is in that collection.
pub proof fn lemma_key_of_member(key: Text, rest: Text)
    requires
        text::all_alphanumeric(key),
    ensures
        key_of(path_of(key) + rest) == Some(key),
        text::after_prefix(path_of(key) + rest, path_of(key)) == Some(rest),
{
    reveal_strlit("/");
    reveal_strlit("/dav/calendars/tasks/");
    reveal_strlit("/dav/calendars/tasks-");
    let path = path_of(key) + rest;
    assert(path.subrange(0, path_of(key).len() as int) == path_of(key));
    assert(path.subrange(path_of(key).len() as int, path.len() as int) == rest);
    if key.len() == 0 {
        assert(key == Seq::<char>::empty());
    } else {
        assert(path[20] == '-');
        if text::starts_with(path, TASKS@) {
            assert(path.subrange(0, TASKS@.len() as int)[20] == path[20]);
            assert(TASKS@[20] == '/');
        }
        assert(path.subrange(0, TASKS_PREFIX@.len() as int) == TASKS_PREFIX@);
        assert(path.subrange(TASKS_PREFIX@.len() as int, path.len() as int) == key + "/"@ + rest);
        lemma_slash_after_key(key, rest);
    }
}

/// The path of a task collection addresses that collection.
pub proof fn law_collection_path_addresses_its_key(key: Text)
    requires
        text::all_alphanumeric(key),
    ensures
        key_of(path_of(key)) == Some(key),
{
    lemma_key_of_member(key, Seq::empty());
    assert(path_of(key) + Seq::<char>::empty() == path_of(key));
}

/// What a listing says of a resource, a request finds again: the path that is
/// made of a key and a plain name addresses that key and that name.
pub proof fn law_member_path_addresses_its_resource(key: Text, name: Text)
    requires
        text::all_alphanumeric(key),
        plain_name(name),
    ensures
        key_of(member_path(key, name)) == Some(key),
        name_in(member_path(key, name), path_of(key)) == Some(name),
{
    reveal_strlit(".ics");
    let rest = name + ".ics"@;
    assert(member_path(key, name) == path_of(key) + rest);
    lemma_key_of_member(key, rest);
    assert(rest.subrange(rest.len() - 4, rest.len() as int) == ".ics"@);
    assert(rest.subrange(0, rest.len() - 4) == name);
}

/// A resource that a path addresses lies directly in its collection: its name
/// holds no slash and no `..`.
pub proof fn law_resource_stays_in_its_collection(path: Text, collection: Text)
    requires
        name_in(path, collection) is Some,
    ensures
        !name_in(path, collection)->0.contains('/'),
        !text::contains(name_in(path, collection)->0, ".."@),
        path == collection + name_in(path, collection)->0 + ".ics"@,
{
    let name = name_in(path, collection)->0;
    if name.contains('/') {
        let i = choose|i: int| 0 <= i < name.len() && name[i] == '/';
        assert(plain(name[i]));
    }
    let rest = path.subrange(collection.len() as int, path.len() as int);
    assert(path == path.subrange(0, collection.len() as int) + rest);
    assert(rest == rest.subrange(0, rest.len() - ".ics"@.len()) + rest.subrange(
        rest.len() - ".ics"@.len(),
        rest.len() as int,
    ));
}

proof fn lemma_slash_is_found(s: Text)
    requires
        s.len() > 0,
        s.last() == '/',
    ensures
        text::index_of(s, '/') < s.len(),
    decreases s.len(),
{
    if s[0] != '/' {
        assert(s.drop_first().last() == s.last());
        lemma_slash_is_found(s.drop_first());
    }
}

/// Normalizing a path twice changes nothing more.
pub proof fn law_normalized_once(path: Text)
    ensures
        normalized(normalized(path)) == normalized(path),
{
    reveal_strlit("/");
    reveal_strlit("/dav");
    reveal_strlit("/dav/principal");
    reveal_strlit("/dav/calendars");
    reveal_strlit("/dav/calendars/events");
    reveal_strlit("/dav/calendars/calino-settings");
    reveal_strlit("/dav/calendars/tasks");
    if lacks_slash(path) {
        let long = path + "/"@;
        assert(long.last() == '/');
        assert("/dav"@.last() != '/');
        assert("/dav/principal"@.last() != '/');
        assert("/dav/calendars"@.last() != '/');
        assert("/dav/calendars/events"@.last() != '/');
        assert("/dav/calendars/calino-settings"@.last() != '/');
        match text::after_prefix(long, "/dav/calendars/tasks"@) {
            Some(rest) => {
                if rest.len() == 0 {
                    assert(long == long.subrange(0, "/dav/calendars/tasks"@.len() as int));
                    assert("/dav/calendars/tasks"@.last() == 's');
                }
                assert(rest.last() == '/');
                lemma_slash_is_found(rest);
            },
            None => {},
        }
    }
}

} // verus!
