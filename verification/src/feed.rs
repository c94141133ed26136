//! What is served: the snapshot of the tasks, its calendars, and the stale
//! fallback.
use vstd::prelude::*;
use vstd::utf8::encode_utf8;

use crate::config::{CalendarConfig, RemindersConfig};
use crate::digest;
use crate::ical;
use crate::locale::Language;
use crate::model::{Task, TaskBatch};
use crate::render;
use crate::source::SourceError;
use crate::table;
use crate::table::Table;
use crate::text;
use crate::text::Text;
use crate::time::Instant;

verus! {

/// One task or event as a CalDAV resource.
#[derive(Debug, Clone)]
pub struct Resource {
    pub object_id: String,
    pub ics: String,
    pub etag: String,
}

#[verifier::ext_equal]
pub struct ResourceView {
    pub object_id: Text,
    pub ics: Text,
    pub etag: Text,
}

impl View for Resource {
    type V = ResourceView;

    open spec fn view(&self) -> ResourceView {
        ResourceView { object_id: self.object_id@, ics: self.ics@, etag: self.etag@ }
    }
}

impl Resource {
    pub fn copy(&self) -> (r: Resource)
        ensures
            r == *self,
    {
        Resource {
            object_id: self.object_id.clone(),
            ics: self.ics.clone(),
            etag: self.etag.clone(),
        }
    }
}

/// One calendar of its own, served at `/dav/calendars/tasks-<key>/`.
#[derive(Debug, Clone)]
pub struct Collection {
    /// What a client shows: the member's name, or that of the unassigned.
    pub display_name: String,
    /// Whose calendar this is, as `Task::assignees` names them. The key is a
    /// digest and cannot be turned back into it. `None` for the unassigned.
    pub member_id: Option<String>,
    /// Whether that person may sign in.
    pub account: bool,
    /// Over this collection's members only, so a change in one calendar does not
    /// make every client re-list the others.
    pub ctag: String,
    /// A subset of the snapshot's objects, under the same resource names.
    pub objects: Table<Resource>,
}

#[verifier::ext_equal]
pub struct CollectionView {
    pub display_name: Text,
    pub member_id: Option<Text>,
    pub account: bool,
    pub ctag: Text,
    pub objects: Seq<(Text, ResourceView)>,
}

impl View for Collection {
    type V = CollectionView;

    open spec fn view(&self) -> CollectionView {
        CollectionView {
            display_name: self.display_name@,
            member_id: text::text_of(self.member_id),
            account: self.account,
            ctag: self.ctag@,
            objects: table::views(self.objects@),
        }
    }
}

/// A published feed body plus its validators.
#[derive(Debug, Clone)]
pub struct Snapshot {
    pub body: String,
    pub etag: String,
    pub last_modified: Instant,
    /// The same tasks as CalDAV resources, by resource name. Rendered in the same
    /// refresh as `body`, so the feed and a CalDAV client never see two different
    /// reads of the space.
    pub objects: Table<Resource>,
    /// One view per assignee, by collection key. Empty unless there is a
    /// directory of people, and then `objects` above still holds every task.
    pub collections: Table<Collection>,
    /// The resource name each task's UID is served under.
    pub names_by_uid: Table<String>,
    /// Tasks with more than one assignee, by resource name.
    pub shared: Table<Vec<String>>,
}

/// The collection of tasks nobody is assigned.
pub const UNASSIGNED: &'static str = "unassigned";

/// The path segment that a member id is served under: the first six bytes of its
/// digest in hexadecimal.
pub open spec fn key_for(member_id: Text) -> Text {
    digest::hex(digest::sha256(encode_utf8(member_id)).take(6))
}

/// The path segment a member id is served under. A participant id runs to about
/// 160 characters and a display name is neither stable nor URL-safe, so the path
/// carries a digest and the name travels in `displayname`.
pub fn collection_key(member_id: &str) -> (r: String)
    ensures
        r@ == key_for(member_id@),
{
    let whole = digest::sha256_of(member_id.as_bytes());
    digest::hex_of(first_bytes(&whole, 6).as_slice())
}

pub(crate) fn first_bytes(v: &Vec<u8>, n: usize) -> (r: Vec<u8>)
    requires
        n <= v@.len(),
    ensures
        r@ == v@.take(n as int),
{
    let mut r: Vec<u8> = Vec::new();
    let mut i: usize = 0;
    while i < n
        invariant
            i <= n <= v@.len(),
            r@ == v@.take(i as int),
        decreases n - i,
    {
        r.push(v[i]);
        i += 1;
        assert(r@ == v@.take(i as int));
    }
    r
}

/// The tag of a text: the first sixteen bytes of its digest in hexadecimal,
/// between quotes.
pub open spec fn tag_of(body: Text) -> Text {
    "\""@ + digest::hex(digest::sha256(encode_utf8(body)).take(16)) + "\""@
}

pub fn etag_for(body: &str) -> (r: String)
    ensures
        r@ == tag_of(body@),
{
    let whole = digest::sha256_of(body.as_bytes());
    let mut r = "\"".to_owned();
    r.append(digest::hex_of(first_bytes(&whole, 16).as_slice()).as_str());
    r.append("\"");
    r
}

/// A byte that a resource name holds as it is.
pub open spec fn kept_byte(b: u8) -> bool {
    ||| 65 <= b <= 90
    ||| 97 <= b <= 122
    ||| 48 <= b <= 57
    ||| b == 45
    ||| b == 95
    ||| b == 46
}

/// A number below sixteen as a hexadecimal digit in upper case.
pub open spec fn upper_hex(n: int) -> char {
    if n < 10 {
        ('0' as int + n) as char
    } else {
        ('A' as int + n - 10) as char
    }
}

/// What stands for a byte in a resource name.
pub open spec fn byte_text(b: u8) -> Text {
    if kept_byte(b) {
        seq![b as char]
    } else {
        seq!['~', upper_hex(b as int / 16), upper_hex(b as int % 16)]
    }
}

pub open spec fn bytes_text(bytes: Seq<u8>) -> Text
    decreases bytes.len(),
{
    if bytes.len() == 0 {
        Seq::empty()
    } else {
        bytes_text(bytes.drop_last()) + byte_text(bytes.last())
    }
}

/// The resource name that a UID is served under.
pub open spec fn filename_of(uid: Text) -> Text {
    bytes_text(encode_utf8(uid))
}

fn upper_hex_of(n: u8) -> (c: char)
    requires
        n < 16,
    ensures
        c == upper_hex(n as int),
{
    if n < 10 {
        (48u8 + n) as char
    } else {
        (65u8 + (n - 10)) as char
    }
}

/// The calendar app's own file name for a UID, without the `.ics`: unreserved
/// characters but for `!'()*~`, and every other byte as `~` and two hexadecimal
/// digits.
pub fn calino_filename(uid: &str) -> (r: String)
    ensures
        r@ == filename_of(uid@),
{
    let bytes = uid.as_bytes();
    let mut out: String = String::new();
    let mut i: usize = 0;
    while i < bytes.len()
        invariant
            i <= bytes@.len(),
            bytes@ == encode_utf8(uid@),
            out@ == bytes_text(bytes@.take(i as int)),
        decreases bytes@.len() - i,
    {
        let b: u8 = bytes[i];
        assert(bytes@.take(i + 1).drop_last() == bytes@.take(i as int));
        let ghost before = out@;
        if (65 <= b && b <= 90) || (97 <= b && b <= 122) || (48 <= b && b <= 57) || b == 45 || b
            == 95 || b == 46 {
            out.push(b as char);
            assert(out@ == before + byte_text(b));
        } else {
            out.push('~');
            out.push(upper_hex_of(b / 16));
            out.push(upper_hex_of(b % 16));
            assert(out@ == before + byte_text(b));
        }
        i += 1;
    }
    assert(bytes@.take(bytes@.len() as int) == bytes@);
    out
}

proof fn lemma_byte_text(a: u8, b: u8)
    ensures
        byte_text(a) == byte_text(b) ==> a == b,
        byte_text(a).len() == (if kept_byte(a) {
            1int
        } else {
            3int
        }),
        kept_byte(a) ==> byte_text(a)[0] != '~',
        !kept_byte(a) ==> byte_text(a)[0] == '~' && byte_text(a)[1] != '~' && byte_text(a)[2]
            != '~',
{
    if byte_text(a) == byte_text(b) {
        assert(byte_text(a).len() == byte_text(b).len());
        if kept_byte(a) {
            assert(byte_text(a)[0] == byte_text(b)[0]);
        } else {
            assert(byte_text(a)[1] == byte_text(b)[1]);
            assert(byte_text(a)[2] == byte_text(b)[2]);
            assert(a == a / 16 * 16 + a % 16);
            assert(b == b / 16 * 16 + b % 16);
        }
    }
}

/// The text of bytes from the first on.
spec fn front_text(bytes: Seq<u8>) -> Text
    decreases bytes.len(),
{
    if bytes.len() == 0 {
        Seq::empty()
    } else {
        byte_text(bytes[0]) + front_text(bytes.drop_first())
    }
}

proof fn lemma_front_text_push(bytes: Seq<u8>)
    requires
        bytes.len() > 0,
    ensures
        front_text(bytes) == front_text(bytes.drop_last()) + byte_text(bytes.last()),
    decreases bytes.len(),
{
    if bytes.len() == 1 {
        assert(bytes.drop_first() =~= Seq::<u8>::empty());
        assert(bytes.drop_last() =~= Seq::<u8>::empty());
        assert(front_text(Seq::<u8>::empty()) == Seq::<char>::empty());
        assert(front_text(bytes) =~= front_text(bytes.drop_last()) + byte_text(bytes.last()));
    } else {
        lemma_front_text_push(bytes.drop_first());
        assert(bytes.drop_first().drop_last() =~= bytes.drop_last().drop_first());
        assert(front_text(bytes) =~= front_text(bytes.drop_last()) + byte_text(bytes.last()));
    }
}

proof fn lemma_front_text(bytes: Seq<u8>)
    ensures
        front_text(bytes) == bytes_text(bytes),
    decreases bytes.len(),
{
    if bytes.len() > 0 {
        lemma_front_text(bytes.drop_last());
        lemma_front_text_push(bytes);
    }
}

proof fn lemma_front_text_injective(a: Seq<u8>, b: Seq<u8>)
    requires
        front_text(a) == front_text(b),
    ensures
        a == b,
    decreases a.len(),
{
    if a.len() > 0 {
        lemma_byte_text(a[0], a[0]);
        assert(front_text(a)[0] == byte_text(a[0])[0]);
    }
    if b.len() > 0 {
        lemma_byte_text(b[0], b[0]);
        assert(front_text(b)[0] == byte_text(b[0])[0]);
    }
    if a.len() > 0 && b.len() > 0 {
        let n = byte_text(a[0]).len() as int;
        assert(byte_text(b[0]).len() == n);
        assert(byte_text(a[0]) =~= front_text(a).take(n));
        assert(byte_text(b[0]) =~= front_text(b).take(n));
        lemma_byte_text(a[0], b[0]);
        assert(front_text(a.drop_first()) =~= front_text(a).skip(n));
        assert(front_text(b.drop_first()) =~= front_text(b).skip(n));
        lemma_front_text_injective(a.drop_first(), b.drop_first());
        assert(a =~= seq![a[0]] + a.drop_first());
        assert(b =~= seq![b[0]] + b.drop_first());
    } else if a.len() == 0 && b.len() == 0 {
        assert(a =~= b);
    } else if a.len() == 0 {
        assert(front_text(a).len() == 0);
        assert(front_text(b).len() > 0);
    } else {
        assert(front_text(b).len() == 0);
        assert(front_text(a).len() > 0);
    }
}

/// No two UIDs share a resource name.
pub proof fn law_one_name_per_uid(a: Text, b: Text)
    requires
        filename_of(a) == filename_of(b),
    ensures
        a == b,
{
    lemma_front_text(encode_utf8(a));
    lemma_front_text(encode_utf8(b));
    lemma_front_text_injective(encode_utf8(a), encode_utf8(b));
    vstd::utf8::encode_utf8_decode_utf8(a);
    vstd::utf8::encode_utf8_decode_utf8(b);
}

/// A resource name holds plain characters only, so it can stand in a path.
pub proof fn law_names_are_plain(uid: Text, i: int)
    requires
        0 <= i < filename_of(uid).len(),
    ensures
        crate::caldav::paths::plain(filename_of(uid)[i]),
{
    lemma_plain_bytes(encode_utf8(uid), i);
}

proof fn lemma_plain_bytes(bytes: Seq<u8>, i: int)
    requires
        0 <= i < bytes_text(bytes).len(),
    ensures
        crate::caldav::paths::plain(bytes_text(bytes)[i]),
    decreases bytes.len(),
{
    let front = bytes_text(bytes.drop_last());
    if i < front.len() {
        lemma_plain_bytes(bytes.drop_last(), i);
    } else {
        let b = bytes.last();
        if kept_byte(b) {
            assert(bytes_text(bytes)[i] == b as char);
        } else {
            assert(bytes_text(bytes)[i] == byte_text(b)[i - front.len()]);
        }
    }
}

/// The resource name of an object: that of its UID, or its own id.
pub open spec fn name_of(object_id: Text, ical_uid: Option<Text>) -> Text {
    match ical_uid {
        Some(uid) => filename_of(uid),
        None => object_id,
    }
}

pub fn name_for(object_id: &str, ical_uid: &Option<String>) -> (r: String)
    ensures
        r@ == name_of(object_id@, text::text_of(*ical_uid)),
{
    match ical_uid {
        Some(uid) => calino_filename(uid.as_str()),
        None => object_id.to_owned(),
    }
}

pub open spec fn task_name(task: Task) -> Text {
    name_of(task.object_id@, text::text_of(task.ical_uid))
}

/// The resource name a task is served under. A task created in the calendar app
/// keeps the name the app computed from its UID, because the app addresses it by
/// that name and ignores any `Location` the server returns.
pub fn resource_name(task: &Task) -> (r: String)
    ensures
        r@ == task_name(*task),
{
    name_for(task.object_id.as_str(), &task.ical_uid)
}

/// The tags of the members of a calendar, in the order of their names.
pub open spec fn etags(objects: Seq<(Text, ResourceView)>) -> Seq<Text> {
    Seq::new(objects.len(), |i: int| objects[i].1.etag)
}

/// The tag of a calendar: that of its members' tags with commas between them.
pub open spec fn ctag_of(objects: Seq<(Text, ResourceView)>) -> Text {
    tag_of(text::join(etags(objects), ","@))
}

/// The ctag of a calendar, over its members' etags, which are already computed.
/// The feed's own etag is a hash of the whole rendered body and would move for
/// every calendar whenever any task changed.
pub fn collection_ctag(objects: &Table<Resource>) -> (r: String)
    ensures
        r@ == ctag_of(table::views(objects@)),
{
    let mut members: Vec<String> = Vec::new();
    let mut i: usize = 0;
    while i < objects.len()
        invariant
            i <= objects@.len(),
            text::texts(members@) == etags(table::views(objects@)).take(i as int),
        decreases objects@.len() - i,
    {
        let ghost before = members@;
        members.push(objects.value(i).etag.clone());
        assert(text::texts(members@) == text::texts(before).push(objects@[i as int].1.etag@));
        i += 1;
        assert(text::texts(members@) == etags(table::views(objects@)).take(i as int));
    }
    assert(etags(table::views(objects@)).take(i as int) == etags(table::views(objects@)));
    etag_for(text::join_all(&members, ",").as_str())
}

pub fn copy_objects(objects: &Table<Resource>) -> (r: Table<Resource>)
    ensures
        r@ == objects@,
{
    let mut r: Table<Resource> = Table::new();
    let n = objects.len();
    let mut i: usize = 0;
    assert(r@ == objects@.take(0));
    while i < n
        invariant
            i <= n == objects@.len(),
            r@ == objects@.take(i as int),
            table::sorted(objects@),
        decreases objects@.len() - i,
    {
        let key = objects.key(i).clone();
        let value = objects.value(i).copy();
        proof {
            let before = objects@.take(i as int);
            if i > 0 {
                assert(before.last() == objects@[i - 1]);
                assert(text::precedes(objects@[i - 1].0, objects@[i as int].0));
                text::lemma_precedes(key@, key@, key@);
            }
            assert(table::put(before, key@, value) == before.push((key@, value)));
            assert(objects@.take(i + 1) == before.push(objects@[i as int]));
        }
        r.insert(key, value);
        i += 1;
    }
    assert(objects@.take(objects@.len() as int) == objects@);
    r
}

/// A rendered object and its tag.
pub open spec fn served_as(object_id: Text, ics: Text) -> ResourceView {
    ResourceView { object_id, ics, etag: tag_of(ics) }
}

/// An object rendered exactly as the snapshot carries it.
pub fn resource_of(object_id: &str, ics: String) -> (r: Resource)
    ensures
        r@ == served_as(object_id@, ics@),
{
    let etag = etag_for(ics.as_str());
    Resource { object_id: object_id.to_owned(), ics, etag }
}

/// The first task under a UID, among all of them or among those whose UID is made
/// of their own id.
pub open spec fn first_with(tasks: Seq<Task>, uid: Text, original: bool) -> Option<Text>
    decreases tasks.len(),
{
    if tasks.len() == 0 {
        None
    } else {
        let before = first_with(tasks.drop_last(), uid, original);
        if before is None && tasks.last().spec_uid() == uid && (original ==> tasks.last().ical_uid
            is None) {
            Some(tasks.last().object_id@)
        } else {
            before
        }
    }
}

/// Which task keeps a UID: the one whose UID is made of its own id is the original
/// and stays; otherwise the first one listed does.
pub open spec fn keeper(tasks: Seq<Task>, uid: Text) -> Option<Text> {
    match first_with(tasks, uid, true) {
        Some(id) => Some(id),
        None => first_with(tasks, uid, false),
    }
}

/// The tasks that keep their UIDs among all of them.
pub open spec fn keepers(tasks: Seq<Task>, all: Seq<Task>) -> Seq<Task>
    decreases tasks.len(),
{
    if tasks.len() == 0 {
        Seq::empty()
    } else {
        let before = keepers(tasks.drop_last(), all);
        if keeper(all, tasks.last().spec_uid()) == Some(tasks.last().object_id@) {
            before.push(tasks.last())
        } else {
            before
        }
    }
}

/// One entry per UID that some task has: the task that keeps it, and whether that
/// one is the original.
spec fn kept_so_far(kept: Seq<(Text, (String, bool))>, tasks: Seq<Task>) -> bool {
    forall|uid: Text|
        match #[trigger] table::at(kept, uid) {
            Some(entry) => keeper(tasks, uid) == Some(entry.0@) && entry.1 == (first_with(
                tasks,
                uid,
                true,
            ) is Some),
            None => first_with(tasks, uid, false) is None && first_with(tasks, uid, true) is None,
        }
}

/// Leaves out all but one of the tasks that share a UID. A copy of a task keeps its
/// `ical_uid`, and two components with one UID would fail the whole render.
pub fn keep_distinct_uids(tasks: &mut Vec<Task>)
    ensures
        final(tasks)@ == keepers(old(tasks)@, old(tasks)@),
{
    let ghost all = tasks@;
    let mut kept: Table<(String, bool)> = Table::new();
    let mut i: usize = 0;
    while i < tasks.len()
        invariant
            i <= tasks@.len(),
            tasks@ == all,
            kept_so_far(kept@, all.take(i as int)),
        decreases tasks@.len() - i,
    {
        let uid = tasks[i].uid();
        let original = tasks[i].ical_uid.is_none();
        let taken = match kept.get(uid.as_str()) {
            Some(entry) => entry.1 || !original,
            None => false,
        };
        let ghost before = kept@;
        proof {
            assert(all.take(i + 1).drop_last() == all.take(i as int));
            assert(all.take(i + 1).last() == all[i as int]);
            assert(table::at(before, uid@) is Some || table::at(before, uid@) is None);
        }
        if !taken {
            proof {
                assert forall|other: Text| true implies (#[trigger] table::at(
                    table::put(before, uid@, (all[i as int].object_id, original)),
                    other,
                )) == (if other == uid@ {
                    Some((all[i as int].object_id, original))
                } else {
                    table::at(before, other)
                }) by {
                    table::lemma_at_put(before, uid@, (all[i as int].object_id, original), other);
                }
            }
            kept.insert(uid, (tasks[i].object_id.clone(), original));
        }
        i += 1;
    }
    assert(all.take(all.len() as int) == all);
    let mut at: usize = 0;
    let ghost mut done: int = 0;
    assert(all.skip(0) == all);
    while at < tasks.len()
        invariant
            0 <= done <= all.len(),
            at == keepers(all.take(done), all).len(),
            tasks@ == keepers(all.take(done), all) + all.skip(done),
            kept_so_far(kept@, all),
        decreases all.len() - done,
    {
        let ghost before = keepers(all.take(done), all);
        proof {
            assert(all.take(done + 1).drop_last() == all.take(done));
            assert(all.take(done + 1).last() == all[done]);
            assert(tasks@[at as int] == all[done]);
            assert(all.skip(done).drop_first() == all.skip(done + 1));
        }
        let uid = tasks[at].uid();
        assert(table::at(kept@, uid@) is Some || table::at(kept@, uid@) is None);
        let keeps = match kept.get(uid.as_str()) {
            Some(entry) => text::same(entry.0.as_str(), tasks[at].object_id.as_str()),
            None => false,
        };
        if keeps {
            at += 1;
            assert(before + all.skip(done) == before.push(all[done]) + all.skip(done + 1));
        } else {
            tasks.remove(at);
            assert((before + all.skip(done)).remove(at as int) == before + all.skip(done + 1));
        }
        proof {
            done = done + 1;
        }
    }
    proof {
        assert(all.skip(done).len() == 0);
        assert(all.take(done) == all);
        assert(keepers(all, all) + all.skip(done) == keepers(all, all));
    }
}

proof fn lemma_keepers(tasks: Seq<Task>, all: Seq<Task>)
    requires
        forall|i: int, j: int|
            0 <= i < j < tasks.len() ==> #[trigger] tasks[i].object_id@
                != #[trigger] tasks[j].object_id@,
    ensures
        forall|i: int|
            0 <= i < keepers(tasks, all).len() ==> tasks.contains(
                #[trigger] keepers(tasks, all)[i],
            ) && keeper(all, keepers(tasks, all)[i].spec_uid()) == Some(
                keepers(tasks, all)[i].object_id@,
            ),
        forall|i: int, j: int|
            0 <= i < j < keepers(tasks, all).len() ==> #[trigger] keepers(
                tasks,
                all,
            )[i].object_id@ != #[trigger] keepers(tasks, all)[j].object_id@,
    decreases tasks.len(),
{
    if tasks.len() > 0 {
        let front = tasks.drop_last();
        assert forall|i: int, j: int| 0 <= i < j < front.len() implies #[trigger] front[i].object_id@
            != #[trigger] front[j].object_id@ by {
            assert(tasks[i].object_id@ != tasks[j].object_id@);
        }
        lemma_keepers(front, all);
        let r = keepers(tasks, all);
        let before = keepers(front, all);
        assert forall|i: int| 0 <= i < r.len() implies tasks.contains(#[trigger] r[i]) && keeper(
            all,
            r[i].spec_uid(),
        ) == Some(r[i].object_id@) by {
            if i < before.len() {
                assert(r[i] == before[i]);
                let k = choose|k: int| 0 <= k < front.len() && front[k] == before[i];
                assert(tasks[k] == r[i]);
            } else {
                assert(r[i] == tasks[tasks.len() - 1]);
            }
        }
        assert forall|i: int, j: int| 0 <= i < j < r.len() implies #[trigger] r[i].object_id@
            != #[trigger] r[j].object_id@ by {
            assert(r[i] == before[i]);
            if j < before.len() {
                assert(r[j] == before[j]);
            } else {
                let k = choose|k: int| 0 <= k < front.len() && front[k] == before[i];
                assert(tasks[k].object_id@ != tasks[tasks.len() - 1].object_id@);
            }
        }
    }
}

/// No two tasks that are served share a UID.
pub proof fn law_served_uids_are_distinct(tasks: Seq<Task>)
    requires
        forall|i: int, j: int|
            0 <= i < j < tasks.len() ==> #[trigger] tasks[i].object_id@
                != #[trigger] tasks[j].object_id@,
    ensures
        forall|i: int, j: int|
            0 <= i < j < keepers(tasks, tasks).len() ==> #[trigger] keepers(
                tasks,
                tasks,
            )[i].spec_uid() != #[trigger] keepers(tasks, tasks)[j].spec_uid(),
{
    lemma_keepers(tasks, tasks);
    let r = keepers(tasks, tasks);
    assert forall|i: int, j: int| 0 <= i < j < r.len() implies #[trigger] r[i].spec_uid()
        != #[trigger] r[j].spec_uid() by {
        assert(r[i].object_id@ != r[j].object_id@);
        assert(keeper(tasks, r[i].spec_uid()) == Some(r[i].object_id@));
        assert(keeper(tasks, r[j].spec_uid()) == Some(r[j].object_id@));
    }
}

proof fn lemma_first_with(tasks: Seq<Task>, uid: Text, original: bool)
    ensures
        match first_with(tasks, uid, original) {
            Some(id) => exists|k: int|
                0 <= k < tasks.len() && #[trigger] tasks[k].spec_uid() == uid
                    && tasks[k].object_id@ == id,
            None => original || forall|k: int|
                0 <= k < tasks.len() ==> #[trigger] tasks[k].spec_uid() != uid,
        },
    decreases tasks.len(),
{
    if tasks.len() > 0 {
        let front = tasks.drop_last();
        lemma_first_with(front, uid, original);
        match first_with(front, uid, original) {
            Some(id) => {
                let k = choose|k: int|
                    0 <= k < front.len() && #[trigger] front[k].spec_uid() == uid
                        && front[k].object_id@ == id;
                assert(tasks[k].spec_uid() == uid);
            },
            None => {
                assert(tasks.last() == tasks[tasks.len() - 1]);
                assert forall|k: int| 0 <= k < front.len() && !original implies (
                #[trigger] tasks[k].spec_uid()) != uid by {
                    assert(front[k].spec_uid() != uid);
                }
            },
        }
    }
}

proof fn lemma_keepers_has(tasks: Seq<Task>, all: Seq<Task>, k: int)
    requires
        0 <= k < tasks.len(),
        keeper(all, tasks[k].spec_uid()) == Some(tasks[k].object_id@),
    ensures
        keepers(tasks, all).contains(tasks[k]),
    decreases tasks.len(),
{
    let front = tasks.drop_last();
    let before = keepers(front, all);
    if k < front.len() {
        lemma_keepers_has(front, all, k);
        let i = choose|i: int| 0 <= i < before.len() && before[i] == front[k];
        assert(keepers(tasks, all)[i] == tasks[k]);
    } else {
        assert(keepers(tasks, all)[before.len() as int] == tasks[k]);
    }
}

/// Every UID that some task has is served.
pub proof fn law_every_uid_is_served(tasks: Seq<Task>, i: int)
    requires
        0 <= i < tasks.len(),
    ensures
        exists|k: int|
            0 <= k < keepers(tasks, tasks).len() && #[trigger] keepers(
                tasks,
                tasks,
            )[k].spec_uid() == tasks[i].spec_uid(),
{
    let uid = tasks[i].spec_uid();
    lemma_first_with(tasks, uid, true);
    lemma_first_with(tasks, uid, false);
    assert(keeper(tasks, uid) is Some);
    let id = keeper(tasks, uid)->0;
    let k = choose|k: int|
        0 <= k < tasks.len() && #[trigger] tasks[k].spec_uid() == uid && tasks[k].object_id@ == id;
    lemma_keepers_has(tasks, tasks, k);
    let r = keepers(tasks, tasks);
    let n = choose|n: int| 0 <= n < r.len() && r[n] == tasks[k];
    assert(r[n].spec_uid() == uid);
}

/// A calendar with these members.
pub open spec fn calendar(
    display_name: Text,
    member_id: Option<Text>,
    holders: Seq<Text>,
    objects: Seq<(Text, ResourceView)>,
    ctag: Text,
) -> CollectionView {
    CollectionView {
        display_name,
        member_id,
        account: member_id is Some && holders.contains(member_id->0),
        ctag,
        objects,
    }
}

/// The calendars of the people who may sign in, with nothing in them yet.
pub open spec fn holder_calendars(members: Seq<(Text, Text)>, holders: Seq<Text>) -> Seq<
    (Text, CollectionView),
>
    decreases members.len(),
{
    if members.len() == 0 {
        Seq::empty()
    } else {
        let before = holder_calendars(members.drop_last(), holders);
        let (id, name) = members.last();
        if holders.contains(id) {
            table::put(
                before,
                key_for(id),
                calendar(name, Some(id), holders, Seq::empty(), Seq::empty()),
            )
        } else {
            before
        }
    }
}

/// The calendar that a task is served in: the key of its first assignee's, or of the
/// unassigned.
pub open spec fn calendar_key(task: Task) -> Text {
    if task.assignees@.len() == 0 {
        UNASSIGNED@
    } else {
        key_for(task.assignees@[0]@)
    }
}

/// The calendar that is opened for a task whose own is not there: under the person's
/// name when the directory knows it.
pub open spec fn opened(
    task: Task,
    members: Seq<(Text, Text)>,
    holders: Seq<Text>,
    language: Language,
) -> CollectionView {
    if task.assignees@.len() == 0 {
        calendar(language.nobody()@, None, holders, Seq::empty(), Seq::empty())
    } else {
        let id = task.assignees@[0]@;
        let name = match table::at(members, id) {
            Some(name) => name,
            None => id,
        };
        calendar(name, Some(id), holders, Seq::empty(), Seq::empty())
    }
}

/// The calendars after these tasks were put into them.
pub open spec fn filled_calendars(
    start: Seq<(Text, CollectionView)>,
    tasks: Seq<Task>,
    objects: Seq<(Text, ResourceView)>,
    members: Seq<(Text, Text)>,
    holders: Seq<Text>,
    language: Language,
) -> Seq<(Text, CollectionView)>
    decreases tasks.len(),
{
    if tasks.len() == 0 {
        start
    } else {
        let before = filled_calendars(
            start,
            tasks.drop_last(),
            objects,
            members,
            holders,
            language,
        );
        let task = tasks.last();
        match table::at(objects, task_name(task)) {
            None => before,
            Some(resource) => {
                let into = match table::at(before, calendar_key(task)) {
                    Some(c) => c,
                    None => opened(task, members, holders, language),
                };
                table::put(
                    before,
                    calendar_key(task),
                    CollectionView {
                        objects: table::put(into.objects, task_name(task), resource),
                        ..into
                    },
                )
            },
        }
    }
}

/// The calendars with their tags.
pub open spec fn tagged(s: Seq<(Text, CollectionView)>) -> Seq<(Text, CollectionView)> {
    Seq::new(
        s.len(),
        |i: int| (s[i].0, CollectionView { ctag: ctag_of(s[i].1.objects), ..s[i].1 }),
    )
}

/// One calendar per person, where there is a directory of people.
pub open spec fn calendars_of(
    tasks: Seq<Task>,
    objects: Seq<(Text, ResourceView)>,
    members: Seq<(Text, Text)>,
    holders: Seq<Text>,
    language: Language,
) -> Seq<(Text, CollectionView)> {
    if members.len() == 0 {
        Seq::empty()
    } else {
        let start = table::put(
            holder_calendars(members, holders),
            UNASSIGNED@,
            calendar(language.nobody()@, None, holders, Seq::empty(), Seq::empty()),
        );
        tagged(filled_calendars(start, tasks, objects, members, holders, language))
    }
}

fn empty_calendar(display_name: String, member_id: Option<String>, holders: &Vec<String>) -> (r:
    Collection)
    ensures
        r@ == calendar(
            display_name@,
            text::text_of(member_id),
            text::texts(holders@),
            Seq::empty(),
            Seq::empty(),
        ),
{
    let account = match &member_id {
        Some(id) => text::listed(holders, id.as_str()),
        None => false,
    };
    let r = Collection {
        display_name,
        member_id,
        account,
        ctag: String::new(),
        objects: Table::new(),
    };
    assert(r@.objects == Seq::<(Text, ResourceView)>::empty());
    r
}

fn calendars_of_holders(members: &Table<String>, holders: &Vec<String>) -> (r: Table<Collection>)
    ensures
        table::views(r@) == holder_calendars(table::views(members@), text::texts(holders@)),
{
    let mut r: Table<Collection> = Table::new();
    let mut i: usize = 0;
    let ghost people = table::views(members@);
    assert(table::views(r@) == holder_calendars(people.take(0), text::texts(holders@)));
    while i < members.len()
        invariant
            i <= members@.len(),
            people == table::views(members@),
            table::views(r@) == holder_calendars(people.take(i as int), text::texts(holders@)),
        decreases members@.len() - i,
    {
        let id = members.key(i);
        assert(people.take(i + 1).drop_last() == people.take(i as int));
        assert(people.take(i + 1).last() == (id@, members@[i as int].1@));
        if text::listed(holders, id.as_str()) {
            let fresh = empty_calendar(members.value(i).clone(), Some(id.clone()), holders);
            proof {
                table::lemma_views_put(r@, key_for(id@), fresh);
            }
            r.insert(collection_key(id.as_str()), fresh);
        }
        i += 1;
    }
    assert(people.take(people.len() as int) == people);
    r
}

fn calendar_for(task: &Task, members: &Table<String>, holders: &Vec<String>, language: Language) -> (r:
    Collection)
    ensures
        r@ == opened(*task, table::views(members@), text::texts(holders@), language),
{
    if task.assignees.len() == 0 {
        empty_calendar(language.unassigned().to_owned(), None, holders)
    } else {
        let id = &task.assignees[0];
        proof {
            table::lemma_views_at(members@, id@);
        }
        let name = match members.get(id.as_str()) {
            Some(name) => name.clone(),
            None => id.clone(),
        };
        empty_calendar(name, Some(id.clone()), holders)
    }
}

fn key_of_task(task: &Task) -> (r: String)
    ensures
        r@ == calendar_key(*task),
{
    if task.assignees.len() == 0 {
        UNASSIGNED.to_owned()
    } else {
        collection_key(task.assignees[0].as_str())
    }
}

fn tag_calendars(calendars: Table<Collection>) -> (r: Table<Collection>)
    ensures
        table::views(r@) == tagged(table::views(calendars@)),
        forall|i: int| 0 <= i < r@.len() ==> (#[trigger] r@[i]).0 == calendars@[i].0,
    decreases calendars@.len(),
{
    let mut rest = calendars;
    let ghost all = calendars@;
    match rest.pop() {
        None => {
            assert(table::views(rest@) == tagged(table::views(all)));
            rest
        },
        Some((key, last)) => {
            let ghost front = rest@;
            let mut last = last;
            let ghost before = last@;
            last.ctag = collection_ctag(&last.objects);
            let mut r = tag_calendars(rest);
            let ghost done = r@;
            proof {
                assert(table::views(front).len() == table::views(done).len());
                if done.len() > 0 {
                    let n = done.len() - 1;
                    assert(text::precedes(all[n].0, all[all.len() - 1].0));
                    assert(done[n].0 == front[n].0);
                    text::lemma_precedes(key@, key@, key@);
                }
                assert(table::put(done, key@, last) == done.push((key@, last)));
            }
            r.insert(key, last);
            proof {
                assert(table::views(r@) =~= tagged(table::views(all))) by {
                    assert forall|i: int| 0 <= i < all.len() implies #[trigger] table::views(
                        r@,
                    )[i] == tagged(table::views(all))[i] by {
                        if i < front.len() {
                            assert(table::views(done)[i] == tagged(table::views(front))[i]);
                            assert(all[i] == front[i]);
                        } else {
                            assert(all[i] == (key@, calendars@[i].1));
                            assert(last@ == (CollectionView {
                                ctag: ctag_of(before.objects),
                                ..before
                            }));
                        }
                    }
                }
            }
            r
        },
    }
}

/// Splits the rendered resources into one calendar per person.
///
/// A person gets one when a member of the space stands behind them, which is also
/// what lets them sign in. The directory lists people the space merely describes as
/// well, and a calendar for each of them is noise. Anyone else a task names first
/// still gets a calendar, so that no task is left unserved. A task assigned to
/// several people is served in the first one's calendar only: the calendar app keeps
/// one entry per UID across all its calendars, so a task listed twice belongs to
/// whichever was synced last.
pub fn partition(batch: &TaskBatch, objects: &Table<Resource>, language: Language) -> (r: Table<
    Collection,
>)
    ensures
        table::views(r@) == calendars_of(
            batch.tasks@,
            table::views(objects@),
            table::views(batch.members@),
            text::texts(batch.account_holders@),
            language,
        ),
{
    let ghost people = table::views(batch.members@);
    let ghost holders = text::texts(batch.account_holders@);
    let ghost all = table::views(objects@);
    if batch.members.is_empty() {
        let r: Table<Collection> = Table::new();
        assert(table::views(r@) == Seq::<(Text, CollectionView)>::empty());
        return r;
    }
    let mut calendars = calendars_of_holders(&batch.members, &batch.account_holders);
    let nobody = empty_calendar(language.unassigned().to_owned(), None, &batch.account_holders);
    proof {
        table::lemma_views_put(calendars@, UNASSIGNED@, nobody);
    }
    calendars.insert(UNASSIGNED.to_owned(), nobody);
    let ghost start = table::views(calendars@);
    let mut i: usize = 0;
    while i < batch.tasks.len()
        invariant
            i <= batch.tasks@.len(),
            people == table::views(batch.members@),
            holders == text::texts(batch.account_holders@),
            all == table::views(objects@),
            table::views(calendars@) == filled_calendars(
                start,
                batch.tasks@.take(i as int),
                all,
                people,
                holders,
                language,
            ),
        decreases batch.tasks@.len() - i,
    {
        let task = &batch.tasks[i];
        let name = resource_name(task);
        proof {
            assert(batch.tasks@.take(i + 1).drop_last() == batch.tasks@.take(i as int));
            assert(batch.tasks@.take(i + 1).last() == *task);
            table::lemma_views_at(objects@, name@);
        }
        if let Some(resource) = objects.get(name.as_str()) {
            let key = key_of_task(task);
            let ghost before = calendars@;
            proof {
                table::lemma_views_at(before, key@);
            }
            let sorted_len = calendars.len();
            let mut into = match calendars.remove(key.as_str()) {
                Some(c) => c,
                None => calendar_for(task, &batch.members, &batch.account_holders, language),
            };
            let ghost was = into@;
            let resource = resource.copy();
            proof {
                table::lemma_views_put(into.objects@, name@, resource);
            }
            into.objects.insert(name, resource);
            proof {
                assert(into@ == (CollectionView {
                    objects: table::put(was.objects, task_name(*task), resource@),
                    ..was
                }));
                table::lemma_put_without(before, key@, into);
                table::lemma_views_put(before, key@, into);
            }
            calendars.insert(key, into);
        }
        i += 1;
    }
    assert(batch.tasks@.take(batch.tasks@.len() as int) == batch.tasks@);
    tag_calendars(calendars)
}

/// Whether a calendar holds an entry under a name.
pub open spec fn lists(calendars: Seq<(Text, CollectionView)>, key: Text, name: Text) -> bool {
    match table::at(calendars, key) {
        Some(c) => table::at(c.objects, name) is Some,
        None => false,
    }
}

/// Whether some of the tasks is served under this name in this calendar.
spec fn placed(tasks: Seq<Task>, key: Text, name: Text) -> bool {
    exists|i: int|
        0 <= i < tasks.len() && task_name(#[trigger] tasks[i]) == name && calendar_key(tasks[i])
            == key
}

proof fn lemma_empty_start(
    members: Seq<(Text, Text)>,
    holders: Seq<Text>,
    key: Text,
    name: Text,
)
    ensures
        !lists(holder_calendars(members, holders), key, name),
    decreases members.len(),
{
    if members.len() > 0 {
        lemma_empty_start(members.drop_last(), holders, key, name);
        let (id, shown) = members.last();
        table::lemma_at_put(
            holder_calendars(members.drop_last(), holders),
            key_for(id),
            calendar(shown, Some(id), holders, Seq::empty(), Seq::empty()),
            key,
        );
    }
}

proof fn lemma_filled(
    start: Seq<(Text, CollectionView)>,
    tasks: Seq<Task>,
    objects: Seq<(Text, ResourceView)>,
    members: Seq<(Text, Text)>,
    holders: Seq<Text>,
    language: Language,
    key: Text,
    name: Text,
)
    requires
        table::at(objects, name) is Some,
    ensures
        lists(filled_calendars(start, tasks, objects, members, holders, language), key, name) == (
        lists(start, key, name) || placed(tasks, key, name)),
    decreases tasks.len(),
{
    if tasks.len() > 0 {
        let front = tasks.drop_last();
        let task = tasks.last();
        let before = filled_calendars(start, front, objects, members, holders, language);
        lemma_filled(start, front, objects, members, holders, language, key, name);
        assert(placed(tasks, key, name) == (placed(front, key, name) || (task_name(task) == name
            && calendar_key(task) == key))) by {
            if placed(front, key, name) {
                let i = choose|i: int|
                    0 <= i < front.len() && task_name(#[trigger] front[i]) == name && calendar_key(
                        front[i],
                    ) == key;
                assert(tasks[i] == front[i]);
            }
            if task_name(task) == name && calendar_key(task) == key {
                assert(tasks[tasks.len() - 1] == task);
            }
            if placed(tasks, key, name) {
                let i = choose|i: int|
                    0 <= i < tasks.len() && task_name(#[trigger] tasks[i]) == name && calendar_key(
                        tasks[i],
                    ) == key;
                if i < front.len() {
                    assert(front[i] == tasks[i]);
                }
            }
        }
        match table::at(objects, task_name(task)) {
            None => {},
            Some(resource) => {
                let into = match table::at(before, calendar_key(task)) {
                    Some(c) => c,
                    None => opened(task, members, holders, language),
                };
                let after = CollectionView {
                    objects: table::put(into.objects, task_name(task), resource),
                    ..into
                };
                table::lemma_at_put(before, calendar_key(task), after, key);
                table::lemma_at_put(into.objects, task_name(task), resource, name);
            },
        }
    }
}

proof fn lemma_tagged_at(s: Seq<(Text, CollectionView)>, key: Text)
    ensures
        table::at(tagged(s), key) == (match table::at(s, key) {
            Some(c) => Some(CollectionView { ctag: ctag_of(c.objects), ..c }),
            None => None,
        }),
    decreases s.len(),
{
    if s.len() > 0 {
        lemma_tagged_at(s.drop_last(), key);
        assert(tagged(s).drop_last() == tagged(s.drop_last()));
    }
}

/// Every task that is rendered stands in exactly one calendar: its first assignee's,
/// or that of the unassigned.
pub proof fn law_each_task_is_in_one_calendar(
    tasks: Seq<Task>,
    objects: Seq<(Text, ResourceView)>,
    members: Seq<(Text, Text)>,
    holders: Seq<Text>,
    language: Language,
    i: int,
    key: Text,
)
    requires
        members.len() > 0,
        0 <= i < tasks.len(),
        table::at(objects, task_name(tasks[i])) is Some,
        forall|j: int, k: int|
            0 <= j < k < tasks.len() ==> task_name(#[trigger] tasks[j]) != task_name(
                #[trigger] tasks[k],
            ),
    ensures
        lists(calendars_of(tasks, objects, members, holders, language), key, task_name(tasks[i]))
            == (key == calendar_key(tasks[i])),
{
    let name = task_name(tasks[i]);
    let nobody = calendar(language.nobody()@, None, holders, Seq::empty(), Seq::empty());
    let start = table::put(holder_calendars(members, holders), UNASSIGNED@, nobody);
    lemma_empty_start(members, holders, key, name);
    table::lemma_at_put(holder_calendars(members, holders), UNASSIGNED@, nobody, key);
    lemma_filled(start, tasks, objects, members, holders, language, key, name);
    lemma_tagged_at(
        filled_calendars(start, tasks, objects, members, holders, language),
        key,
    );
    if key == calendar_key(tasks[i]) {
        assert(placed(tasks, key, name));
    } else if placed(tasks, key, name) {
        let j = choose|j: int|
            0 <= j < tasks.len() && task_name(#[trigger] tasks[j]) == name && calendar_key(
                tasks[j],
            ) == key;
        if i < j {
            assert(task_name(tasks[i]) != task_name(tasks[j]));
        } else if j < i {
            assert(task_name(tasks[j]) != task_name(tasks[i]));
        }
    }
}

/// The tasks as resources by name; of two under one name the later one stays.
pub open spec fn objects_of(tasks: Seq<Task>, ics: Seq<Text>) -> Seq<(Text, ResourceView)>
    decreases tasks.len(),
{
    if tasks.len() == 0 || ics.len() != tasks.len() {
        Seq::empty()
    } else {
        table::put(
            objects_of(tasks.drop_last(), ics.drop_last()),
            task_name(tasks.last()),
            served_as(tasks.last().object_id@, ics.last()),
        )
    }
}

/// Every task is served under its own name with its own text, and under the tag of that
/// text, as long as no two tasks have one name.
pub proof fn law_each_task_is_served_under_its_name(tasks: Seq<Task>, ics: Seq<Text>, i: int)
    requires
        ics.len() == tasks.len(),
        0 <= i < tasks.len(),
        forall|j: int, k: int|
            0 <= j < k < tasks.len() ==> task_name(#[trigger] tasks[j]) != task_name(
                #[trigger] tasks[k],
            ),
    ensures
        table::at(objects_of(tasks, ics), task_name(tasks[i])) == Some(
            (ResourceView { object_id: tasks[i].object_id@, ics: ics[i], etag: tag_of(ics[i]) }),
        ),
    decreases tasks.len(),
{
    let last = tasks.len() - 1;
    table::lemma_at_put(
        objects_of(tasks.drop_last(), ics.drop_last()),
        task_name(tasks.last()),
        served_as(tasks.last().object_id@, ics.last()),
        task_name(tasks[i]),
    );
    if i < last {
        assert(task_name(tasks[i]) != task_name(tasks[last]));
        assert forall|j: int, k: int| 0 <= j < k < tasks.drop_last().len() implies task_name(
            #[trigger] tasks.drop_last()[j],
        ) != task_name(#[trigger] tasks.drop_last()[k]) by {
            assert(task_name(tasks[j]) != task_name(tasks[k]));
        }
        law_each_task_is_served_under_its_name(tasks.drop_last(), ics.drop_last(), i);
    }
}

/// A resource is always served under the tag of its text.
pub proof fn law_a_tag_is_that_of_the_text(tasks: Seq<Task>, ics: Seq<Text>, name: Text)
    ensures
        table::at(objects_of(tasks, ics), name) matches Some(resource) ==> resource.etag == tag_of(
            resource.ics,
        ),
    decreases tasks.len(),
{
    if tasks.len() > 0 && ics.len() == tasks.len() {
        law_a_tag_is_that_of_the_text(tasks.drop_last(), ics.drop_last(), name);
        table::lemma_at_put(
            objects_of(tasks.drop_last(), ics.drop_last()),
            task_name(tasks.last()),
            served_as(tasks.last().object_id@, ics.last()),
            name,
        );
    }
}

/// The resource name of each UID.
pub open spec fn names_of(tasks: Seq<Task>) -> Seq<(Text, Text)>
    decreases tasks.len(),
{
    if tasks.len() == 0 {
        Seq::empty()
    } else {
        table::put(
            names_of(tasks.drop_last()),
            tasks.last().spec_uid(),
            task_name(tasks.last()),
        )
    }
}

/// The assignees of the tasks that have several, by resource name.
pub open spec fn shared_of(tasks: Seq<Task>) -> Seq<(Text, Seq<String>)>
    decreases tasks.len(),
{
    if tasks.len() == 0 {
        Seq::empty()
    } else {
        let before = shared_of(tasks.drop_last());
        if tasks.last().assignees@.len() > 1 {
            table::put(before, task_name(tasks.last()), tasks.last().assignees@)
        } else {
            before
        }
    }
}

/// The latest moment at which some task was changed.
pub open spec fn latest(tasks: Seq<Task>) -> Option<Instant>
    decreases tasks.len(),
{
    if tasks.len() == 0 {
        None
    } else {
        match (latest(tasks.drop_last()), tasks.last().last_modified) {
            (Some(a), Some(b)) => if a.total() > b.total() {
                Some(a)
            } else {
                Some(b)
            },
            (None, b) => b,
            (a, None) => a,
        }
    }
}

/// A snapshot as plain values.
#[verifier::ext_equal]
pub struct SnapshotView {
    pub body: Text,
    pub etag: Text,
    pub last_modified: Instant,
    pub objects: Seq<(Text, ResourceView)>,
    pub collections: Seq<(Text, CollectionView)>,
    pub names_by_uid: Seq<(Text, Text)>,
    pub shared: Seq<(Text, Seq<String>)>,
}

impl View for Snapshot {
    type V = SnapshotView;

    open spec fn view(&self) -> SnapshotView {
        SnapshotView {
            body: self.body@,
            etag: self.etag@,
            last_modified: self.last_modified,
            objects: table::views(self.objects@),
            collections: table::views(self.collections@),
            names_by_uid: table::views(self.names_by_uid@),
            shared: table::views(self.shared@),
        }
    }
}

/// What is published of tasks that were rendered as `body` and, one by one, as `ics`.
pub open spec fn published_of(
    tasks: Seq<Task>,
    members: Seq<(Text, Text)>,
    holders: Seq<Text>,
    body: Text,
    ics: Seq<Text>,
    language: Language,
    now: Instant,
) -> SnapshotView {
    let objects = objects_of(tasks, ics);
    SnapshotView {
        body,
        etag: tag_of(body),
        last_modified: match latest(tasks) {
            Some(at) => at,
            None => now,
        },
        objects,
        collections: calendars_of(tasks, objects, members, holders, language),
        names_by_uid: names_of(tasks),
        shared: shared_of(tasks),
    }
}

/// What is published of a batch that was rendered as `body` and, task by task, as
/// `ics`.
pub open spec fn published(
    batch: TaskBatch,
    body: Text,
    ics: Seq<Text>,
    language: Language,
    now: Instant,
) -> SnapshotView {
    published_of(
        batch.tasks@,
        table::views(batch.members@),
        text::texts(batch.account_holders@),
        body,
        ics,
        language,
        now,
    )
}

/// Builds the snapshot of a batch from its renderings.
pub fn publish(
    batch: &TaskBatch,
    body: String,
    ics: &Vec<String>,
    language: Language,
    now: Instant,
) -> (r: Snapshot)
    requires
        ics@.len() == batch.tasks@.len(),
    ensures
        r@ == published(*batch, body@, text::texts(ics@), language, now),
{
    let mut objects: Table<Resource> = Table::new();
    let mut names: Table<String> = Table::new();
    let mut shared: Table<Vec<String>> = Table::new();
    let mut newest: Option<Instant> = None;
    let mut i: usize = 0;
    let ghost tasks = batch.tasks@;
    let ghost rendered = text::texts(ics@);
    assert(table::views(objects@) == objects_of(tasks.take(0), rendered.take(0)));
    assert(table::views(names@) == names_of(tasks.take(0)));
    assert(table::views(shared@) == shared_of(tasks.take(0)));
    while i < batch.tasks.len()
        invariant
            i <= tasks.len(),
            ics@.len() == tasks.len(),
            tasks == batch.tasks@,
            rendered == text::texts(ics@),
            table::views(objects@) == objects_of(tasks.take(i as int), rendered.take(i as int)),
            table::views(names@) == names_of(tasks.take(i as int)),
            table::views(shared@) == shared_of(tasks.take(i as int)),
            newest == latest(tasks.take(i as int)),
        decreases tasks.len() - i,
    {
        let task = &batch.tasks[i];
        proof {
            assert(tasks.take(i + 1).drop_last() == tasks.take(i as int));
            assert(tasks.take(i + 1).last() == *task);
            assert(rendered.take(i + 1).drop_last() == rendered.take(i as int));
            assert(rendered.take(i + 1).last() == ics@[i as int]@);
        }
        let resource = resource_of(task.object_id.as_str(), ics[i].clone());
        let name = resource_name(task);
        let uid = task.uid();
        proof {
            table::lemma_views_put(objects@, name@, resource);
            table::lemma_views_put(names@, uid@, name);
        }
        objects.insert(name.clone(), resource);
        names.insert(uid, name.clone());
        if task.assignees.len() > 1 {
            let people = text::copy_list(&task.assignees);
            proof {
                table::lemma_views_put(shared@, name@, people);
            }
            shared.insert(name, people);
        }
        newest = match (newest, task.last_modified) {
            (Some(a), Some(b)) => if a.is_after(&b) {
                Some(a)
            } else {
                Some(b)
            },
            (None, b) => b,
            (a, None) => a,
        };
        i += 1;
    }
    proof {
        assert(tasks.take(tasks.len() as int) == tasks);
        assert(rendered.take(rendered.len() as int) == rendered);
    }
    let collections = partition(batch, &objects, language);
    Snapshot {
        etag: etag_for(body.as_str()),
        body,
        last_modified: match newest {
            Some(at) => at,
            None => now,
        },
        objects,
        collections,
        names_by_uid: names,
        shared,
    }
}

/// Whether a resource is that of a task: its rendering, under the tag of it.
pub open spec fn is_resource(
    r: ResourceView,
    task: Task,
    config: CalendarConfig,
    reminders: RemindersConfig,
    fallback: Instant,
) -> bool {
    &&& r == served_as(task.object_id@, r.ics)
    &&& render::rendered(seq![task], r.ics, config, reminders, fallback)
}

/// One task exactly as the snapshot would carry it, so that a write is held against the
/// tag that the client was given.
pub fn resource_for(
    task: &Task,
    config: &CalendarConfig,
    reminders: &RemindersConfig,
    fallback: Instant,
) -> (r: Resource)
    requires
        reminders.all_day_time < 86_400,
        render::task_folds(*task, config.language),
        ical::name_folds(config.name@),
    ensures
        is_resource(r@, *task, *config, *reminders, fallback),
{
    let ics = render::render_one(task, config, reminders, fallback);
    resource_of(task.object_id.as_str(), ics)
}

/// Whether texts are those of some tasks: `body` of all of them, and `ics` of each one.
pub open spec fn all_rendered(
    tasks: Seq<Task>,
    body: Text,
    ics: Seq<Text>,
    config: CalendarConfig,
    reminders: RemindersConfig,
    fallback: Instant,
) -> bool {
    &&& render::rendered(tasks, body, config, reminders, fallback)
    &&& ics.len() == tasks.len()
    &&& forall|i: int|
        0 <= i < tasks.len() ==> render::rendered(
            seq![tasks[i]],
            #[trigger] ics[i],
            config,
            reminders,
            fallback,
        )
}

/// Whether a snapshot is that of a batch: what is published of the tasks that keep their
/// UIDs, rendered together and one by one.
pub open spec fn is_snapshot(
    r: SnapshotView,
    batch: TaskBatch,
    config: CalendarConfig,
    reminders: RemindersConfig,
    fallback: Instant,
    now: Instant,
) -> bool {
    let kept = keepers(batch.tasks@, batch.tasks@);
    exists|body: Text, ics: Seq<Text>| #[trigger]
        all_rendered(kept, body, ics, config, reminders, fallback) && r == published_of(
            kept,
            table::views(batch.members@),
            text::texts(batch.account_holders@),
            body,
            ics,
            config.language,
            now,
        )
}

/// The snapshot of what was read of the space.
pub fn snapshot_of_tasks(
    batch: TaskBatch,
    calendar: &CalendarConfig,
    reminders: &RemindersConfig,
    fallback: Instant,
    now: Instant,
) -> (r: Snapshot)
    requires
        reminders.all_day_time < 86_400,
        render::tasks_fold(keepers(batch.tasks@, batch.tasks@), calendar.language),
        ical::name_folds(calendar.name@),
    ensures
        is_snapshot(r@, batch, *calendar, *reminders, fallback, now),
{
    let ghost whole = batch;
    let mut batch = batch;
    keep_distinct_uids(&mut batch.tasks);
    let ghost kept = keepers(whole.tasks@, whole.tasks@);
    let mut tasks: Vec<&Task> = Vec::new();
    let mut ics: Vec<String> = Vec::new();
    let mut i: usize = 0;
    while i < batch.tasks.len()
        invariant
            i <= kept.len(),
            kept == batch.tasks@,
            reminders.all_day_time < 86_400,
            render::tasks_fold(kept, calendar.language),
            ical::name_folds(calendar.name@),
            tasks@.len() == i,
            forall|j: int| 0 <= j < i ==> *(#[trigger] tasks@[j]) == kept[j],
            ics@.len() == i,
            forall|j: int|
                0 <= j < i ==> render::rendered(
                    seq![kept[j]],
                    (#[trigger] ics@[j])@,
                    *calendar,
                    *reminders,
                    fallback,
                ),
        decreases kept.len() - i,
    {
        let task = &batch.tasks[i];
        assert(render::task_folds(kept[i as int], calendar.language));
        ics.push(render::render_one(task, calendar, reminders, fallback));
        tasks.push(task);
        i += 1;
    }
    assert(Seq::new(tasks@.len(), |i: int| *tasks@[i]) =~= kept);
    let body = render::render(&tasks, calendar, reminders, fallback);
    let ghost texts = text::texts(ics@);
    proof {
        assert forall|j: int| 0 <= j < kept.len() implies render::rendered(
            seq![kept[j]],
            #[trigger] texts[j],
            *calendar,
            *reminders,
            fallback,
        ) by {
            assert(texts[j] == ics@[j]@);
        }
        assert(all_rendered(kept, body@, texts, *calendar, *reminders, fallback));
    }
    publish(&batch, body, &ics, calendar.language, now)
}

fn first_under(tasks: &Vec<Task>, uid: &str, original: bool) -> (r: Option<String>)
    ensures
        text::text_of(r) == first_with(tasks@, uid@, original),
{
    let mut r: Option<String> = None;
    let mut i: usize = 0;
    assert(first_with(tasks@.take(0), uid@, original) is None);
    while i < tasks.len()
        invariant
            i <= tasks@.len(),
            text::text_of(r) == first_with(tasks@.take(i as int), uid@, original),
        decreases tasks@.len() - i,
    {
        assert(tasks@.take(i + 1).drop_last() == tasks@.take(i as int));
        assert(tasks@.take(i + 1).last() == tasks@[i as int]);
        if r.is_none() && text::same(tasks[i].uid().as_str(), uid) && (!original
            || tasks[i].ical_uid.is_none()) {
            r = Some(tasks[i].object_id.clone());
        }
        i += 1;
    }
    assert(tasks@.take(tasks@.len() as int) == tasks@);
    r
}

fn keeps_its_uid(tasks: &Vec<Task>, at: usize) -> (r: bool)
    requires
        at < tasks@.len(),
    ensures
        r == (keeper(tasks@, tasks@[at as int].spec_uid()) == Some(tasks@[at as int].object_id@)),
{
    let uid = tasks[at].uid();
    let id = match first_under(tasks, uid.as_str(), true) {
        Some(id) => Some(id),
        None => first_under(tasks, uid.as_str(), false),
    };
    text::is_text(&id, tasks[at].object_id.as_str())
}

/// Whether the tasks that keep their UIDs can all be written.
pub fn can_publish(tasks: &Vec<Task>, language: Language) -> (r: bool)
    ensures
        r == render::tasks_fold(keepers(tasks@, tasks@), language),
{
    let mut i: usize = 0;
    while i < tasks.len()
        invariant
            i <= tasks@.len(),
            render::tasks_fold(keepers(tasks@.take(i as int), tasks@), language),
        decreases tasks@.len() - i,
    {
        assert(tasks@.take(i + 1).drop_last() == tasks@.take(i as int));
        assert(tasks@.take(i + 1).last() == tasks@[i as int]);
        let ghost before = keepers(tasks@.take(i as int), tasks@);
        let ghost now = keepers(tasks@.take(i + 1), tasks@);
        if !render::can_write(&tasks[i], language) && keeps_its_uid(tasks, i) {
            proof {
                lemma_keepers_has(tasks@, tasks@, i as int);
                let kept = keepers(tasks@, tasks@);
                let k = choose|k: int| 0 <= k < kept.len() && kept[k] == tasks@[i as int];
                assert(!render::task_folds(kept[k], language));
            }
            return false;
        }
        proof {
            assert forall|k: int| 0 <= k < now.len() implies render::task_folds(
                #[trigger] now[k],
                language,
            ) by {
                if k < before.len() {
                    assert(now[k] == before[k]);
                }
            }
        }
        i += 1;
    }
    assert(tasks@.take(tasks@.len() as int) == tasks@);
    true
}

/// The tag that a task is listed under is the one that a write to it is held against, as
/// long as the task did not change and no two tasks have one name.
pub proof fn law_a_listed_tag_is_current(
    tasks: Seq<Task>,
    body: Text,
    ics: Seq<Text>,
    fresh: ResourceView,
    i: int,
    config: CalendarConfig,
    reminders: RemindersConfig,
    fallback: Instant,
)
    requires
        all_rendered(tasks, body, ics, config, reminders, fallback),
        0 <= i < tasks.len(),
        is_resource(fresh, tasks[i], config, reminders, fallback),
        forall|j: int, k: int|
            0 <= j < k < tasks.len() ==> task_name(#[trigger] tasks[j]) != task_name(
                #[trigger] tasks[k],
            ),
    ensures
        table::at(objects_of(tasks, ics), task_name(tasks[i])) == Some(fresh),
{
    law_each_task_is_served_under_its_name(tasks, ics, i);
    render::law_rendering_is_determined(
        seq![tasks[i]],
        ics[i],
        fresh.ics,
        config,
        reminders,
        fallback,
    );
}

/// One batch has one snapshot at a time.
pub proof fn law_a_snapshot_is_determined(
    a: SnapshotView,
    b: SnapshotView,
    batch: TaskBatch,
    config: CalendarConfig,
    reminders: RemindersConfig,
    fallback: Instant,
    now: Instant,
)
    requires
        is_snapshot(a, batch, config, reminders, fallback, now),
        is_snapshot(b, batch, config, reminders, fallback, now),
    ensures
        a == b,
{
    let kept = keepers(batch.tasks@, batch.tasks@);
    let members = table::views(batch.members@);
    let holders = text::texts(batch.account_holders@);
    let (x, xs) = choose|body: Text, ics: Seq<Text>| #[trigger]
        all_rendered(kept, body, ics, config, reminders, fallback) && a == published_of(
            kept,
            members,
            holders,
            body,
            ics,
            config.language,
            now,
        );
    let (y, ys) = choose|body: Text, ics: Seq<Text>| #[trigger]
        all_rendered(kept, body, ics, config, reminders, fallback) && b == published_of(
            kept,
            members,
            holders,
            body,
            ics,
            config.language,
            now,
        );
    render::law_rendering_is_determined(kept, x, y, config, reminders, fallback);
    assert forall|i: int| 0 <= i < kept.len() implies xs[i] == ys[i] by {
        render::law_rendering_is_determined(
            seq![kept[i]],
            xs[i],
            ys[i],
            config,
            reminders,
            fallback,
        );
    }
    assert(xs =~= ys);
}

/// What a caller should serve.
#[derive(Debug, Clone)]
pub enum Outcome<'a> {
    /// The most recent refresh attempt succeeded.
    Fresh(&'a Snapshot),
    /// The most recent attempt failed but an earlier body is still held.
    Stale(&'a Snapshot),
    /// No successful refresh has ever completed.
    Unavailable { category: &'static str },
}

/// What a refresh came to.
pub enum Refreshed {
    /// The space was read and rendered: what is published of it.
    Read(Snapshot),
    /// The source answered with an error.
    Failed(SourceError),
    /// The source did not answer in time.
    TimedOut,
    /// What was read could not be rendered.
    Unrendered,
}

impl Refreshed {
    /// The category that a failed refresh is reported under.
    pub open spec fn failure(self) -> Option<&'static str> {
        match self {
            Refreshed::Read(_) => None,
            Refreshed::Failed(err) => Some(err.category()),
            Refreshed::TimedOut => Some("anytype unavailable"),
            Refreshed::Unrendered => Some("exporter misconfigured"),
        }
    }
}

/// What is held between two refreshes.
pub struct FeedState {
    pub snapshot: Option<Snapshot>,
    /// When the last attempt ended, in nanoseconds of a clock that never goes back.
    pub last_attempt: Option<u64>,
    pub last_ok: bool,
    pub last_failure_category: Option<&'static str>,
}

impl FeedState {
    pub fn new() -> (r: FeedState)
        ensures
            r.snapshot is None,
            r.last_attempt is None,
            !r.last_ok,
            r.last_failure_category is None,
    {
        FeedState {
            snapshot: None,
            last_attempt: None,
            last_ok: false,
            last_failure_category: None,
        }
    }

    /// Whether the last attempt is younger than an interval.
    pub open spec fn recent(self, now: u64, interval: crate::time::Span) -> bool {
        self.last_attempt is Some && (if now < self.last_attempt->0 {
            0int
        } else {
            now - self.last_attempt->0
        }) < interval.length()
    }

    /// Whether a request is answered without asking the space again.
    pub open spec fn cached(self, now: u64, interval: crate::time::Span) -> bool {
        self.recent(now, interval) && self.snapshot is Some
    }

    /// What is served of what is held.
    pub open spec fn serves(self, outcome: Outcome<'_>) -> bool {
        match outcome {
            Outcome::Fresh(s) => self.last_ok && self.snapshot == Some(*s),
            Outcome::Stale(s) => !self.last_ok && self.snapshot == Some(*s),
            Outcome::Unavailable { category } => self.snapshot is None && category@ == (
            match self.last_failure_category {
                Some(c) => c@,
                None => "anytype unavailable"@,
            }),
        }
    }

    /// What is held once a refresh came to something: what was read, or else what was held
    /// before it.
    pub open spec fn refreshed_to(self, refreshed: Refreshed, now: u64, after: FeedState) -> bool {
        &&& after.last_attempt == Some(now)
        &&& after.last_ok == (refreshed is Read)
        &&& match refreshed {
            Refreshed::Read(snapshot) => after.snapshot == Some(snapshot),
            _ => after.snapshot == self.snapshot,
        }
        &&& match refreshed.failure() {
            Some(category) => after.last_failure_category is Some
                && after.last_failure_category->0@ == category@,
            None => after.last_failure_category is None,
        }
    }

    /// What is served without asking the space again.
    pub fn cached_within_interval<'a>(&'a self, now: u64, interval: &crate::time::Span) -> (r:
        Option<Outcome<'a>>)
        ensures
            (r is Some) == self.cached(now, *interval),
            r matches Some(outcome) ==> self.serves(outcome),
    {
        let last_attempt = match self.last_attempt {
            Some(at) => at,
            None => {
                return None;
            },
        };
        let elapsed: u64 = if now < last_attempt {
            0
        } else {
            now - last_attempt
        };
        if elapsed as i128 >= interval.in_nanos() {
            return None;
        }
        match &self.snapshot {
            Some(snapshot) => if self.last_ok {
                Some(Outcome::Fresh(snapshot))
            } else {
                Some(Outcome::Stale(snapshot))
            },
            None => None,
        }
    }

    /// What is served after the last attempt.
    pub fn current_outcome<'a>(&'a self) -> (r: Outcome<'a>)
        ensures
            self.serves(r),
    {
        match &self.snapshot {
            Some(snapshot) => if self.last_ok {
                Outcome::Fresh(snapshot)
            } else {
                Outcome::Stale(snapshot)
            },
            None => Outcome::Unavailable {
                category: match self.last_failure_category {
                    Some(c) => c,
                    None => "anytype unavailable",
                },
            },
        }
    }

    /// Forces the next request to read the space again. Called after a write, so a
    /// client's follow-up request sees the new tag instead of a cached one.
    pub fn invalidate(&mut self)
        ensures
            *final(self) == (FeedState { last_attempt: None, ..*old(self) }),
    {
        self.last_attempt = None;
    }

    fn record_failure(&mut self, category: &'static str, now: u64)
        ensures
            final(self).snapshot == old(self).snapshot,
            final(self).last_attempt == Some(now),
            !final(self).last_ok,
            final(self).last_failure_category is Some,
            final(self).last_failure_category->0@ == category@,
    {
        self.last_attempt = Some(now);
        self.last_ok = false;
        self.last_failure_category = Some(category);
    }

    /// Takes in what a refresh came to. A failure leaves the last successful
    /// snapshot in place.
    pub fn refresh(&mut self, refreshed: Refreshed, now: u64)
        ensures
            old(self).refreshed_to(refreshed, now, *final(self)),
    {
        match refreshed {
            Refreshed::Read(snapshot) => {
                self.snapshot = Some(snapshot);
                self.last_attempt = Some(now);
                self.last_ok = true;
                self.last_failure_category = None;
            },
            Refreshed::Failed(err) => {
                self.record_failure(err.public_category(), now);
            },
            Refreshed::TimedOut => {
                self.record_failure("anytype unavailable", now);
            },
            Refreshed::Unrendered => {
                self.record_failure("exporter misconfigured", now);
            },
        }
    }
}

/// What a request is answered that read the space: what it read, where that succeeded. A
/// failure serves what was published before, unchanged and as stale; where there is no
/// such, it is answered with its category. No failure serves an empty calendar.
pub proof fn law_a_read_is_answered(
    before: FeedState,
    refreshed: Refreshed,
    now: u64,
    after: FeedState,
    outcome: Outcome<'_>,
)
    requires
        before.refreshed_to(refreshed, now, after),
        after.serves(outcome),
    ensures
        match (refreshed, before.snapshot) {
            (Refreshed::Read(read), _) => outcome matches Outcome::Fresh(served) && *served == read,
            (_, Some(held)) => outcome matches Outcome::Stale(served) && *served == held,
            (_, None) => outcome matches Outcome::Unavailable { category } && category@
                == refreshed.failure()->0@,
        },
{
}

/// A request reads the space once, and those that follow within the interval do not read
/// it at all: they are served the same. Where nothing was ever published, each reads it
/// again; so does the first one after a write.
pub proof fn law_a_read_serves_the_interval(
    before: FeedState,
    refreshed: Refreshed,
    now: u64,
    after: FeedState,
    later: u64,
    interval: crate::time::Span,
)
    requires
        before.refreshed_to(refreshed, now, after),
        now <= later,
    ensures
        after.cached(later, interval) == (later - now < interval.length() && (refreshed is Read
            || before.snapshot is Some)),
        !(FeedState { last_attempt: None, ..after }).cached(later, interval),
{
}

/// However many refreshes fail, what was published last stays.
pub proof fn law_failures_keep_what_was_published(
    states: Seq<FeedState>,
    outcomes: Seq<Refreshed>,
    times: Seq<u64>,
    n: int,
)
    requires
        0 <= n < states.len(),
        outcomes.len() == states.len(),
        times.len() == states.len(),
        forall|i: int|
            0 < i < states.len() ==> (#[trigger] outcomes[i]) !is Read && states[i
                - 1].refreshed_to(outcomes[i], times[i], states[i]),
    ensures
        states[n].snapshot == states[0].snapshot,
    decreases n,
{
    if n > 0 {
        law_failures_keep_what_was_published(states, outcomes, times, n - 1);
        assert(outcomes[n] !is Read);
    }
}

// ------------------------------------------------------------ whose calendars there are

/// Whether a calendar is one of a person under their key, with the name that the directory
/// has for them or else their id, or that of the unassigned.
pub open spec fn belongs(
    key: Text,
    c: CollectionView,
    members: Seq<(Text, Text)>,
    holders: Seq<Text>,
    language: Language,
) -> bool {
    match c.member_id {
        Some(id) => {
            &&& key == key_for(id)
            &&& c.display_name == (match table::at(members, id) {
                Some(name) => name,
                None => id,
            })
            &&& c.account == holders.contains(id)
        },
        None => key == UNASSIGNED@ && c.display_name == language.nobody()@ && !c.account,
    }
}

/// Whether a member of a calendar is the resource that is served under its name.
pub open spec fn members_served(c: CollectionView, objects: Seq<(Text, ResourceView)>) -> bool {
    forall|name: Text|
        #[trigger] table::at(c.objects, name) is Some ==> table::at(c.objects, name) == table::at(
            objects,
            name,
        )
}

spec fn all_belong(
    s: Seq<(Text, CollectionView)>,
    members: Seq<(Text, Text)>,
    holders: Seq<Text>,
    language: Language,
    objects: Seq<(Text, ResourceView)>,
) -> bool {
    forall|key: Text|
        fits(#[trigger] table::at(s, key), key, members, holders, language, objects)
}

/// Whether a calendar, if there is one, is whose it should be and holds what is served.
spec fn fits(
    calendar: Option<CollectionView>,
    key: Text,
    members: Seq<(Text, Text)>,
    holders: Seq<Text>,
    language: Language,
    objects: Seq<(Text, ResourceView)>,
) -> bool {
    calendar matches Some(c) ==> belongs(key, c, members, holders, language) && members_served(
        c,
        objects,
    )
}

/// Whether no person is listed twice in the directory.
pub open spec fn listed_once(members: Seq<(Text, Text)>) -> bool {
    forall|i: int, j: int|
        0 <= i < j < members.len() ==> (#[trigger] members[i]).0 != (#[trigger] members[j]).0
}

proof fn lemma_directory_at(members: Seq<(Text, Text)>, i: int)
    requires
        listed_once(members),
        0 <= i < members.len(),
    ensures
        table::at(members, members[i].0) == Some(members[i].1),
    decreases members.len(),
{
    let last = members.len() - 1;
    if i < last {
        assert(members[i].0 != members[last].0);
        let front = members.drop_last();
        assert forall|a: int, b: int| 0 <= a < b < front.len() implies (#[trigger] front[a]).0 != (
        #[trigger] front[b]).0 by {
            assert(members[a].0 != members[b].0);
        }
        lemma_directory_at(front, i);
    }
}

proof fn lemma_holder_calendars(
    members: Seq<(Text, Text)>,
    n: int,
    holders: Seq<Text>,
    language: Language,
    objects: Seq<(Text, ResourceView)>,
)
    requires
        listed_once(members),
        0 <= n <= members.len(),
    ensures
        all_belong(
            holder_calendars(members.take(n), holders),
            members,
            holders,
            language,
            objects,
        ),
        forall|i: int|
            0 <= i < n && holders.contains((#[trigger] members[i]).0) ==> table::at(
                holder_calendars(members.take(n), holders),
                key_for(members[i].0),
            ) is Some,
    decreases n,
{
    if n > 0 {
        lemma_holder_calendars(members, n - 1, holders, language, objects);
        assert(members.take(n).drop_last() == members.take(n - 1));
        let (id, name) = members[n - 1];
        assert(members.take(n).last() == members[n - 1]);
        lemma_directory_at(members, n - 1);
        let before = holder_calendars(members.take(n - 1), holders);
        let fresh = calendar(name, Some(id), holders, Seq::empty(), Seq::empty());
        if holders.contains(id) {
            let after = table::put(before, key_for(id), fresh);
            assert forall|key: Text|
                fits(#[trigger] table::at(after, key), key, members, holders, language, objects) by {
                table::lemma_at_put(before, key_for(id), fresh, key);
                assert(fits(table::at(before, key), key, members, holders, language, objects));
            }
            assert forall|i: int| 0 <= i < n && holders.contains(
                (#[trigger] members[i]).0,
            ) implies table::at(after, key_for(members[i].0)) is Some by {
                table::lemma_at_put(before, key_for(id), fresh, key_for(members[i].0));
            }
        }
    }
}

proof fn lemma_filled_belongs(
    start: Seq<(Text, CollectionView)>,
    tasks: Seq<Task>,
    objects: Seq<(Text, ResourceView)>,
    members: Seq<(Text, Text)>,
    holders: Seq<Text>,
    language: Language,
)
    requires
        all_belong(start, members, holders, language, objects),
    ensures
        all_belong(
            filled_calendars(start, tasks, objects, members, holders, language),
            members,
            holders,
            language,
            objects,
        ),
        forall|key: Text|
            table::at(start, key) is Some ==> #[trigger] table::at(
                filled_calendars(start, tasks, objects, members, holders, language),
                key,
            ) is Some,
    decreases tasks.len(),
{
    if tasks.len() > 0 {
        let front = tasks.drop_last();
        let task = tasks.last();
        let before = filled_calendars(start, front, objects, members, holders, language);
        lemma_filled_belongs(start, front, objects, members, holders, language);
        if let Some(resource) = table::at(objects, task_name(task)) {
            let at = calendar_key(task);
            let into = match table::at(before, at) {
                Some(c) => c,
                None => opened(task, members, holders, language),
            };
            let c = CollectionView {
                objects: table::put(into.objects, task_name(task), resource),
                ..into
            };
            let after = table::put(before, at, c);
            assert(belongs(at, into, members, holders, language) && members_served(into, objects));
            assert(members_served(c, objects)) by {
                assert forall|name: Text|
                    #[trigger] table::at(c.objects, name) is Some implies table::at(
                    c.objects,
                    name,
                ) == table::at(objects, name) by {
                    table::lemma_at_put(into.objects, task_name(task), resource, name);
                    assert(table::at(into.objects, name) is Some ==> table::at(into.objects, name)
                        == table::at(objects, name));
                }
            }
            assert forall|key: Text|
                fits(#[trigger] table::at(after, key), key, members, holders, language, objects) by {
                table::lemma_at_put(before, at, c, key);
                assert(fits(table::at(before, key), key, members, holders, language, objects));
            }
            assert forall|key: Text| table::at(start, key) is Some implies #[trigger] table::at(
                after,
                key,
            ) is Some by {
                table::lemma_at_put(before, at, c, key);
                assert(table::at(before, key) is Some);
            }
        }
    }
}

/// Each calendar belongs to the person whose key it is served under: it is named as the
/// directory names them, or by their id, and says whether they may sign in; or it is that
/// of the unassigned. What it holds is what is served under the same name, and its tag is
/// the tag of what it holds. Where there is no directory there are no calendars.
pub proof fn law_each_calendar_is_its_persons(
    tasks: Seq<Task>,
    objects: Seq<(Text, ResourceView)>,
    members: Seq<(Text, Text)>,
    holders: Seq<Text>,
    language: Language,
    key: Text,
)
    requires
        listed_once(members),
    ensures
        table::at(calendars_of(tasks, objects, members, holders, language), key) matches Some(c)
            ==> members.len() > 0 && belongs(key, c, members, holders, language) && members_served(
            c,
            objects,
        ) && c.ctag == ctag_of(c.objects),
{
    if members.len() > 0 {
        let nobody = calendar(language.nobody()@, None, holders, Seq::empty(), Seq::empty());
        let holding = holder_calendars(members, holders);
        let start = table::put(holding, UNASSIGNED@, nobody);
        lemma_holder_calendars(members, members.len() as int, holders, language, objects);
        assert(members.take(members.len() as int) == members);
        assert(all_belong(start, members, holders, language, objects)) by {
            assert forall|key: Text|
                fits(#[trigger] table::at(start, key), key, members, holders, language, objects) by {
                table::lemma_at_put(holding, UNASSIGNED@, nobody, key);
                assert(fits(table::at(holding, key), key, members, holders, language, objects));
            }
        }
        lemma_filled_belongs(start, tasks, objects, members, holders, language);
        let filled = filled_calendars(start, tasks, objects, members, holders, language);
        lemma_tagged_at(filled, key);
        if let Some(c) = table::at(filled, key) {
            assert(belongs(key, c, members, holders, language) && members_served(c, objects));
            let t = CollectionView { ctag: ctag_of(c.objects), ..c };
            assert(members_served(t, objects)) by {
                assert forall|name: Text|
                    #[trigger] table::at(t.objects, name) is Some implies table::at(
                    t.objects,
                    name,
                ) == table::at(objects, name) by {
                    assert(table::at(c.objects, name) is Some);
                }
            }
        }
    }
}

/// Everybody who may sign in has a calendar, with or without tasks, and so have the
/// unassigned.
pub proof fn law_who_signs_in_has_a_calendar(
    tasks: Seq<Task>,
    objects: Seq<(Text, ResourceView)>,
    members: Seq<(Text, Text)>,
    holders: Seq<Text>,
    language: Language,
    i: int,
)
    requires
        listed_once(members),
        0 <= i < members.len(),
    ensures
        ({
            let all = calendars_of(tasks, objects, members, holders, language);
            &&& holders.contains(members[i].0) ==> table::at(all, key_for(members[i].0)) is Some
            &&& table::at(all, UNASSIGNED@) is Some
        }),
{
    let nobody = calendar(language.nobody()@, None, holders, Seq::empty(), Seq::empty());
    let holding = holder_calendars(members, holders);
    let start = table::put(holding, UNASSIGNED@, nobody);
    lemma_holder_calendars(members, members.len() as int, holders, language, objects);
    assert(members.take(members.len() as int) == members);
    assert(all_belong(start, members, holders, language, objects)) by {
        assert forall|key: Text|
                fits(#[trigger] table::at(start, key), key, members, holders, language, objects) by {
            table::lemma_at_put(holding, UNASSIGNED@, nobody, key);
            assert(fits(table::at(holding, key), key, members, holders, language, objects));
        }
    }
    lemma_filled_belongs(start, tasks, objects, members, holders, language);
    let filled = filled_calendars(start, tasks, objects, members, holders, language);
    let own = key_for(members[i].0);
    table::lemma_at_put(holding, UNASSIGNED@, nobody, own);
    table::lemma_at_put(holding, UNASSIGNED@, nobody, UNASSIGNED@);
    lemma_tagged_at(filled, own);
    lemma_tagged_at(filled, UNASSIGNED@);
    if holders.contains(members[i].0) {
        assert(table::at(start, own) is Some);
        assert(table::at(filled, own) is Some);
    }
    assert(table::at(start, UNASSIGNED@) is Some);
    assert(table::at(filled, UNASSIGNED@) is Some);
}

/// A task is found by its UID: the snapshot gives the name of a task that has it, for the
/// UID of every task.
pub proof fn law_a_task_is_found_by_its_uid(tasks: Seq<Task>, uid: Text)
    ensures
        match table::at(names_of(tasks), uid) {
            Some(name) => exists|i: int|
                0 <= i < tasks.len() && #[trigger] tasks[i].spec_uid() == uid && task_name(tasks[i])
                    == name,
            None => forall|i: int|
                0 <= i < tasks.len() ==> #[trigger] tasks[i].spec_uid() != uid,
        },
    decreases tasks.len(),
{
    if tasks.len() > 0 {
        let front = tasks.drop_last();
        let last = tasks.len() - 1;
        law_a_task_is_found_by_its_uid(front, uid);
        table::lemma_at_put(
            names_of(front),
            tasks.last().spec_uid(),
            task_name(tasks.last()),
            uid,
        );
        assert(tasks[last] == tasks.last());
        if tasks[last].spec_uid() != uid {
            match table::at(names_of(front), uid) {
                Some(name) => {
                    let i = choose|i: int|
                        0 <= i < front.len() && #[trigger] front[i].spec_uid() == uid && task_name(
                            front[i],
                        ) == name;
                    assert(tasks[i].spec_uid() == uid);
                },
                None => {
                    assert forall|i: int| 0 <= i < tasks.len() implies (
                    #[trigger] tasks[i].spec_uid()) != uid by {
                        if i < last {
                            assert(front[i].spec_uid() != uid);
                        }
                    }
                },
            }
        }
    }
}

/// A task counts as shared exactly where it has more than one assignee, and the snapshot
/// then gives all of them, as long as no two tasks have one name.
pub proof fn law_what_several_people_share_is_known(tasks: Seq<Task>, i: int)
    requires
        0 <= i < tasks.len(),
        forall|j: int, k: int|
            0 <= j < k < tasks.len() ==> task_name(#[trigger] tasks[j]) != task_name(
                #[trigger] tasks[k],
            ),
    ensures
        table::at(shared_of(tasks), task_name(tasks[i])) == (if tasks[i].assignees@.len() > 1 {
            Some(tasks[i].assignees@)
        } else {
            None
        }),
    decreases tasks.len(),
{
    let front = tasks.drop_last();
    let last = tasks.len() - 1;
    let before = shared_of(front);
    assert forall|j: int, k: int| 0 <= j < k < front.len() implies task_name(#[trigger] front[j])
        != task_name(#[trigger] front[k]) by {
        assert(task_name(tasks[j]) != task_name(tasks[k]));
    }
    if tasks.last().assignees@.len() > 1 {
        table::lemma_at_put(
            before,
            task_name(tasks.last()),
            tasks.last().assignees@,
            task_name(tasks[i]),
        );
    }
    if i < last {
        assert(task_name(tasks[i]) != task_name(tasks[last]));
        law_what_several_people_share_is_known(front, i);
    } else {
        lemma_not_shared_before(tasks, last);
    }
}

proof fn lemma_not_shared_before(tasks: Seq<Task>, n: int)
    requires
        0 <= n < tasks.len(),
        forall|j: int, k: int|
            0 <= j < k < tasks.len() ==> task_name(#[trigger] tasks[j]) != task_name(
                #[trigger] tasks[k],
            ),
    ensures
        table::at(shared_of(tasks.take(n)), task_name(tasks[n])) is None,
        n == tasks.len() - 1 ==> table::at(
            shared_of(tasks.drop_last()),
            task_name(tasks.last()),
        ) is None,
{
    lemma_not_shared(tasks, n, n);
    assert(n == tasks.len() - 1 ==> tasks.take(n) == tasks.drop_last());
}

proof fn lemma_not_shared(tasks: Seq<Task>, m: int, n: int)
    requires
        0 <= m <= n < tasks.len(),
        forall|j: int, k: int|
            0 <= j < k < tasks.len() ==> task_name(#[trigger] tasks[j]) != task_name(
                #[trigger] tasks[k],
            ),
    ensures
        table::at(shared_of(tasks.take(m)), task_name(tasks[n])) is None,
    decreases m,
{
    if m > 0 {
        lemma_not_shared(tasks, m - 1, n);
        assert(tasks.take(m).drop_last() == tasks.take(m - 1));
        assert(tasks.take(m).last() == tasks[m - 1]);
        assert(task_name(tasks[m - 1]) != task_name(tasks[n]));
        if tasks[m - 1].assignees@.len() > 1 {
            table::lemma_at_put(
                shared_of(tasks.take(m - 1)),
                task_name(tasks[m - 1]),
                tasks[m - 1].assignees@,
                task_name(tasks[n]),
            );
        }
    }
}

/// A snapshot was changed last when its task that was changed last was: no task was changed
/// later, and one was changed at that moment.
pub proof fn law_the_latest_change_counts(tasks: Seq<Task>)
    ensures
        match latest(tasks) {
            Some(at) => (forall|i: int|
                0 <= i < tasks.len() ==> ((#[trigger] tasks[i]).last_modified matches Some(other)
                    ==> other.total() <= at.total())) && exists|i: int|
                0 <= i < tasks.len() && (#[trigger] tasks[i]).last_modified == Some(at),
            None => forall|i: int|
                0 <= i < tasks.len() ==> (#[trigger] tasks[i]).last_modified is None,
        },
    decreases tasks.len(),
{
    if tasks.len() > 0 {
        let front = tasks.drop_last();
        let last = tasks.len() - 1;
        law_the_latest_change_counts(front);
        assert(tasks[last] == tasks.last());
        assert forall|i: int| 0 <= i < last implies #[trigger] tasks[i] == front[i] by {}
        if let Some(at) = latest(front) {
            let i = choose|i: int|
                0 <= i < front.len() && (#[trigger] front[i]).last_modified == Some(at);
            assert(tasks[i].last_modified == Some(at));
        }
    }
}

/// A task whose UID is made of its own id keeps it, whatever other task names the same: the
/// original stays, and a copy gives way.
pub proof fn law_the_original_keeps_its_uid(tasks: Seq<Task>, i: int)
    requires
        0 <= i < tasks.len(),
        tasks[i].ical_uid is None,
    ensures
        keeper(tasks, tasks[i].spec_uid()) matches Some(id) && exists|k: int|
            0 <= k < tasks.len() && (#[trigger] tasks[k]).object_id@ == id && tasks[k].ical_uid
                is None && tasks[k].spec_uid() == tasks[i].spec_uid(),
{
    lemma_first_original(tasks, tasks[i].spec_uid(), i);
}

proof fn lemma_first_original(tasks: Seq<Task>, uid: Text, i: int)
    requires
        0 <= i < tasks.len(),
        tasks[i].ical_uid is None,
        tasks[i].spec_uid() == uid,
    ensures
        first_with(tasks, uid, true) matches Some(id) && exists|k: int|
            0 <= k < tasks.len() && (#[trigger] tasks[k]).object_id@ == id && tasks[k].ical_uid
                is None && tasks[k].spec_uid() == uid,
    decreases tasks.len(),
{
    let front = tasks.drop_last();
    let last = tasks.len() - 1;
    assert(tasks[last] == tasks.last());
    lemma_first_is_original(front, uid);
    if first_with(front, uid, true) is Some {
        let k = choose|k: int|
            0 <= k < front.len() && (#[trigger] front[k]).object_id@ == first_with(
                front,
                uid,
                true,
            )->0 && front[k].ical_uid is None && front[k].spec_uid() == uid;
        assert(tasks[k] == front[k]);
    } else if i < last {
        lemma_first_original(front, uid, i);
    } else {
        assert(tasks[last].object_id@ == first_with(tasks, uid, true)->0);
    }
}

proof fn lemma_first_is_original(tasks: Seq<Task>, uid: Text)
    ensures
        first_with(tasks, uid, true) matches Some(id) ==> exists|k: int|
            0 <= k < tasks.len() && (#[trigger] tasks[k]).object_id@ == id && tasks[k].ical_uid
                is None && tasks[k].spec_uid() == uid,
    decreases tasks.len(),
{
    if tasks.len() > 0 {
        let front = tasks.drop_last();
        let last = tasks.len() - 1;
        lemma_first_is_original(front, uid);
        assert(tasks[last] == tasks.last());
        if first_with(front, uid, true) is Some {
            let k = choose|k: int|
                0 <= k < front.len() && (#[trigger] front[k]).object_id@ == first_with(
                    front,
                    uid,
                    true,
                )->0 && front[k].ical_uid is None && front[k].spec_uid() == uid;
            assert(tasks[k] == front[k]);
        } else if first_with(tasks, uid, true) is Some {
            assert(tasks[last].object_id@ == first_with(tasks, uid, true)->0);
        }
    }
}

} // verus!
