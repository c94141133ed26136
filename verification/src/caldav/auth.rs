//! Who may use the facade: the shared login and the accounts per person.
use vstd::prelude::*;
use vstd::utf8::*;

use super::{NAMES, SETTINGS};
use crate::accounts;
use crate::accounts::Accounts;
use crate::digest;
use crate::feed;
use crate::feed::{Collection, CollectionView, Snapshot};
use crate::table;
use crate::table::Table;
use crate::text;
use crate::text::Text;

verus! {

/// Who may use the facade. The password is only ever held as a digest.
pub struct Credentials {
    username: String,
    password_digest: Vec<u8>,
    /// Set when every person of the space has an account of their own.
    accounts: Option<Accounts>,
}

/// Who a request was made by.
#[derive(Debug, Clone, PartialEq, Eq)]
pub enum Reader {
    /// The one configured username and password: nobody in particular.
    Shared,
    /// A person of the space, by the id their calendar is kept under.
    Person(String),
}

/// The person that a reader is.
pub open spec fn person_view(reader: Reader) -> Option<Text> {
    match reader {
        Reader::Shared => None,
        Reader::Person(id) => Some(id@),
    }
}

/// A place of storage, a person's own beside the shared one.
pub open spec fn storage_of(base: Text, person: Option<Text>) -> Text {
    match person {
        None => base,
        Some(id) => base + feed::key_for(id) + "/"@,
    }
}

impl Reader {
    fn storage(&self, base: &str) -> (r: String)
        ensures
            r@ == storage_of(base@, person_view(*self)),
    {
        match self {
            Reader::Shared => base.to_owned(),
            Reader::Person(id) => {
                let mut r = base.to_owned();
                r.append(accounts::username(id.as_str()).as_str());
                r.append("/");
                r
            },
        }
    }

    /// Where this reader's client documents are kept. A person's are their own: the
    /// calendar app syncs its settings as one document per account, so people sharing
    /// a collection would overwrite each other's.
    pub fn settings_storage(&self) -> (r: String)
        ensures
            r@ == storage_of(SETTINGS@, person_view(*self)),
    {
        self.storage(SETTINGS)
    }

    /// Where this reader's names for the calendars are kept. Two instances, or two
    /// people, see the same collections under names of their own.
    pub fn names_storage(&self) -> (r: String)
        ensures
            r@ == storage_of(NAMES@, person_view(*self)),
    {
        self.storage(NAMES)
    }
}

/// People whose calendars have different keys do not share a place of storage, and
/// nobody shares the place of the shared login.
pub proof fn law_readers_do_not_share_storage(base: Text, a: Text, b: Text)
    requires
        feed::key_for(a) != feed::key_for(b),
    ensures
        storage_of(base, Some(a)) != storage_of(base, Some(b)),
        storage_of(base, Some(a)) != storage_of(base, None),
{
    reveal_strlit("/");
    let x = storage_of(base, Some(a));
    let y = storage_of(base, Some(b));
    assert(x.len() == base.len() + feed::key_for(a).len() + 1);
    assert(y.len() == base.len() + feed::key_for(b).len() + 1);
    if x == y {
        assert(feed::key_for(a) =~= x.subrange(base.len() as int, x.len() - 1));
        assert(feed::key_for(b) =~= y.subrange(base.len() as int, y.len() - 1));
    }
}

/// A text at its first colon.
pub open spec fn at_colon(s: Text) -> Option<(Text, Text)> {
    let at = text::index_of(s, ':');
    if at < s.len() {
        Some((s.take(at), s.skip(at + 1)))
    } else {
        None
    }
}

/// The username and password that a header carries.
pub open spec fn basic_of(header: Option<Text>) -> Option<(Text, Text)> {
    match header {
        None => None,
        Some(value) => match text::after_prefix(value, "Basic "@) {
            None => None,
            Some(encoded) => match digest::base64_bytes(text::trimmed(encoded)) {
                None => None,
                Some(bytes) => if valid_utf8(bytes) {
                    at_colon(decode_utf8(bytes))
                } else {
                    None
                },
            },
        },
    }
}

pub open spec fn pair_view(pair: Option<(String, String)>) -> Option<(Text, Text)> {
    match pair {
        Some((a, b)) => Some((a@, b@)),
        None => None,
    }
}

/// The username and password of some decoded bytes.
pub fn split_credentials(decoded: Vec<u8>) -> (r: Option<(String, String)>)
    ensures
        pair_view(r) == (if valid_utf8(decoded@) {
            at_colon(decode_utf8(decoded@))
        } else {
            None
        }),
{
    match digest::from_utf8(decoded) {
        None => None,
        Some(s) => {
            proof {
                encode_utf8_valid_utf8(s@);
                encode_utf8_decode_utf8(s@);
            }
            let n = s.as_str().unicode_len();
            let at = text::position(s.as_str(), ':');
            if at < n {
                let user = text::part(s.as_str(), 0, at);
                let password = text::part(s.as_str(), at + 1, n);
                assert(user@ == s@.take(at as int));
                assert(password@ == s@.skip(at + 1));
                Some((user.to_owned(), password.to_owned()))
            } else {
                None
            }
        },
    }
}

/// The username and password of an `Authorization: Basic …` header.
pub fn basic(header: Option<&str>) -> (r: Option<(String, String)>)
    ensures
        pair_view(r) == basic_of(
            match header {
                Some(value) => Some(value@),
                None => None,
            },
        ),
{
    match header {
        None => None,
        Some(value) => match text::strip_prefix(value, "Basic ") {
            None => None,
            Some(encoded) => match digest::from_base64(text::trim(encoded)) {
                None => None,
                Some(decoded) => split_credentials(decoded),
            },
        },
    }
}

/// The people whose calendars have an account.
pub open spec fn account_people(collections: Seq<(Text, CollectionView)>) -> Seq<Text>
    decreases collections.len(),
{
    if collections.len() == 0 {
        Seq::empty()
    } else {
        let before = account_people(collections.drop_last());
        let one = collections.last().1;
        if one.account && one.member_id is Some {
            before.push(one.member_id->0)
        } else {
            before
        }
    }
}

spec fn str_views(v: Seq<&str>) -> Seq<Text> {
    Seq::new(v.len(), |i: int| v[i]@)
}

fn people_of<'a>(collections: &'a Table<Collection>) -> (r: Vec<&'a str>)
    ensures
        Seq::new(r@.len(), |i: int| r@[i]@) == account_people(table::views(collections@)),
{
    let mut r: Vec<&'a str> = Vec::new();
    let ghost all = table::views(collections@);
    let mut i: usize = 0;
    assert(str_views(r@) == account_people(all.take(0)));
    while i < collections.len()
        invariant
            i <= collections@.len(),
            all == table::views(collections@),
            str_views(r@) == account_people(all.take(i as int)),
        decreases collections@.len() - i,
    {
        let one = collections.value(i);
        assert(all.take(i + 1).drop_last() == all.take(i as int));
        assert(all.take(i + 1).last().1 == one@);
        let ghost before = r@;
        if one.account {
            if let Some(id) = &one.member_id {
                r.push(id.as_str());
                assert(str_views(r@) == str_views(before).push(id@));
            }
        }
        i += 1;
    }
    assert(all.take(all.len() as int) == all);
    assert(str_views(r@) == Seq::new(r@.len(), |i: int| r@[i]@));
    r
}

/// Who signed in.
#[verifier::ext_equal]
pub enum Signed {
    Nobody,
    Shared,
    Person(Text),
}

impl Credentials {
    pub closed spec fn name(self) -> Text {
        self.username@
    }

    pub closed spec fn digest(self) -> Seq<u8> {
        self.password_digest@
    }

    /// The secret that the accounts are derived from.
    pub closed spec fn secret(self) -> Option<Seq<u8>> {
        match self.accounts {
            Some(accounts) => Some(accounts.key()),
            None => None,
        }
    }

    #[verifier::type_invariant]
    spec fn held(self) -> bool {
        self.password_digest@.len() == 32
    }

    pub fn new(username: &str, password: &str) -> (r: Credentials)
        ensures
            r.name() == username@,
            r.digest() == digest::sha256(encode_utf8(password@)),
            r.secret() is None,
    {
        Credentials {
            username: username.to_owned(),
            password_digest: digest::sha256_of(password.as_bytes()),
            accounts: None,
        }
    }

    /// Also accepts the account of every person who may sign in, derived from this
    /// secret.
    pub fn with_accounts(self, secret: &str) -> (r: Credentials)
        ensures
            r.name() == self.name(),
            r.digest() == self.digest(),
            r.secret() == Some(encode_utf8(secret@)),
    {
        proof {
            use_type_invariant(&self);
        }
        Credentials {
            username: self.username,
            password_digest: self.password_digest,
            accounts: Some(Accounts::new(secret)),
        }
    }

    /// Whether a username and a password are the configured ones.
    pub open spec fn recognizes(self, pair: Option<(Text, Text)>) -> bool {
        match pair {
            Some((user, password)) => user == self.name() && digest::sha256(encode_utf8(password))
                == self.digest(),
            None => false,
        }
    }

    fn recognize(&self, pair: &Option<(String, String)>) -> (r: bool)
        ensures
            r == self.recognizes(pair_view(*pair)),
    {
        proof {
            use_type_invariant(self);
        }
        match pair {
            None => false,
            Some((user, password)) => {
                let sent = digest::sha256_of(password.as_str().as_bytes());
                let same_password = accounts::same_digest(&sent, &self.password_digest);
                let same_name = text::same(user.as_str(), self.username.as_str());
                same_password && same_name
            },
        }
    }

    /// Checks an `Authorization: Basic …` header. The password comparison runs over
    /// fixed-length digests so its duration does not depend on how much of the
    /// password matched.
    pub fn accepts(&self, header: Option<&str>) -> (r: bool)
        ensures
            r == self.recognizes(
                basic_of(
                    match header {
                        Some(value) => Some(value@),
                        None => None,
                    },
                ),
            ),
    {
        self.recognize(&basic(header))
    }

    /// Who a username and a password belong to.
    pub open spec fn signed(
        self,
        pair: Option<(Text, Text)>,
        collections: Option<Seq<(Text, CollectionView)>>,
    ) -> Signed {
        if self.recognizes(pair) {
            Signed::Shared
        } else {
            match (self.secret(), pair, collections) {
                (Some(secret), Some((user, password)), Some(collections)) =>
                match accounts::person_of(secret, user, password, account_people(collections)) {
                    Some(id) => Signed::Person(id),
                    None => Signed::Nobody,
                },
                _ => Signed::Nobody,
            }
        }
    }

    /// Who these credentials belong to, where they have been read.
    pub fn reader_of(&self, pair: &Option<(String, String)>, snapshot: Option<&Snapshot>) -> (r:
        Option<Reader>)
        ensures
            self.signed(
                pair_view(*pair),
                match snapshot {
                    Some(snapshot) => Some(snapshot@.collections),
                    None => None,
                },
            ) == (match r {
                None => Signed::Nobody,
                Some(Reader::Shared) => Signed::Shared,
                Some(Reader::Person(id)) => Signed::Person(id@),
            }),
    {
        if self.recognize(pair) {
            return Some(Reader::Shared);
        }
        match (&self.accounts, pair, snapshot) {
            (Some(accounts), Some((user, password)), Some(snapshot)) => {
                let people = people_of(&snapshot.collections);
                match accounts.person(user.as_str(), password.as_str(), &people) {
                    Some(id) => Some(Reader::Person(id.to_owned())),
                    None => None,
                }
            },
            _ => None,
        }
    }

    /// Who signed in, if anyone. A person is looked up among the calendars of the
    /// current snapshot, so an account exists exactly as long as the directory says it
    /// does; without a snapshot no person signs in.
    pub fn reader(&self, header: Option<&str>, snapshot: Option<&Snapshot>) -> (r: Option<Reader>)
        ensures
            self.signed(
                basic_of(
                    match header {
                        Some(value) => Some(value@),
                        None => None,
                    },
                ),
                match snapshot {
                    Some(snapshot) => Some(snapshot@.collections),
                    None => None,
                },
            ) == (match r {
                None => Signed::Nobody,
                Some(Reader::Shared) => Signed::Shared,
                Some(Reader::Person(id)) => Signed::Person(id@),
            }),
    {
        self.reader_of(&basic(header), snapshot)
    }
}

/// Exactly those people may sign in whose calendars have an account.
pub proof fn law_whose_calendar_has_an_account(
    collections: Seq<(Text, CollectionView)>,
    person: Text,
)
    ensures
        account_people(collections).contains(person) <==> exists|i: int|
            0 <= i < collections.len() && (#[trigger] collections[i]).1.account
                && collections[i].1.member_id == Some(person),
    decreases collections.len(),
{
    if collections.len() > 0 {
        let front = collections.drop_last();
        let before = account_people(front);
        let all = account_people(collections);
        let last = collections.len() - 1;
        law_whose_calendar_has_an_account(front, person);
        assert(collections[last] == collections.last());
        if all.contains(person) {
            let m = choose|m: int| 0 <= m < all.len() && all[m] == person;
            if m < before.len() {
                assert(before[m] == person);
                let i = choose|i: int|
                    0 <= i < front.len() && (#[trigger] front[i]).1.account
                        && front[i].1.member_id == Some(person);
                assert(collections[i] == front[i]);
            }
        }
        if exists|i: int|
            0 <= i < collections.len() && (#[trigger] collections[i]).1.account
                && collections[i].1.member_id == Some(person) {
            let i = choose|i: int|
                0 <= i < collections.len() && (#[trigger] collections[i]).1.account
                    && collections[i].1.member_id == Some(person);
            if i < last {
                assert(front[i] == collections[i]);
                let m = choose|m: int| 0 <= m < before.len() && before[m] == person;
                assert(all[m] == person);
            } else {
                assert(all[all.len() - 1] == person);
            }
        }
    }
}

/// The configured pair signs in everyone together. Any other signs in one person at most:
/// one whose calendar has an account, with the password that their account has; and without
/// accounts, or without credentials, nobody.
pub proof fn law_who_signs_in(
    credentials: Credentials,
    pair: Option<(Text, Text)>,
    collections: Seq<(Text, CollectionView)>,
)
    ensures
        credentials.signed(pair, Some(collections)) is Shared <==> credentials.recognizes(pair),
        credentials.signed(pair, Some(collections)) matches Signed::Person(id)
            ==> account_people(collections).contains(id) && credentials.secret() is Some && pair
            is Some && accounts::signs_in(
            credentials.secret()->0,
            (pair->0).0,
            (pair->0).1,
            id,
        ),
        forall|i: int|
            0 <= i < account_people(collections).len() && credentials.secret() is Some && pair
                is Some && accounts::signs_in(
                credentials.secret()->0,
                (pair->0).0,
                (pair->0).1,
                #[trigger] account_people(collections)[i],
            ) ==> credentials.signed(pair, Some(collections)) !is Nobody,
        credentials.signed(None, Some(collections)) is Nobody,
        credentials.signed(pair, None) is Person ==> false,
{
    if let (Some(secret), Some((user, password))) = (credentials.secret(), pair) {
        accounts::law_only_the_right_pair_signs_in(
            secret,
            user,
            password,
            account_people(collections),
        );
    }
}

/// A pair of a user name without a colon and a password is read from the header that
/// carries it, whatever the password holds.
pub proof fn law_a_pair_is_read_from_its_header(user: Text, password: Text, encoded: Text)
    requires
        !user.contains(':'),
        digest::base64_bytes(text::trimmed(encoded)) matches Some(bytes) && valid_utf8(bytes)
            && decode_utf8(bytes) == user + ":"@ + password,
    ensures
        basic_of(Some("Basic "@ + encoded)) == Some((user, password)),
        basic_of(None) is None,
{
    reveal_strlit(":");
    let value = "Basic "@ + encoded;
    assert(value.subrange(0, "Basic "@.len() as int) == "Basic "@);
    assert(value.subrange("Basic "@.len() as int, value.len() as int) == encoded);
    let s = user + ":"@ + password;
    assert forall|j: int| 0 <= j < user.len() implies s[j] != ':' by {
        assert(s[j] == user[j]);
        if user[j] == ':' {
            assert(user.contains(':'));
        }
    }
    assert(s[user.len() as int] == ':');
    text::lemma_index_of(s, ':', user.len() as int);
    assert(s.take(user.len() as int) == user);
    assert(s.skip(user.len() as int + 1) == password);
}

} // verus!
