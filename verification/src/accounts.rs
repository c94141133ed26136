//! An account per person, derived and never stored.
//!
//! The username is the key of that person's calendar and the password is an
//! HMAC-SHA256 (RFC 2104) of the person's id under one server secret. A person who
//! joins the space has an account after the next refresh, and changing the secret
//! changes every password at once.
use vstd::prelude::*;
use vstd::utf8::encode_utf8;

use crate::digest;
use crate::feed;
use crate::object;
use crate::object::Object;
use crate::text;
use crate::text::Text;

verus! {

/// The bundled type of the objects a space keeps for the people in it.
pub const PROFILE_TYPE_KEY: &'static str = "profile";

/// Space memberships are addressed as `_participant_<space>_<identity>`.
pub const PARTICIPANT_PREFIX: &'static str = "_participant_";

/// Ten bytes are eighty bits, which base32 writes as sixteen characters with no
/// padding.
pub const PASSWORD_BYTES: usize = 10;

/// The name a person signs in with: the key of their own calendar.
pub fn username(person_id: &str) -> (r: String)
    ensures
        r@ == feed::key_for(person_id@),
{
    feed::collection_key(person_id)
}

// ------------------------------------------------------------------ base32

/// The number that bits stand for, the first one the highest.
pub open spec fn bits_value(bits: Seq<int>) -> int
    decreases bits.len(),
{
    if bits.len() == 0 {
        0
    } else {
        bits_value(bits.drop_last()) * 2 + bits.last()
    }
}

/// The eight bits of a byte, the highest first.
pub open spec fn byte_bits(b: u8) -> Seq<int> {
    seq![
        b as int / 128 % 2,
        b as int / 64 % 2,
        b as int / 32 % 2,
        b as int / 16 % 2,
        b as int / 8 % 2,
        b as int / 4 % 2,
        b as int / 2 % 2,
        b as int % 2,
    ]
}

/// The bits of bytes.
pub open spec fn bits_of(bytes: Seq<u8>) -> Seq<int>
    decreases bytes.len(),
{
    if bytes.len() == 0 {
        Seq::empty()
    } else {
        byte_bits(bytes[0]) + bits_of(bytes.drop_first())
    }
}

/// The character of a number below thirty-two: RFC 4648 base32, in lower case. A
/// password is typed or pasted once, and lower case reads better in a message.
pub open spec fn base32_char(n: int) -> char {
    if n < 26 {
        ('a' as int + n) as char
    } else {
        ('2' as int + n - 26) as char
    }
}

/// A character of the alphabet.
pub open spec fn in_alphabet(c: char) -> bool {
    'a' <= c <= 'z' || '2' <= c <= '7'
}

/// The bits in groups of five, the last one filled up with zeros, each as a character.
pub open spec fn base32_of(bits: Seq<int>) -> Text
    decreases bits.len(),
{
    if bits.len() == 0 {
        Seq::empty()
    } else if bits.len() < 5 {
        seq![base32_char(bits_value(bits + Seq::new((5 - bits.len()) as nat, |i: int| 0int)))]
    } else {
        seq![base32_char(bits_value(bits.take(5)))] + base32_of(bits.skip(5))
    }
}

spec fn two_to(n: int) -> int
    decreases n,
{
    if n <= 0 {
        1
    } else {
        2 * two_to(n - 1)
    }
}

spec fn all_bits(bits: Seq<int>) -> bool {
    forall|i: int| 0 <= i < bits.len() ==> 0 <= #[trigger] bits[i] <= 1
}

proof fn lemma_bits_bound(bits: Seq<int>)
    requires
        all_bits(bits),
    ensures
        0 <= bits_value(bits) < two_to(bits.len() as int),
    decreases bits.len(),
{
    if bits.len() > 0 {
        assert(all_bits(bits.drop_last()));
        lemma_bits_bound(bits.drop_last());
        assert(0 <= bits[bits.len() - 1] <= 1);
    }
}

proof fn lemma_bits_joined(a: Seq<int>, b: Seq<int>)
    ensures
        bits_value(a + b) == bits_value(a) * two_to(b.len() as int) + bits_value(b),
    decreases b.len(),
{
    if b.len() == 0 {
        assert(a + b == a);
    } else {
        assert((a + b).drop_last() == a + b.drop_last());
        lemma_bits_joined(a, b.drop_last());
        let v = bits_value(a);
        let t = two_to(b.len() - 1);
        assert(v * t * 2 == v * (2 * t)) by (nonlinear_arith);
    }
}

proof fn lemma_byte_bits(b: u8)
    ensures
        byte_bits(b).len() == 8,
        all_bits(byte_bits(b)),
        bits_value(byte_bits(b)) == b,
{
    reveal_with_fuel(bits_value, 9);
    let s = byte_bits(b);
    assert(s.drop_last() == s.take(7));
    assert(s.take(7).drop_last() == s.take(6));
    assert(s.take(6).drop_last() == s.take(5));
    assert(s.take(5).drop_last() == s.take(4));
    assert(s.take(4).drop_last() == s.take(3));
    assert(s.take(3).drop_last() == s.take(2));
    assert(s.take(2).drop_last() == s.take(1));
    assert(s.take(1).drop_last() == s.take(0));
    assert(bits_value(s.take(0)) == 0);
    assert(bits_value(s.take(1)) == s[0]);
    assert(bits_value(s.take(2)) == s[0] * 2 + s[1]);
    assert(bits_value(s.take(3)) == s[0] * 4 + s[1] * 2 + s[2]);
    assert(bits_value(s.take(4)) == s[0] * 8 + s[1] * 4 + s[2] * 2 + s[3]);
    assert(bits_value(s.take(5)) == s[0] * 16 + s[1] * 8 + s[2] * 4 + s[3] * 2 + s[4]);
    assert(bits_value(s.take(6)) == s[0] * 32 + s[1] * 16 + s[2] * 8 + s[3] * 4 + s[4] * 2
        + s[5]);
    assert(bits_value(s.take(7)) == s[0] * 64 + s[1] * 32 + s[2] * 16 + s[3] * 8 + s[4] * 4
        + s[5] * 2 + s[6]);
}

proof fn lemma_two_to()
    ensures
        two_to(0) == 1,
        two_to(1) == 2,
        two_to(2) == 4,
        two_to(3) == 8,
        two_to(4) == 16,
        two_to(5) == 32,
        two_to(6) == 64,
        two_to(7) == 128,
        two_to(8) == 256,
        two_to(9) == 512,
        two_to(10) == 1024,
        two_to(11) == 2048,
        two_to(12) == 4096,
{
    reveal_with_fuel(two_to, 13);
}

fn power(n: u32) -> (r: u32)
    requires
        n <= 7,
    ensures
        r == two_to(n as int),
        1 <= r <= 128,
{
    proof {
        lemma_two_to();
    }
    if n == 0 {
        1
    } else if n == 1 {
        2
    } else if n == 2 {
        4
    } else if n == 3 {
        8
    } else if n == 4 {
        16
    } else if n == 5 {
        32
    } else if n == 6 {
        64
    } else {
        128
    }
}

fn base32_letter(n: u32) -> (c: char)
    requires
        n < 32,
    ensures
        c == base32_char(n as int),
{
    if n < 26 {
        (97u8 + n as u8) as char
    } else {
        (50u8 + (n as u8 - 26)) as char
    }
}

/// The first five of some bits and the rest, by their numbers.
proof fn lemma_first_five(bits: Seq<int>)
    requires
        all_bits(bits),
        bits.len() >= 5,
    ensures
        bits_value(bits.take(5)) == bits_value(bits) / two_to(bits.len() - 5),
        bits_value(bits.skip(5)) == bits_value(bits) % two_to(bits.len() - 5),
        0 <= bits_value(bits.take(5)) < 32,
        all_bits(bits.skip(5)),
{
    let a = bits.take(5);
    let b = bits.skip(5);
    assert(a + b == bits);
    assert(all_bits(a)) by {
        assert forall|i: int| 0 <= i < a.len() implies 0 <= #[trigger] a[i] <= 1 by {
            assert(0 <= bits[i] <= 1);
        }
    }
    assert(all_bits(b)) by {
        assert forall|i: int| 0 <= i < b.len() implies 0 <= #[trigger] b[i] <= 1 by {
            assert(0 <= bits[i + 5] <= 1);
        }
    }
    lemma_bits_joined(a, b);
    lemma_bits_bound(a);
    lemma_bits_bound(b);
    lemma_two_to();
    lemma_two_to_positive(bits.len() - 5);
    let t = two_to(bits.len() - 5);
    assert(bits_value(bits) == t * bits_value(a) + bits_value(b)) by (nonlinear_arith)
        requires
            bits_value(bits) == bits_value(a) * t + bits_value(b),
    ;
    vstd::arithmetic::div_mod::lemma_fundamental_div_mod_converse(
        bits_value(bits),
        t,
        bits_value(a),
        bits_value(b),
    );
}

proof fn lemma_two_to_positive(n: int)
    ensures
        two_to(n) >= 1,
    decreases n,
{
    if n > 0 {
        lemma_two_to_positive(n - 1);
    }
}

proof fn lemma_zeros(n: nat)
    ensures
        bits_value(Seq::new(n, |i: int| 0int)) == 0,
    decreases n,
{
    if n > 0 {
        let s = Seq::new(n, |i: int| 0int);
        assert(s.drop_last() == Seq::new((n - 1) as nat, |i: int| 0int));
        lemma_zeros((n - 1) as nat);
    }
}

/// The characters of bytes, five bits each.
pub fn base32(bytes: &[u8]) -> (r: String)
    ensures
        r@ == base32_of(bits_of(bytes@)),
{
    let mut text: String = String::new();
    let mut buffer: u32 = 0;
    let mut bits: u32 = 0;
    let ghost mut pending: Seq<int> = Seq::empty();
    let ghost all = base32_of(bits_of(bytes@));
    let mut i: usize = 0;
    proof {
        assert(bytes@.skip(0) == bytes@);
        assert(pending + bits_of(bytes@) == bits_of(bytes@));
        assert(Seq::<char>::empty() + all == all);
    }
    while i < bytes.len()
        invariant
            i <= bytes@.len(),
            bits == pending.len(),
            bits < 5,
            all_bits(pending),
            buffer == bits_value(pending),
            buffer < 16,
            all == text@ + base32_of(pending + bits_of(bytes@.skip(i as int))),
        decreases bytes@.len() - i,
    {
        let b: u8 = bytes[i];
        let ghost rest = bits_of(bytes@.skip(i + 1));
        proof {
            assert(bytes@.skip(i as int).drop_first() == bytes@.skip(i + 1));
            assert(bytes@.skip(i as int)[0] == b);
            lemma_byte_bits(b);
            lemma_bits_joined(pending, byte_bits(b));
            lemma_two_to();
            assert(pending + (byte_bits(b) + rest) == (pending + byte_bits(b)) + rest);
            let joined = pending + byte_bits(b);
            assert(all_bits(joined)) by {
                assert forall|k: int| 0 <= k < joined.len() implies 0 <= #[trigger] joined[k]
                    <= 1 by {
                    if k < pending.len() {
                        assert(joined[k] == pending[k]);
                    } else {
                        assert(joined[k] == byte_bits(b)[k - pending.len()]);
                    }
                }
            }
            pending = joined;
        }
        buffer = buffer * 256 + b as u32;
        bits = bits + 8;
        while bits >= 5
            invariant
                bits == pending.len(),
                bits <= 12,
                all_bits(pending),
                buffer == bits_value(pending),
                all == text@ + base32_of(pending + rest),
            decreases bits,
        {
            proof {
                lemma_first_five(pending);
                let whole = pending + rest;
                assert(whole.take(5) == pending.take(5));
                assert(whole.skip(5) == pending.skip(5) + rest);
            }
            let ghost before = text@;
            let ghost tail = base32_of(pending.skip(5) + rest);
            bits = bits - 5;
            let p = power(bits);
            let c = base32_letter(buffer / p);
            text.push(c);
            buffer = buffer % p;
            proof {
                assert(before + (seq![c] + tail) == before.push(c) + tail);
                pending = pending.skip(5);
            }
        }
        proof {
            lemma_bits_bound(pending);
            lemma_two_to();
            assert(bits == 0 || bits == 1 || bits == 2 || bits == 3 || bits == 4);
        }
        i += 1;
    }
    proof {
        assert(bytes@.skip(i as int).len() == 0);
        assert(pending + bits_of(bytes@.skip(i as int)) == pending);
    }
    if bits > 0 {
        let p = power(5 - bits);
        proof {
            let zeros = Seq::new((5 - bits) as nat, |i: int| 0int);
            lemma_zeros((5 - bits) as nat);
            lemma_bits_joined(pending, zeros);
            lemma_bits_bound(pending);
            lemma_two_to();
            assert(bits == 1 || bits == 2 || bits == 3 || bits == 4);
            assert(buffer * p < 32) by (nonlinear_arith)
                requires
                    bits == 1 && buffer < 2 && p == 16 || bits == 2 && buffer < 4 && p == 8 || bits
                        == 3 && buffer < 8 && p == 4 || bits == 4 && buffer < 16 && p == 2,
            ;
            assert(base32_of(pending) == seq![base32_char(bits_value(pending + zeros))]);
        }
        text.push(base32_letter(buffer * p));
    }
    text
}

// ------------------------------------------------------------------ passwords

/// The password of one person under one secret.
pub open spec fn password_for(secret: Seq<u8>, person_id: Text) -> Text {
    base32_of(
        bits_of(
            digest::hmac_sha256(secret, encode_utf8(person_id)).take(PASSWORD_BYTES as int),
        ),
    )
}

/// The password of one person under one secret: sixteen characters of the base32
/// alphabet.
pub fn password(secret: &[u8], person_id: &str) -> (r: String)
    ensures
        r@ == password_for(secret@, person_id@),
        r@.len() == 16,
        forall|i: int| 0 <= i < r@.len() ==> in_alphabet(#[trigger] r@[i]),
{
    let whole = digest::hmac_of(secret, person_id.as_bytes());
    let mut head: Vec<u8> = Vec::new();
    let mut i: usize = 0;
    while i < PASSWORD_BYTES
        invariant
            i <= PASSWORD_BYTES <= whole@.len(),
            head@ == whole@.take(i as int),
        decreases PASSWORD_BYTES - i,
    {
        head.push(whole[i]);
        i += 1;
        assert(head@ == whole@.take(i as int));
    }
    proof {
        lemma_bits_len(head@);
        lemma_bytes_are_bits(head@);
        lemma_base32_len(bits_of(head@), 16);
    }
    base32(head.as_slice())
}

proof fn lemma_bits_len(bytes: Seq<u8>)
    ensures
        bits_of(bytes).len() == 8 * bytes.len(),
    decreases bytes.len(),
{
    if bytes.len() > 0 {
        lemma_bits_len(bytes.drop_first());
    }
}

proof fn lemma_bytes_are_bits(bytes: Seq<u8>)
    ensures
        all_bits(bits_of(bytes)),
    decreases bytes.len(),
{
    if bytes.len() > 0 {
        lemma_byte_bits(bytes[0]);
        lemma_bytes_are_bits(bytes.drop_first());
        let a = byte_bits(bytes[0]);
        let b = bits_of(bytes.drop_first());
        assert forall|i: int| 0 <= i < (a + b).len() implies 0 <= #[trigger] (a + b)[i] <= 1 by {
            if i < a.len() {
                assert((a + b)[i] == a[i]);
            } else {
                assert((a + b)[i] == b[i - a.len()]);
            }
        }
    }
}

proof fn lemma_base32_len(bits: Seq<int>, n: int)
    requires
        bits.len() == 5 * n,
        n >= 0,
        all_bits(bits),
    ensures
        base32_of(bits).len() == n,
        forall|i: int| 0 <= i < base32_of(bits).len() ==> in_alphabet(#[trigger] base32_of(bits)[i]),
    decreases n,
{
    if n > 0 {
        lemma_first_five(bits);
        lemma_base32_len(bits.skip(5), n - 1);
        let first = base32_char(bits_value(bits.take(5)));
        let rest = base32_of(bits.skip(5));
        assert(base32_of(bits) == seq![first] + rest);
        assert forall|i: int| 0 <= i < base32_of(bits).len() implies in_alphabet(
            #[trigger] base32_of(bits)[i],
        ) by {
            if i > 0 {
                assert(base32_of(bits)[i] == rest[i - 1]);
            }
        }
    }
}

proof fn lemma_or_difference(acc: u8, a: u8, b: u8)
    ensures
        (acc | (a ^ b)) == 0 <==> acc == 0 && a == b,
{
    assert((acc | (a ^ b)) == 0 <==> acc == 0 && a == b) by (bit_vector);
}

/// Whether two digests are the same. Every byte is looked at, so that the duration
/// says nothing of where they differ.
pub fn same_digest(a: &Vec<u8>, b: &Vec<u8>) -> (r: bool)
    requires
        a@.len() == b@.len(),
    ensures
        r == (a@ == b@),
{
    let mut acc: u8 = 0;
    let mut i: usize = 0;
    assert(a@.take(0) == b@.take(0));
    while i < a.len()
        invariant
            i <= a@.len(),
            a@.len() == b@.len(),
            acc == 0 <==> a@.take(i as int) == b@.take(i as int),
        decreases a@.len() - i,
    {
        let x = a[i];
        let y = b[i];
        proof {
            lemma_or_difference(acc, x, y);
            assert(a@.take(i + 1) == a@.take(i as int).push(x));
            assert(b@.take(i + 1) == b@.take(i as int).push(y));
            assert(a@.take(i + 1).drop_last() == a@.take(i as int));
            assert(b@.take(i + 1).drop_last() == b@.take(i as int));
            assert(a@.take(i + 1).last() == x);
            assert(b@.take(i + 1).last() == y);
        }
        acc = acc | (x ^ y);
        i += 1;
    }
    assert(a@.take(i as int) == a@);
    assert(b@.take(i as int) == b@);
    acc == 0
}

/// Checks a username and a password against the people of the space.
pub struct Accounts {
    secret: Vec<u8>,
}

/// Whether these credentials belong to a person.
pub open spec fn signs_in(secret: Seq<u8>, username: Text, password: Text, person: Text) -> bool {
    feed::key_for(person) == username && digest::sha256(encode_utf8(password)) == digest::sha256(
        encode_utf8(password_for(secret, person)),
    )
}

/// The last of some people whom these credentials belong to.
pub open spec fn person_of(
    secret: Seq<u8>,
    username: Text,
    password: Text,
    people: Seq<Text>,
) -> Option<Text>
    decreases people.len(),
{
    if people.len() == 0 {
        None
    } else if signs_in(secret, username, password, people.last()) {
        Some(people.last())
    } else {
        person_of(secret, username, password, people.drop_last())
    }
}

impl Accounts {
    pub closed spec fn key(self) -> Seq<u8> {
        self.secret@
    }

    pub fn new(secret: &str) -> (r: Accounts)
        ensures
            r.key() == encode_utf8(secret@),
    {
        let bytes = secret.as_bytes();
        let mut copy: Vec<u8> = Vec::new();
        let mut i: usize = 0;
        while i < bytes.len()
            invariant
                i <= bytes@.len(),
                copy@ == bytes@.take(i as int),
            decreases bytes@.len() - i,
        {
            copy.push(bytes[i]);
            i += 1;
            assert(copy@ == bytes@.take(i as int));
        }
        assert(bytes@.take(bytes@.len() as int) == bytes@);
        Accounts { secret: copy }
    }

    pub fn password_of(&self, person_id: &str) -> (r: String)
        ensures
            r@ == password_for(self.key(), person_id@),
    {
        password(self.secret.as_slice(), person_id)
    }

    /// The person these credentials belong to, out of `people`. Every person is
    /// checked and the passwords are compared over fixed-length digests, so the
    /// duration says neither where the match was nor how much of the password matched.
    pub fn person<'a>(&self, username: &str, password: &str, people: &Vec<&'a str>) -> (r: Option<
        &'a str,
    >)
        ensures
            (match r {
                Some(id) => Some(id@),
                None => None,
            }) == person_of(
                self.key(),
                username@,
                password@,
                Seq::new(people@.len(), |i: int| people@[i]@),
            ),
    {
        let sent = digest::sha256_of(password.as_bytes());
        let ghost all: Seq<Text> = Seq::new(people@.len(), |i: int| people@[i]@);
        let mut found: Option<&'a str> = None;
        let mut i: usize = 0;
        while i < people.len()
            invariant
                i <= people@.len(),
                all == Seq::new(people@.len(), |i: int| people@[i]@),
                sent@ == digest::sha256(encode_utf8(password@)),
                sent@.len() == 32,
                (match found {
                    Some(id) => Some(id@),
                    None => None,
                }) == person_of(self.key(), username@, password@, all.take(i as int)),
            decreases people@.len() - i,
        {
            assert(all.take(i + 1).drop_last() == all.take(i as int));
            assert(all.take(i + 1).last() == people@[i as int]@);
            let id = people[i];
            let expected = digest::sha256_of(self.password_of(id).as_str().as_bytes());
            let same_password = same_digest(&sent, &expected);
            let same_name = text::same(self::username(id).as_str(), username);
            if same_password && same_name {
                found = Some(id);
            }
            i += 1;
        }
        assert(all.take(all.len() as int) == all);
        found
    }
}

proof fn lemma_person_of(secret: Seq<u8>, username: Text, password: Text, people: Seq<Text>)
    ensures
        match person_of(secret, username, password, people) {
            Some(id) => people.contains(id) && signs_in(secret, username, password, id),
            None => forall|i: int|
                0 <= i < people.len() ==> !signs_in(
                    secret,
                    username,
                    password,
                    #[trigger] people[i],
                ),
        },
    decreases people.len(),
{
    if people.len() > 0 {
        lemma_person_of(secret, username, password, people.drop_last());
        if signs_in(secret, username, password, people.last()) {
            assert(people[people.len() - 1] == people.last());
        } else {
            match person_of(secret, username, password, people.drop_last()) {
                Some(id) => {
                    let k = choose|k: int|
                        0 <= k < people.drop_last().len() && people.drop_last()[k] == id;
                    assert(people[k] == id);
                },
                None => {
                    assert forall|i: int| 0 <= i < people.len() implies !signs_in(
                        secret,
                        username,
                        password,
                        #[trigger] people[i],
                    ) by {
                        if i < people.len() - 1 {
                            assert(people.drop_last()[i] == people[i]);
                        }
                    }
                },
            }
        }
    }
}

/// Nobody signs in who is not among the people, or with a password that has another
/// digest than theirs; and the right pair always names somebody.
pub proof fn law_only_the_right_pair_signs_in(
    secret: Seq<u8>,
    username: Text,
    password: Text,
    people: Seq<Text>,
)
    ensures
        person_of(secret, username, password, people) matches Some(id) ==> people.contains(id)
            && signs_in(secret, username, password, id),
        forall|i: int|
            0 <= i < people.len() && signs_in(secret, username, password, #[trigger] people[i])
                ==> person_of(secret, username, password, people) is Some,
{
    lemma_person_of(secret, username, password, people);
}

// ------------------------------------------------------------------ holders

/// Whether one of the links leads to an active member of the space.
pub open spec fn links_a_member(links: Seq<Text>, active: Seq<Text>) -> bool {
    exists|i: int|
        0 <= i < links.len() && text::starts_with(#[trigger] links[i], PARTICIPANT_PREFIX@)
            && active.contains(links[i])
}

pub fn has_member_link(links: &Vec<String>, active: &Vec<String>) -> (r: bool)
    ensures
        r == links_a_member(text::texts(links@), text::texts(active@)),
{
    let mut i: usize = 0;
    let ghost all = text::texts(links@);
    while i < links.len()
        invariant
            i <= links@.len(),
            all == text::texts(links@),
            forall|k: int|
                0 <= k < i ==> !(text::starts_with(#[trigger] all[k], PARTICIPANT_PREFIX@)
                    && text::texts(active@).contains(all[k])),
        decreases links@.len() - i,
    {
        if text::begins(links[i].as_str(), PARTICIPANT_PREFIX) && text::listed(
            active,
            links[i].as_str(),
        ) {
            assert(text::starts_with(all[i as int], PARTICIPANT_PREFIX@));
            return true;
        }
        i += 1;
    }
    false
}

/// A person's name, or their id where they have none.
pub open spec fn person_name(object: Object) -> Text {
    match object.name {
        Some(name) => if text::trimmed(name@).len() > 0 {
            text::trimmed(name@)
        } else {
            object.id@
        },
        None => object.id@,
    }
}

pub fn name_of_person(object: &Object) -> (r: String)
    ensures
        r@ == person_name(*object),
{
    match &object.name {
        Some(name) => {
            let name = text::trim(name.as_str());
            if name.is_empty() {
                object.id.clone()
            } else {
                name.to_owned()
            }
        },
        None => object.id.clone(),
    }
}

/// People with one more, behind those with the same name or one before it.
pub open spec fn insert_person(people: Seq<(Text, Text)>, id: Text, name: Text) -> Seq<
    (Text, Text),
>
    decreases people.len(),
{
    if people.len() == 0 || !text::precedes(name, people.last().1) {
        people.push((id, name))
    } else {
        insert_person(people.drop_last(), id, name).push(people.last())
    }
}

/// The people who get an account, by name: every profile that is not archived and links
/// to an active member.
pub open spec fn holders_in(objects: Seq<Object>, active: Seq<Text>) -> Seq<(Text, Text)>
    decreases objects.len(),
{
    if objects.len() == 0 {
        Seq::empty()
    } else {
        let before = holders_in(objects.drop_last(), active);
        let one = objects.last();
        if !one.archived && links_a_member(
            object::links_in(one.properties@, "links"@),
            active,
        ) {
            insert_person(before, one.id@, person_name(one))
        } else {
            before
        }
    }
}

pub open spec fn people_view(v: Seq<(String, String)>) -> Seq<(Text, Text)> {
    Seq::new(v.len(), |i: int| (v[i].0@, v[i].1@))
}

fn put_person(people: &mut Vec<(String, String)>, id: String, name: String)
    ensures
        people_view(final(people)@) == insert_person(people_view(old(people)@), id@, name@),
{
    let ghost all = people_view(people@);
    let mut at: usize = people.len();
    assert(all.take(at as int) == all);
    assert(insert_person(all, id@, name@) == insert_person(all.take(at as int), id@, name@)
        + all.skip(at as int));
    while at > 0 && text::is_before(name.as_str(), people[at - 1].1.as_str())
        invariant
            at <= people@.len(),
            all == people_view(people@),
            insert_person(all, id@, name@) == insert_person(all.take(at as int), id@, name@)
                + all.skip(at as int),
        decreases at,
    {
        proof {
            let t = all.take(at as int);
            assert(t.drop_last() == all.take(at - 1));
            assert(t.last() == all[at - 1]);
            assert(insert_person(t.drop_last(), id@, name@).push(t.last()) + all.skip(at as int)
                == insert_person(t.drop_last(), id@, name@) + all.skip(at - 1));
        }
        at -= 1;
    }
    proof {
        let t = all.take(at as int);
        if at > 0 {
            assert(t.last() == all[at - 1]);
        }
        assert(insert_person(t, id@, name@) == t.push((id@, name@)));
    }
    let ghost before = people@;
    people.insert(at, (id, name));
    assert(people_view(people@) == all.take(at as int).push((id@, name@)) + all.skip(at as int));
}

/// The people who get an account, as `(person id, name)` sorted by name: every profile
/// whose `links` holds an active member of the space. A person the space describes but
/// who is not in it has nowhere to sign in from, and a member with no object of their
/// own has no calendar key of a stable kind.
pub fn holders(objects: &Vec<Object>, active: &Vec<String>) -> (r: Vec<(String, String)>)
    ensures
        people_view(r@) == holders_in(objects@, text::texts(active@)),
{
    let mut r: Vec<(String, String)> = Vec::new();
    let mut i: usize = 0;
    assert(people_view(r@) == holders_in(objects@.take(0), text::texts(active@)));
    while i < objects.len()
        invariant
            i <= objects@.len(),
            people_view(r@) == holders_in(objects@.take(i as int), text::texts(active@)),
        decreases objects@.len() - i,
    {
        assert(objects@.take(i + 1).drop_last() == objects@.take(i as int));
        assert(objects@.take(i + 1).last() == objects@[i as int]);
        let links = object::links(&objects[i], "links");
        if !objects[i].archived && has_member_link(&links, active) {
            put_person(&mut r, objects[i].id.clone(), name_of_person(&objects[i]));
        }
        i += 1;
    }
    assert(objects@.take(objects@.len() as int) == objects@);
    r
}

proof fn lemma_person_put(people: Seq<(Text, Text)>, id: Text, name: Text, i: int)
    ensures
        insert_person(people, id, name).contains((id, name)),
        insert_person(people, id, name).len() == people.len() + 1,
        0 <= i < people.len() ==> insert_person(people, id, name).contains(people[i]),
        0 <= i < insert_person(people, id, name).len() ==> insert_person(people, id, name)[i] == (
            id,
            name,
        ) || people.contains(insert_person(people, id, name)[i]),
    decreases people.len(),
{
    let r = insert_person(people, id, name);
    if people.len() == 0 || !text::precedes(name, people.last().1) {
        assert(r[people.len() as int] == (id, name));
        if 0 <= i < people.len() {
            assert(r[i] == people[i]);
        }
    } else {
        let front = people.drop_last();
        let inner = insert_person(front, id, name);
        lemma_person_put(front, id, name, i);
        let m = choose|m: int| 0 <= m < inner.len() && inner[m] == (id, name);
        assert(r[m] == (id, name));
        if 0 <= i < front.len() {
            let n = choose|n: int| 0 <= n < inner.len() && inner[n] == front[i];
            assert(r[n] == people[i]);
        } else if i == front.len() {
            assert(r[r.len() - 1] == people[i]);
        }
        if 0 <= i < inner.len() {
            assert(r[i] == inner[i]);
            if inner[i] != (id, name) {
                let n = choose|n: int| 0 <= n < front.len() && front[n] == inner[i];
                assert(people[n] == r[i]);
            }
        } else if i == inner.len() {
            assert(r[i] == people[people.len() - 1]);
        }
    }
}

/// Exactly those people have an account who are in the space: a profile that is not archived
/// and that links to an active member gives one, under its id and the name that it shows, and
/// nothing else does.
pub proof fn law_who_has_an_account(objects: Seq<Object>, active: Seq<Text>, i: int)
    ensures
        0 <= i < objects.len() && !objects[i].archived && links_a_member(
            object::links_in(objects[i].properties@, "links"@),
            active,
        ) ==> holders_in(objects, active).contains((objects[i].id@, person_name(objects[i]))),
        0 <= i < holders_in(objects, active).len() ==> exists|k: int|
            0 <= k < objects.len() && !(#[trigger] objects[k]).archived && links_a_member(
                object::links_in(objects[k].properties@, "links"@),
                active,
            ) && holders_in(objects, active)[i] == (objects[k].id@, person_name(objects[k])),
    decreases objects.len(),
{
    if objects.len() > 0 {
        let front = objects.drop_last();
        let before = holders_in(front, active);
        let r = holders_in(objects, active);
        let one = objects.last();
        let held = !one.archived && links_a_member(
            object::links_in(one.properties@, "links"@),
            active,
        );
        law_who_has_an_account(front, active, i);
        assert(objects[objects.len() - 1] == one);
        if 0 <= i < front.len() {
            let entry = (objects[i].id@, person_name(objects[i]));
            if before.contains(entry) {
                let m = choose|m: int| 0 <= m < before.len() && before[m] == entry;
                if held {
                    lemma_person_put(before, one.id@, person_name(one), m);
                } else {
                    assert(r[m] == entry);
                }
            }
        } else if i == front.len() && held {
            lemma_person_put(before, one.id@, person_name(one), 0);
        }
        if 0 <= i < r.len() {
            if held {
                lemma_person_put(before, one.id@, person_name(one), i);
                if r[i] != (one.id@, person_name(one)) {
                    let m = choose|m: int| 0 <= m < before.len() && before[m] == r[i];
                    law_who_has_an_account(front, active, m);
                    let k = choose|k: int|
                        0 <= k < front.len() && !(#[trigger] front[k]).archived && links_a_member(
                            object::links_in(front[k].properties@, "links"@),
                            active,
                        ) && before[m] == (front[k].id@, person_name(front[k]));
                    assert(objects[k] == front[k]);
                }
            } else {
                let k = choose|k: int|
                    0 <= k < front.len() && !(#[trigger] front[k]).archived && links_a_member(
                        object::links_in(front[k].properties@, "links"@),
                        active,
                    ) && before[i] == (front[k].id@, person_name(front[k]));
                assert(objects[k] == front[k]);
            }
        }
    }
}

/// A person is called by the name of their object, without the white space around it; one
/// whose object has no name is called by its id.
pub proof fn law_a_person_is_called_by_their_name(object: Object)
    ensures
        person_name(object) == object.id@ || (object.name matches Some(name) && person_name(object)
            == text::trimmed(name@)),
        object.name is Some && text::trimmed(object.name->0@).len() > 0 ==> person_name(object)
            == text::trimmed(object.name->0@),
        object.id@.len() > 0 ==> person_name(object).len() > 0,
{
}

/// A person signs in with the name and the password that their account was given, and with
/// no other name.
pub proof fn law_the_given_pair_signs_in(secret: Seq<u8>, person: Text, username: Text)
    ensures
        signs_in(secret, feed::key_for(person), password_for(secret, person), person),
        username != feed::key_for(person) ==> !signs_in(
            secret,
            username,
            password_for(secret, person),
            person,
        ),
{
}

} // verus!
