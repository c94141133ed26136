use anytype_caldav::accounts::{base32, holders, password, same_digest, username, Accounts};
use anytype_caldav::object::{Object, Property, PropertyValue};
use hmac::{KeyInit, Mac};
use sha2::Digest;

const ALICE: &str = "bafyreialice";
const BOB: &str = "bafyreibob";

#[test]
fn a_password_is_the_same_every_time() {
    assert_eq!(password(b"secret", ALICE), password(b"secret", ALICE));
    assert_ne!(password(b"secret", ALICE), password(b"secret", BOB));
}

#[test]
fn another_secret_gives_another_password() {
    assert_ne!(password(b"secret", ALICE), password(b"other", ALICE));
}

#[test]
fn a_password_is_sixteen_base32_characters() {
    let alphabet: &[u8] = b"abcdefghijklmnopqrstuvwxyz234567";
    let password = password(b"secret", ALICE);
    assert_eq!(password.len(), 16, "{password}");
    assert!(password.bytes().all(|c| alphabet.contains(&c)), "{password}");
}

#[test]
fn base32_matches_the_rfc_4648_vectors() {
    // The vectors of RFC 4648 section 10, lower-cased, without padding.
    assert_eq!(base32(b""), "");
    assert_eq!(base32(b"f"), "my");
    assert_eq!(base32(b"fo"), "mzxq");
    assert_eq!(base32(b"foo"), "mzxw6");
    assert_eq!(base32(b"foob"), "mzxw6yq");
    assert_eq!(base32(b"fooba"), "mzxw6ytb");
    assert_eq!(base32(b"foobar"), "mzxw6ytboi");
}

#[test]
fn the_right_pair_names_the_person() {
    let accounts = Accounts::new("secret");
    let people = vec![ALICE, BOB];
    assert_eq!(accounts.person(&username(BOB), &accounts.password_of(BOB), &people), Some(BOB));
}

#[test]
fn a_wrong_password_or_an_unknown_username_names_nobody() {
    let accounts = Accounts::new("secret");
    let people = vec![ALICE, BOB];
    assert_eq!(accounts.person(&username(BOB), "wrong", &people), None);
    // Somebody else's password under one's own name.
    assert_eq!(accounts.person(&username(BOB), &accounts.password_of(ALICE), &people), None);
    assert_eq!(
        accounts.person(&username("bafyreicarol"), &accounts.password_of("bafyreicarol"), &people),
        None
    );
}

/// The first ten bytes of HMAC-SHA256 with the key `secret` over the id, in base32.
#[test]
fn a_password_is_the_head_of_a_keyed_digest() {
    let mut mac = hmac::Hmac::<sha2::Sha256>::new_from_slice(b"secret").unwrap();
    mac.update(ALICE.as_bytes());
    let code = mac.finalize().into_bytes();
    assert_eq!(password(b"secret", ALICE), base32(&code[..10]));
    assert_eq!(Accounts::new("secret").password_of(ALICE), password(b"secret", ALICE));
}

#[test]
fn a_username_is_twelve_hexadecimal_digits() {
    let digest = sha2::Sha256::digest(ALICE.as_bytes());
    let expected: String = digest[..6].iter().map(|b| format!("{b:02x}")).collect();
    assert_eq!(username(ALICE), expected);
}

#[test]
fn digests_are_the_same_byte_for_byte() {
    assert!(same_digest(&vec![1; 32], &vec![1; 32]));
    let mut other = vec![1; 32];
    other[31] = 2;
    assert!(!same_digest(&vec![1; 32], &other));
}

fn profile(id: &str, name: Option<&str>, links: &[&str]) -> Object {
    Object {
        id: id.to_string(),
        name: name.map(str::to_string),
        snippet: None,
        archived: false,
        link: String::new(),
        icon: None,
        properties: vec![Property {
            id: "links".to_string(),
            key: "links".to_string(),
            name: "Links".to_string(),
            value: PropertyValue::Objects { objects: links.iter().map(|l| l.to_string()).collect() },
        }],
    }
}

#[test]
fn accounts_are_held_by_people_who_link_an_active_member() {
    let objects = vec![
        profile("p-zoe", Some("Zoe"), &["_participant_s_zoe"]),
        profile("p-ann", Some(" Ann "), &["page", "_participant_s_ann"]),
        profile("p-gone", Some("Gone"), &["_participant_s_gone"]),
        profile("p-page", Some("Page"), &["zoe"]),
        profile("p-mute", None, &["_participant_s_mute"]),
    ];
    let active: Vec<String> = ["_participant_s_zoe", "_participant_s_ann", "_participant_s_mute", "zoe"]
        .iter()
        .map(|id| id.to_string())
        .collect();
    let found: Vec<(String, String)> = holders(&objects, &active);
    let expected: Vec<(String, String)> = [("p-ann", "Ann"), ("p-zoe", "Zoe"), ("p-mute", "p-mute")]
        .iter()
        .map(|(id, name)| (id.to_string(), name.to_string()))
        .collect();
    assert_eq!(found, expected);
}

#[test]
fn an_archived_profile_holds_no_account() {
    let mut gone = profile("p-zoe", Some("Zoe"), &["_participant_s_zoe"]);
    let active = vec!["_participant_s_zoe".to_string()];
    assert_eq!(holders(&vec![gone], &active).len(), 1);
    gone = profile("p-zoe", Some("Zoe"), &["_participant_s_zoe"]);
    gone.archived = true;
    assert!(holders(&vec![gone], &active).is_empty());
}
