//! Digests and encodings of bytes.
use sha2::Digest;
use hmac::{KeyInit, Mac};
use base64::Engine;
use vstd::prelude::*;
use vstd::utf8::*;

use crate::text;
use crate::text::Text;

verus! {

/// The SHA-256 digest of some bytes.
pub uninterp spec fn sha256(data: Seq<u8>) -> Seq<u8>;

/// `sha2::Sha256::digest`: the digest depends on the data alone and is 32 bytes
/// long.
#[verifier::external_body]
pub(crate) fn sha256_of(data: &[u8]) -> (r: Vec<u8>)
    ensures
        r@ == sha256(data@),
        r@.len() == 32,
{
    sha2::Sha256::digest(data).to_vec()
}

/// The HMAC-SHA256 of some bytes under a key.
pub uninterp spec fn hmac_sha256(key: Seq<u8>, data: Seq<u8>) -> Seq<u8>;

/// `hmac::Hmac<sha2::Sha256>`, made from the key, fed the data and finished: the
/// code depends on the key and the data alone and is 32 bytes long. A key of any
/// length is taken.
#[verifier::external_body]
pub(crate) fn hmac_of(key: &[u8], data: &[u8]) -> (r: Vec<u8>)
    ensures
        r@ == hmac_sha256(key@, data@),
        r@.len() == 32,
{
    let mut mac = hmac::Hmac::<sha2::Sha256>::new_from_slice(key).expect("a key of any length");
    mac.update(data);
    mac.finalize().into_bytes().to_vec()
}

/// A number below sixteen as a hexadecimal digit in lower case.
pub open spec fn hex_digit(n: int) -> char {
    if n < 10 {
        ('0' as int + n) as char
    } else {
        ('a' as int + n - 10) as char
    }
}

/// Bytes in hexadecimal, two digits each.
pub open spec fn hex(bytes: Seq<u8>) -> Text
    decreases bytes.len(),
{
    if bytes.len() == 0 {
        Seq::empty()
    } else {
        hex(bytes.drop_last()) + seq![
            hex_digit(bytes.last() as int / 16),
            hex_digit(bytes.last() as int % 16),
        ]
    }
}

/// Hexadecimal text is letters and digits, two for each byte.
pub proof fn lemma_hex(bytes: Seq<u8>)
    ensures
        hex(bytes).len() == 2 * bytes.len(),
        text::all_alphanumeric(hex(bytes)),
    decreases bytes.len(),
{
    if bytes.len() > 0 {
        lemma_hex(bytes.drop_last());
    }
}

/// `hex::encode`: every byte as two hexadecimal digits in lower case.
#[verifier::external_body]
pub(crate) fn hex_of(bytes: &[u8]) -> (r: String)
    ensures
        r@ == hex(bytes@),
{
    ::hex::encode(bytes)
}

/// What a text stands for in base64 with the standard alphabet and padding.
pub uninterp spec fn base64_bytes(s: Text) -> Option<Seq<u8>>;

/// `base64::engine::general_purpose::STANDARD.decode`: the bytes, or nothing
/// where the text is not base64.
#[verifier::external_body]
pub(crate) fn from_base64(s: &str) -> (r: Option<Vec<u8>>)
    ensures
        match r {
            Some(bytes) => base64_bytes(s@) == Some(bytes@),
            None => base64_bytes(s@) is None,
        },
{
    base64::engine::general_purpose::STANDARD.decode(s).ok()
}

/// `String::from_utf8`: the text that the bytes encode, where they encode one.
#[verifier::external_body]
pub(crate) fn from_utf8(bytes: Vec<u8>) -> (r: Option<String>)
    ensures
        match r {
            Some(s) => encode_utf8(s@) == bytes@,
            None => !valid_utf8(bytes@),
        },
{
    String::from_utf8(bytes).ok()
}

/// The base64 text of bytes with the alphabet for URLs and without padding.
pub uninterp spec fn base64_url_text(bytes: Seq<u8>) -> Text;

/// `base64::engine::general_purpose::URL_SAFE_NO_PAD` and `Engine::encode`: the text
/// depends on the bytes alone.
#[verifier::external_body]
pub(crate) fn to_base64_url(bytes: &[u8]) -> (r: String)
    ensures
        r@ == base64_url_text(bytes@),
{
    base64::Engine::encode(&base64::engine::general_purpose::URL_SAFE_NO_PAD, bytes)
}

} // verus!
