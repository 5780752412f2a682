//! The trusted boundary: declarations and thin wrappers for the outside
//! crates (and the few std functions vstd gives no specification), each
//! with the contract that the callee's documentation supports. Verified
//! code relies on these contracts; nothing here is itself verified.
use hmac_sha256::HMAC;
use vstd::prelude::*;

verus! {

/// Declares url::Url so that it can stand in signatures; its values are
/// opaque here and read only through the wrappers below.
#[verifier::external_type_specification]
#[verifier::external_body]
pub struct ExUrl(url::Url);

/// Declares url::ParseError, the error that url::Url::parse returns;
/// opaque here.
#[verifier::external_type_specification]
#[verifier::external_body]
pub struct ExParseError(url::ParseError);

/// Relies on url::Url::parse: parses an absolute URL string; nothing is
/// assumed of which inputs parse.
pub assume_specification[ url::Url::parse ](input: &str) -> Result<url::Url, url::ParseError>;

/// Relies on url::Url::path: the URL's path component, here handed out as
/// its characters. Nothing is assumed of its content.
#[verifier::external_body]
pub(crate) fn url_path_chars(u: &url::Url) -> Vec<char> {
    u.path().chars().collect()
}

/// Relies on url::Url's Display implementation: the URL serialized back
/// to a string. Nothing is assumed of its content.
#[verifier::external_body]
pub(crate) fn url_to_string(u: &url::Url) -> String {
    u.to_string()
}

/// Relies on std's String::push: appends exactly the given character.
#[verifier::external_body]
pub(crate) fn push_char(s: &mut String, c: char)
    ensures
        final(s)@ == old(s)@.push(c),
{
    s.push(c);
}

/// The base64 rendering (standard alphabet, padded) of a byte sequence,
/// as base64::encode computes it: a function of the bytes alone.
pub uninterp spec fn b64_of(bytes: Seq<u8>) -> Seq<char>;

/// Relies on base64::encode: standard-alphabet, padded base64 of the
/// input, four output characters for every started group of three input
/// bytes.
#[verifier::external_body]
pub(crate) fn b64_encode(bytes: &[u8]) -> (r: String)
    ensures
        r@ == b64_of(bytes@),
        r@.len() == 4 * ((bytes@.len() + 2) / 3),
{
    base64::encode(bytes)
}

/// What base64::decode yields for a given input: the decoded bytes, or
/// nothing when the input is not valid base64. A function of the input
/// alone.
pub uninterp spec fn b64_decode_of(s: Seq<char>) -> Option<Seq<u8>>;

/// Relies on base64::decode: decodes standard-alphabet, padded base64;
/// the error value is dropped here, only its occurrence is kept.
#[verifier::external_body]
pub(crate) fn b64_decode(s: &str) -> (r: Option<Vec<u8>>)
    ensures
        r is Some <==> b64_decode_of(s@) is Some,
        r is Some ==> r.unwrap()@ == b64_decode_of(s@).unwrap(),
{
    match base64::decode(s) {
        Ok(v) => Some(v),
        Err(_) => None,
    }
}

/// Relies on std's String::from_utf8: succeeds exactly on valid UTF-8
/// and yields the characters that the bytes encode; the error value is
/// dropped here, only its occurrence is kept.
#[verifier::external_body]
pub(crate) fn string_from_utf8(bytes: Vec<u8>) -> (r: Option<String>)
    ensures
        r is Some <==> vstd::utf8::valid_utf8(bytes@),
        r is Some ==> r.unwrap()@ == vstd::utf8::decode_utf8(bytes@),
{
    match String::from_utf8(bytes) {
        Ok(s) => Some(s),
        Err(_) => None,
    }
}

/// The HMAC-SHA256 tag of a message under a key, as hmac_sha256::HMAC::mac
/// computes it: a function of message and key alone.
pub uninterp spec fn hmac_sha256_of(msg: Seq<u8>, key: Seq<u8>) -> Seq<u8>;

/// Relies on hmac_sha256::HMAC::mac: the 32-byte HMAC-SHA256 tag of the
/// message under the key.
#[verifier::external_body]
pub(crate) fn hmac_mac(msg: &[u8], key: &[u8]) -> (r: Vec<u8>)
    ensures
        r@ == hmac_sha256_of(msg@, key@),
        r@.len() == 32,
{
    HMAC::mac(msg, key).to_vec()
}

/// Relies on chrono's Utc::now and DateTime::format: the current UTC
/// time rendered like `Tue, 01 Jan 2030 00:00:00 GMT`. The clock decides
/// the value, so nothing is assumed of it.
#[verifier::external_body]
pub(crate) fn now_http_date() -> String {
    chrono::Utc::now().format("%a, %d %b %Y %H:%M:%S GMT").to_string()
}

} // verus!
