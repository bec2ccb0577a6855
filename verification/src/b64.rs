//! Base64 text forms.  Identifiers and emails travel URL-safe encoded in
//! paths; WebAuthn challenges travel standard-alphabet encoded inside the
//! client data.  The encodings themselves come from the base64 crate; each
//! is named here so contracts can speak about it exactly.

use vstd::prelude::*;

verus! {

/// The URL-safe Base64 text of a byte string.
pub uninterp spec fn b64url_chars(b: Seq<u8>) -> Seq<char>;

/// Relies on base64's `encode_config` with the URL-safe alphabet: the text
/// depends on the input bytes alone.
#[verifier::external_body]
pub(crate) fn b64url_encode(b: &[u8]) -> (r: String)
    ensures
        r@ == b64url_chars(b@),
{
    base64::encode_config(b, base64::URL_SAFE)
}

/// The bytes denoted by URL-safe Base64 text, or nothing when the text is
/// not valid URL-safe Base64.
pub uninterp spec fn b64url_decoded(s: Seq<char>) -> Option<Seq<u8>>;

/// Relies on base64's `decode_config` with the URL-safe alphabet: the
/// outcome depends on the input text alone.
#[verifier::external_body]
pub(crate) fn b64url_decode(s: &str) -> (r: Option<Vec<u8>>)
    ensures
        match r {
            Some(v) => b64url_decoded(s@) == Some(v@),
            None => b64url_decoded(s@) is None,
        },
{
    base64::decode_config(s, base64::URL_SAFE).ok()
}

/// The bytes denoted by standard-alphabet Base64 text, or nothing when the
/// text is not valid Base64.
pub uninterp spec fn b64_decoded(s: Seq<u8>) -> Option<Seq<u8>>;

/// Relies on base64's `decode`: the outcome depends on the input alone.
#[verifier::external_body]
pub(crate) fn b64_decode(s: &[u8]) -> (r: Option<Vec<u8>>)
    ensures
        match r {
            Some(v) => b64_decoded(s@) == Some(v@),
            None => b64_decoded(s@) is None,
        },
{
    base64::decode(s).ok()
}

/// Relies on std's `String::from_utf8`: succeeds exactly on valid UTF-8 and
/// returns the decoded characters.
#[verifier::external_body]
pub(crate) fn string_from_utf8(v: Vec<u8>) -> (r: Option<String>)
    ensures
        r is Some <==> vstd::utf8::valid_utf8(v@),
        r matches Some(s) ==> s@ == vstd::utf8::decode_utf8(v@),
{
    String::from_utf8(v).ok()
}

} // verus!
