use vstd::prelude::*;

verus! {

// ---------------------------------------------------------------------------
// The calls into outside crates that the codec rests on.  Everything else in
// this crate is verified against these contracts.
// ---------------------------------------------------------------------------

// Names the result of url-safe unpadded base64 over a text's UTF-8 bytes: a
// function of the text alone.
pub uninterp spec fn b64_of(s: Seq<char>) -> Seq<char>;

/// Relies on base64::encode_config with URL_SAFE_NO_PAD: the encoding is
/// deterministic in the input bytes, and str::as_bytes is UTF-8.
#[verifier::external_body]
pub fn b64_encode(s: &str) -> (r: String)
    ensures
        r@ == b64_of(s@),
{
    base64::encode_config(s.as_bytes(), base64::URL_SAFE_NO_PAD)
}

#[derive(Debug, PartialEq, Eq)]
pub enum TransportError {
    NotBase64,
    NotText,
}

// Names whether the url-safe unpadded base64 decoder accepts a text: a
// property of the text alone.
pub uninterp spec fn is_b64_text(s: Seq<char>) -> bool;

/// Relies on base64::decode_config with URL_SAFE_NO_PAD and
/// String::from_utf8: the decoder accepts or rejects on the text alone;
/// decoding an encoding returns exactly the bytes that were encoded, and
/// from_utf8 inverts UTF-8 encoding, so decoding the encoding of a text
/// gives that text back.
#[verifier::external_body]
pub fn b64_decode(s: &str) -> (r: Result<String, TransportError>)
    ensures
        r is Ok ==> is_b64_text(s@),
        r matches Ok(x) ==> forall|t: Seq<char>| s@ == b64_of(t) ==> x@ == t,
        r matches Err(e) ==> (e is NotBase64 <==> !is_b64_text(s@)),
        r is Err ==> forall|t: Seq<char>| s@ != b64_of(t),
{
    match base64::decode_config(s, base64::URL_SAFE_NO_PAD) {
        Err(_) => Err(TransportError::NotBase64),
        Ok(bytes) => match String::from_utf8(bytes) {
            Ok(text) => Ok(text),
            Err(_) => Err(TransportError::NotText),
        },
    }
}

// Names the result of URI validation: whether a text satisfies the RFC 3986
// URI grammar, a property of the text alone.
pub uninterp spec fn is_uri_text(s: Seq<char>) -> bool;

/// Relies on iri_string::types::UriStr::new: validates the URI grammar and
/// depends on nothing but the text.
#[verifier::external_body]
pub fn uri_ok(s: &str) -> (r: bool)
    ensures
        r == is_uri_text(s@),
{
    iri_string::types::UriStr::new(s).is_ok()
}

// Names the result of content-identifier parsing: whether a text parses as
// a CID, a property of the text alone.
pub uninterp spec fn is_cid_text(s: Seq<char>) -> bool;

/// Relies on cid::Cid::try_from(&str): parsing succeeds or fails on the
/// text alone.
#[verifier::external_body]
pub fn cid_ok(s: &str) -> (r: bool)
    ensures
        r == is_cid_text(s@),
{
    cid::Cid::try_from(s).is_ok()
}

} // verus!
