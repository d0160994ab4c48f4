//! Calls into outside code whose results the ledger uses: decoding of
//! base64 text payloads, and upper-casing of the collection symbol.
use base64::Engine;

use vstd::prelude::*;

verus! {

/// The bytes that padding-free standard base64 decoding yields for `s`, or
/// `None` where `s` is not valid such text.
pub uninterp spec fn base64_decoded(s: Seq<char>) -> Option<Seq<u8>>;

/// What `str::to_uppercase` yields for `s`.
pub uninterp spec fn upper_of(s: Seq<char>) -> Seq<char>;

#[verifier::external_type_specification]
#[verifier::external_body]
pub struct ExDecodeError(base64::DecodeError);

/// Relies on `base64::Engine::decode` with the `STANDARD_NO_PAD` engine: the
/// outcome depends on the text alone, and the call does not panic.
#[verifier::external_body]
pub(crate) fn decode_base64(s: &str) -> (r: Result<Vec<u8>, base64::DecodeError>)
    ensures
        match r {
            Ok(v) => base64_decoded(s@) == Some(v@),
            Err(_) => base64_decoded(s@) is None,
        },
{
    base64::engine::general_purpose::STANDARD_NO_PAD.decode(s)
}

/// Relies on `str::to_uppercase`: the result depends on the characters alone.
#[verifier::external_body]
pub(crate) fn to_uppercase(s: &str) -> (r: String)
    ensures
        r@ == upper_of(s@),
{
    s.to_uppercase()
}

/// The decoded payload of `s`, or `None` where `s` is not valid base64 text.
pub fn decode_payload(s: &str) -> (r: Option<Vec<u8>>)
    ensures
        match r {
            Some(v) => base64_decoded(s@) == Some(v@),
            None => base64_decoded(s@) is None,
        },
{
    match decode_base64(s) {
        Ok(v) => Some(v),
        Err(_) => None,
    }
}

} // verus!
