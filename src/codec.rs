//! Base64 text of the manifest payload, through the `base64` crate's standard engine.
use vstd::prelude::*;
use base64::Engine;

verus! {

/// The padded standard base64 text of a byte sequence.
pub uninterp spec fn b64_encode(b: Seq<u8>) -> Seq<u8>;

/// The bytes that a padded standard base64 text decodes to, if it is well formed.
pub uninterp spec fn b64_decode(s: Seq<u8>) -> Option<Seq<u8>>;

/// A byte of the standard base64 alphabet, or the padding `=`.
pub open spec fn is_b64_byte(c: u8) -> bool {
    (65u8 <= c && c <= 90u8) || (97u8 <= c && c <= 122u8) || (48u8 <= c && c <= 57u8) || c == 43u8
        || c == 47u8 || c == 61u8
}

/// Relies on `base64::engine::general_purpose::STANDARD.encode`: RFC 4648 text over the
/// standard alphabet with `=` padding, four characters for each started group of three
/// bytes, which that engine's `decode` turns back into the input.
#[verifier::external_body]
pub(crate) fn encode_b64(b: &[u8]) -> (r: Vec<u8>)
    requires
        b@.len() <= usize::MAX / 2,
    ensures
        r@ == b64_encode(b@),
        r@.len() == 4 * ((b@.len() + 2) / 3),
        forall|k: int| 0 <= k < r@.len() ==> is_b64_byte(#[trigger] r@[k]),
        b64_decode(r@) == Some(b@),
{
    base64::engine::general_purpose::STANDARD.encode(b).into_bytes()
}

/// Relies on `base64::engine::general_purpose::STANDARD.decode`: the decoded bytes, or
/// nothing when the text is not well-formed base64.
#[verifier::external_body]
pub(crate) fn decode_b64(s: &[u8]) -> (r: Option<Vec<u8>>)
    ensures
        match r {
            Some(v) => b64_decode(s@) == Some(v@),
            None => b64_decode(s@) is None,
        },
{
    base64::engine::general_purpose::STANDARD.decode(s).ok()
}

} // verus!
