//! Base64 text for chunk keys, through the `base64` crate.
//!
//! What the encoding looks like character by character is of no concern
//! here; the contracts only name the two results and tie them together:
//! decoding the encoding of a byte string gives that byte string back.

use vstd::prelude::*;

verus! {

/// The base64 text that `base64::encode` produces for a byte string.
pub uninterp spec fn base64_of(bytes: Seq<u8>) -> Seq<char>;

/// The bytes that `base64::decode` reads out of a text, or `None` where it
/// rejects the text.
pub uninterp spec fn base64_inv(text: Seq<char>) -> Option<Seq<u8>>;

/// Relies on `base64::encode`: standard alphabet with padding, so the text
/// has four characters for every three bytes begun, and `base64::decode`
/// reads the original bytes back out of it.
#[verifier::external_body]
pub(crate) fn base64_encode(bytes: &[u8]) -> (r: String)
    requires
        bytes@.len() < usize::MAX / 4,
    ensures
        r@ == base64_of(bytes@),
        r@.len() == (bytes@.len() + 2) / 3 * 4,
        base64_inv(r@) == Some(bytes@),
{
    base64::encode(bytes)
}

/// Relies on `base64::decode`: a deterministic reading of the text, refused
/// whenever the text is not well-formed base64.
#[verifier::external_body]
pub(crate) fn base64_decode(text: &str) -> (r: Option<Vec<u8>>)
    ensures
        match r {
            Some(v) => base64_inv(text@) == Some(v@),
            None => base64_inv(text@) is None,
        },
{
    base64::decode(text).ok()
}

} // verus!
