//! AES-128-GCM, through the `aes-gcm` crate.
//!
//! Sealing and opening are deterministic in key, nonce and input, so each
//! gets a name; the contracts tie the two together — opening a sealed
//! buffer under the same key and nonce gives the plaintext back — and give
//! the length bookkeeping of the appended 16-byte tag.

use aes_gcm::aead::AeadInPlace;
use aes_gcm::{Aes128Gcm, KeyInit, Nonce};
use vstd::prelude::*;

verus! {

/// Greatest plaintext length AES-GCM accepts (2^36 bytes).
pub const GCM_PLAIN_MAX: u64 = 0x10_0000_0000;

/// The ciphertext-with-tag that AES-128-GCM produces from a key, a nonce
/// and a plaintext, with empty associated data.
pub uninterp spec fn aes_gcm_seal(key: Seq<u8>, nonce: Seq<u8>, plain: Seq<u8>) -> Seq<u8>;

/// The plaintext that AES-128-GCM reads out of a ciphertext-with-tag under
/// a key and a nonce, or `None` where the tag does not verify.
pub uninterp spec fn aes_gcm_open(key: Seq<u8>, nonce: Seq<u8>, cipher: Seq<u8>) -> Option<
    Seq<u8>,
>;

/// Relies on `Aes128Gcm::encrypt_in_place` (with empty associated data):
/// deterministic in key, nonce and plaintext; appends a 16-byte tag; its
/// output opens back to the plaintext under the same key and nonce.
#[verifier::external_body]
pub(crate) fn aead_seal(key: &[u8], nonce: &[u8], buffer: &mut Vec<u8>)
    requires
        key@.len() == 16,
        nonce@.len() == 12,
        old(buffer)@.len() <= GCM_PLAIN_MAX,
        old(buffer)@.len() + 16 <= usize::MAX,
    ensures
        final(buffer)@ == aes_gcm_seal(key@, nonce@, old(buffer)@),
        final(buffer)@.len() == old(buffer)@.len() + 16,
        aes_gcm_open(key@, nonce@, final(buffer)@) == Some(old(buffer)@),
{
    let cipher = Aes128Gcm::new_from_slice(key).unwrap();
    cipher.encrypt_in_place(Nonce::from_slice(nonce), &[], buffer).unwrap();
}

/// Relies on `Aes128Gcm::decrypt_in_place` (with empty associated data):
/// verifies the tag over the ciphertext and only then strips it and
/// decrypts; on failure the buffer is left as it was.
#[verifier::external_body]
pub(crate) fn aead_open(key: &[u8], nonce: &[u8], buffer: &mut Vec<u8>) -> (r: Result<(), ()>)
    requires
        key@.len() == 16,
        nonce@.len() == 12,
    ensures
        match r {
            Ok(()) => {
                &&& aes_gcm_open(key@, nonce@, old(buffer)@) == Some(final(buffer)@)
                &&& final(buffer)@.len() + 16 == old(buffer)@.len()
            },
            Err(()) => {
                &&& aes_gcm_open(key@, nonce@, old(buffer)@) is None
                &&& final(buffer)@ == old(buffer)@
            },
        },
{
    let cipher = Aes128Gcm::new_from_slice(key).unwrap();
    cipher.decrypt_in_place(Nonce::from_slice(nonce), &[], buffer).map_err(|_| ())
}

} // verus!
