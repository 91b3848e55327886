//! One chunk: a random 128-bit identity and a random 128-bit key.
//!
//! The identity names the chunk's ciphertext object; the key encrypts that
//! one chunk and no other. The nonce is not stored: it is the first 12
//! bytes of the key. (That derivation ties the nonce to the key, which a
//! fresh design would avoid by drawing an independent random nonce; it is
//! kept because everything already stored was sealed under it.)

use crate::b64::{base64_encode, base64_inv, base64_of};
use crate::errors::Error;
use crate::gcm::{aead_open, aead_seal, aes_gcm_open, aes_gcm_seal, GCM_PLAIN_MAX};
use crate::hex::{encode_hex, hex_of, lemma_hex_of_len};
use crate::rng::os_random_16;
use vstd::prelude::*;

verus! {

/// What a chunk is mathematically: its two byte strings.
pub struct ChunkView {
    pub id: Seq<u8>,
    pub key: Seq<u8>,
}

impl ChunkView {
    /// Both byte strings are 128 bits long.
    pub open spec fn wf(&self) -> bool {
        self.id.len() == 16 && self.key.len() == 16
    }
}

/// The nonce a key implies: its first 12 bytes.
pub open spec fn nonce_of(key: Seq<u8>) -> Seq<u8> {
    key.subrange(0, 12)
}

/// A chunk's identity and key.
#[derive(Debug)]
pub struct Chunk {
    /// 16 bytes naming the chunk and its ciphertext object.
    pub id: Vec<u8>,
    /// 16 bytes keying the chunk's cipher.
    pub key: Vec<u8>,
}

impl View for Chunk {
    type V = ChunkView;

    open spec fn view(&self) -> ChunkView {
        ChunkView { id: self.id@, key: self.key@ }
    }
}

impl Clone for Chunk {
    fn clone(&self) -> (c: Self)
        ensures
            c@ == self@,
    {
        Chunk { id: self.id.clone(), key: self.key.clone() }
    }
}

impl PartialEq for Chunk {
    fn eq(&self, other: &Chunk) -> (r: bool) {
        let ids = self.id == other.id;
        let keys = self.key == other.key;
        proof {
            if ids {
                assert(self.id@ =~= other.id@);
            }
            if keys {
                assert(self.key@ =~= other.key@);
            }
        }
        ids && keys
    }
}

impl Eq for Chunk {

}

impl vstd::std_specs::cmp::PartialEqSpecImpl for Chunk {
    open spec fn obeys_eq_spec() -> bool {
        true
    }

    open spec fn eq_spec(&self, other: &Chunk) -> bool {
        self@.id == other@.id && self@.key == other@.key
    }
}

impl Chunk {
    /// Both byte strings are 128 bits long.
    pub open spec fn wf(&self) -> bool {
        self@.wf()
    }

    /// A chunk from its two byte strings.
    pub fn new(id: Vec<u8>, key: Vec<u8>) -> (c: Chunk)
        requires
            id@.len() == 16,
            key@.len() == 16,
        ensures
            c@ == (ChunkView { id: id@, key: key@ }),
            c.wf(),
    {
        Chunk { id, key }
    }

    /// A chunk whose identity and key are two independent fresh draws from
    /// the operating system's secure random source.
    pub fn random() -> (c: Chunk)
        ensures
            c.wf(),
    {
        Chunk { id: os_random_16(), key: os_random_16() }
    }

    /// The identity as 32 lowercase hex digits: the ciphertext object's name.
    pub fn id_string(&self) -> (r: String)
        requires
            self.wf(),
        ensures
            r@ == hex_of(self@.id),
            r@.len() == 32,
    {
        proof {
            lemma_hex_of_len(self@.id);
        }
        encode_hex(self.id.as_slice())
    }

    /// The key as base64 text, for the transportable metadata form.
    pub fn key_string(&self) -> (r: String)
        requires
            self.wf(),
        ensures
            r@ == base64_of(self@.key),
            base64_inv(r@) == Some(self@.key),
            r@.len() == 24,
    {
        base64_encode(self.key.as_slice())
    }

    /// The first 12 bytes of the key, used as the cipher's nonce.
    pub fn nonce(&self) -> (r: Vec<u8>)
        requires
            self.wf(),
        ensures
            r@ == nonce_of(self@.key),
    {
        let mut r: Vec<u8> = Vec::new();
        let mut i: usize = 0;
        while i < 12
            invariant
                i <= 12,
                self.wf(),
                r@ =~= self@.key.subrange(0, i as int),
            decreases 12 - i,
        {
            r.push(self.key[i]);
            i = i + 1;
        }
        r
    }

    /// Seals the buffer in place: authenticated encryption under this
    /// chunk's key and derived nonce, a 16-byte tag appended.
    pub fn encrypt(&self, buffer: &mut Vec<u8>)
        requires
            self.wf(),
            old(buffer)@.len() <= GCM_PLAIN_MAX,
            old(buffer)@.len() + 16 <= usize::MAX,
        ensures
            final(buffer)@ == aes_gcm_seal(self@.key, nonce_of(self@.key), old(buffer)@),
            final(buffer)@.len() == old(buffer)@.len() + 16,
            aes_gcm_open(self@.key, nonce_of(self@.key), final(buffer)@) == Some(old(buffer)@),
    {
        let nonce = self.nonce();
        aead_seal(self.key.as_slice(), nonce.as_slice(), buffer);
    }

    /// Opens the buffer in place: verifies the tag and strips it, leaving
    /// the plaintext; fails — buffer untouched — where the tag does not
    /// verify.
    pub fn decrypt(&self, buffer: &mut Vec<u8>) -> (r: Result<(), Error>)
        requires
            self.wf(),
        ensures
            match r {
                Ok(()) => {
                    &&& aes_gcm_open(self@.key, nonce_of(self@.key), old(buffer)@) == Some(
                        final(buffer)@,
                    )
                    &&& final(buffer)@.len() + 16 == old(buffer)@.len()
                },
                Err(e) => {
                    &&& e == Error::AuthFailure
                    &&& aes_gcm_open(self@.key, nonce_of(self@.key), old(buffer)@) is None
                    &&& final(buffer)@ == old(buffer)@
                },
            },
    {
        let nonce = self.nonce();
        match aead_open(self.key.as_slice(), nonce.as_slice(), buffer) {
            Ok(()) => Ok(()),
            Err(()) => Err(Error::AuthFailure),
        }
    }
}

} // verus!
