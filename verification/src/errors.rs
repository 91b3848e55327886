//! Failure cases of validation, decoding and decryption.

use vstd::prelude::*;

verus! {

/// Everything that can go wrong while encrypting, decrypting, or moving a
/// metadata record between its structured and textual forms.
#[derive(Clone, Copy, Debug, PartialEq, Eq, Structural)]
pub enum Error {
    /// The nominal chunk length is not a multiple of 16 bytes.
    ChunkLenNotMultiple,
    /// The nominal chunk length is too small for the chunk-count rule to be
    /// evaluated (16 bytes or fewer, where the rule would divide by zero).
    ChunkLenTooSmall,
    /// The input to encrypt holds no bytes at all.
    EmptyInput,
    /// The number of chunks on record disagrees with the number derived from
    /// the file length and the chunk length.
    ChunkCountMismatch,
    /// A ciphertext object does not have the expected on-disk length of
    /// chunk length plus tag.
    ObjectLenMismatch,
    /// An authentication tag failed to verify: the ciphertext was tampered
    /// with, corrupted, or paired with the wrong key.
    AuthFailure,
    /// The metadata text does not have the expected overall shape.
    MalformedMetadata,
    /// A chunk identifier in the metadata text is not 32 hex digits.
    MalformedId,
    /// A chunk key in the metadata text is not base64 for 16 bytes.
    MalformedKey,
}

impl Error {
    /// A short human-readable description, for callers that report failures.
    pub fn message(&self) -> (r: &'static str)
        ensures
            r@.len() > 0,
    {
        proof {
            reveal_strlit("chunk length must be a multiple of 16");
        }
        match self {
            Error::ChunkLenNotMultiple => "chunk length must be a multiple of 16",
            Error::ChunkLenTooSmall => {
                proof {
                    reveal_strlit("chunk length must be larger than 16");
                }
                "chunk length must be larger than 16"
            },
            Error::EmptyInput => {
                proof {
                    reveal_strlit("input is empty");
                }
                "input is empty"
            },
            Error::ChunkCountMismatch => {
                proof {
                    reveal_strlit("unexpected number of chunks");
                }
                "unexpected number of chunks"
            },
            Error::ObjectLenMismatch => {
                proof {
                    reveal_strlit("ciphertext object has the wrong length");
                }
                "ciphertext object has the wrong length"
            },
            Error::AuthFailure => {
                proof {
                    reveal_strlit("authentication failed");
                }
                "authentication failed"
            },
            Error::MalformedMetadata => {
                proof {
                    reveal_strlit("malformed metadata");
                }
                "malformed metadata"
            },
            Error::MalformedId => {
                proof {
                    reveal_strlit("malformed ID");
                }
                "malformed ID"
            },
            Error::MalformedKey => {
                proof {
                    reveal_strlit("malformed key");
                }
                "malformed key"
            },
        }
    }
}

} // verus!
