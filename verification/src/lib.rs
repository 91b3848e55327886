//! Chunked authenticated encryption.
//!
//! A file is split into fixed-size plaintext chunks; each chunk is encrypted
//! independently under a freshly drawn random key with AES-128-GCM, and is
//! meant to be stored as its own object, named by the chunk's random
//! 128-bit identifier. A metadata record — original length, nominal chunk
//! length, and the ordered list of chunk identifiers and keys — is all that
//! is needed, together with the ciphertext objects, to rebuild the file.
//!
//! The crate holds the data model, the padding and chunk-count accounting,
//! the in-memory encrypt/decrypt pipelines, the metadata text round trip,
//! and the command-line argument rules. File and directory handling stay
//! with the caller.

pub mod b64;
pub mod chunk;
pub mod cli;
pub mod decimal;
pub mod engine;
pub mod errors;
pub mod gcm;
pub mod hex;
pub mod meta;
pub mod rng;

pub use chunk::Chunk;
pub use cli::{parse_args, parse_d_args, parse_e_args, usage, usage_d, usage_e};
pub use cli::{CliError, DecryptParams, EncryptParams, Params};
pub use engine::{decrypt_file, encrypt_file, encrypt_file_unchunked};
pub use errors::Error;
pub use meta::{check_chunk_len, check_num_chunks, Metadata};
