//! Fresh randomness for chunk identifiers and keys, through the `rand`
//! crate's operating-system source.

use rand::rngs::OsRng;
use rand::RngCore;
use vstd::prelude::*;

verus! {

/// Relies on `OsRng::fill_bytes` (the operating system's secure random
/// source): fills the array with 16 bytes about which nothing can be said.
#[verifier::external_body]
pub(crate) fn os_random_16() -> (r: Vec<u8>)
    ensures
        r@.len() == 16,
{
    let mut bytes = [0u8; 16];
    OsRng.fill_bytes(&mut bytes);
    bytes.to_vec()
}

} // verus!
