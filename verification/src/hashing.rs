//! Trusted access to the fixed cryptographic hash. The digest of a byte
//! string is a function of those bytes alone; `sha256_of` names it, and the
//! contracts of the rest of the crate speak of that name.

use vstd::prelude::*;

verus! {

/// The SHA-256 digest of a byte string: 32 bytes determined by the input
/// alone.
pub uninterp spec fn sha256_of(bytes: Seq<u8>) -> Seq<u8>;

/// Relies on `crypto_hash::digest` with the SHA-256 algorithm: the digest
/// depends on the input bytes alone and is 256 bits, that is 32 bytes, long.
#[verifier::external_body]
pub(crate) fn hash_byte_sequence(bytes: &[u8]) -> (r: Vec<u8>)
    ensures
        r@ == sha256_of(bytes@),
        r@.len() == 32,
{
    crypto_hash::digest(crypto_hash::Algorithm::SHA256, bytes)
}

} // verus!
