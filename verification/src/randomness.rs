//! Trusted access to the system's cryptographically secure random source.
//! Nothing can be promised of a random value beyond its range and length,
//! and the contracts here say no more.

use vstd::prelude::*;
use num_bigint::BigUint;
use num_bigint::RandBigInt;
use rand::Rng;

use vstd::arithmetic::power2::pow2;

use crate::bigint::big_value;

verus! {

/// Relies on `rand::thread_rng` and `Rng::gen` for a `[u8; 32]` array: a
/// fresh 32-byte random nonce.
#[verifier::external_body]
pub(crate) fn random_nonce() -> (r: Vec<u8>)
    ensures
        r@.len() == 32,
{
    let nonce: [u8; 32] = rand::thread_rng().gen();
    nonce.to_vec()
}

/// Relies on `rand::thread_rng` and `RandBigInt::gen_biguint`: a uniformly
/// random integer of at most the given bit size, so below two to that power.
#[verifier::external_body]
pub(crate) fn random_bits(bit_size: u64) -> (r: BigUint)
    ensures
        big_value(r) < pow2(bit_size as nat),
{
    rand::thread_rng().gen_biguint(bit_size)
}

/// Relies on `rand::thread_rng` and `RandBigInt::gen_biguint_range`: a
/// uniformly random integer at least the lower bound and strictly below the
/// upper bound. The call panics when the bounds are not so ordered; that
/// case is excluded here.
#[verifier::external_body]
pub(crate) fn random_in_range(lbound: &BigUint, ubound: &BigUint) -> (r: BigUint)
    requires
        big_value(*lbound) < big_value(*ubound),
    ensures
        big_value(*lbound) <= big_value(r) < big_value(*ubound),
{
    rand::thread_rng().gen_biguint_range(lbound, ubound)
}

} // verus!
