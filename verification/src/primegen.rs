//! Random prime generation for RSA-style modulus construction: uniformly
//! random candidates of the requested bit length are drawn until the
//! primality oracle accepts one, and pairs are resampled until distinct.
//! Both searches are capped and report exhaustion as an error.

use vstd::prelude::*;
use vstd::arithmetic::power2::pow2;
use num_bigint::BigUint;

use crate::bigint::{big_value, big_eq};
use crate::primality::{is_prime, table_accepts, survives_table};
use crate::randomness::random_bits;
use crate::AccumulatorError;

verus! {

/// How many random candidates one prime search draws before giving up. A
/// candidate is prime with probability far above one over this bound for
/// every realistic bit length.
pub const MAX_PRIME_GENERATION_ATTEMPTS: u64 = 100000;

/// How often the second member of a pair is redrawn on a collision before
/// giving up.
pub const MAX_DISTINCT_PAIR_ATTEMPTS: u64 = 64;

/// What holds of every value the generator returns for the requested bit
/// length: below two to that power, and accepted by the oracle.
pub open spec fn generated_prime_ok(bit_size: nat, p: nat) -> bool {
    &&& p < pow2(bit_size)
    &&& p >= 2
    &&& (table_accepts(p) || survives_table(p))
}

/// Draws uniformly random integers of the given bit length until the
/// primality oracle accepts one. Which draw succeeds is random; every
/// returned value is oracle-accepted and within the bit-length bound.
/// Exceeding the attempt cap is the one error.
pub fn random_prime(bit_size: usize) -> (r: Result<BigUint, AccumulatorError>)
    ensures
        r matches Ok(p) ==> generated_prime_ok(bit_size as nat, big_value(p)),
{
    let mut attempts: u64 = 0;
    while attempts < MAX_PRIME_GENERATION_ATTEMPTS
        invariant
            true,
        decreases MAX_PRIME_GENERATION_ATTEMPTS - attempts,
    {
        let candidate = random_bits(bit_size as u64);
        if is_prime(&candidate) {
            assert(big_value(candidate) < pow2(bit_size as nat));
            return Ok(candidate);
        }
        attempts = attempts + 1;
    }
    Err(AccumulatorError::SearchExhausted)
}

/// Two independently generated primes of the same bit length, resampled on
/// the astronomically unlikely collision, so the members of the returned
/// pair always denote distinct integers.
pub fn distinct_prime_pair(bit_size: usize) -> (r: Result<
    (BigUint, BigUint),
    AccumulatorError,
>)
    ensures
        r matches Ok(pq) ==> ({
            &&& generated_prime_ok(bit_size as nat, big_value(pq.0))
            &&& generated_prime_ok(bit_size as nat, big_value(pq.1))
            &&& big_value(pq.0) != big_value(pq.1)
        }),
{
    let first = match random_prime(bit_size) {
        Ok(p) => p,
        Err(e) => {
            return Err(e);
        },
    };
    let mut second = match random_prime(bit_size) {
        Ok(p) => p,
        Err(e) => {
            return Err(e);
        },
    };
    let mut attempts: u64 = 0;
    while attempts < MAX_DISTINCT_PAIR_ATTEMPTS
        invariant
            generated_prime_ok(bit_size as nat, big_value(first)),
            generated_prime_ok(bit_size as nat, big_value(second)),
        decreases MAX_DISTINCT_PAIR_ATTEMPTS - attempts,
    {
        if !big_eq(&first, &second) {
            return Ok((first, second));
        }
        second = match random_prime(bit_size) {
            Ok(p) => p,
            Err(e) => {
                return Err(e);
            },
        };
        attempts = attempts + 1;
    }
    Err(AccumulatorError::SearchExhausted)
}

} // verus!
