//! Hash-to-prime mapping: the value and nonce are concatenated and hashed,
//! the digest is read as a big-endian integer, and the candidate is
//! incremented until the primality oracle accepts it. The search is capped;
//! exhausting the cap is reported as a distinct error rather than looping
//! forever.

use vstd::prelude::*;
use num_bigint::BigUint;

use crate::arith::be_nat;
use crate::bigint::{big_value, big_from_u64, big_from_bytes_be, big_add};
use crate::hashing::{sha256_of, hash_byte_sequence};
use crate::arith::spec_prime;
use crate::primality::{is_prime, table_accepts, survives_table};
use crate::AccumulatorError;

verus! {

/// How many increments the prime search tries before giving up. Prime gaps
/// near 256-bit numbers are tiny against this bound, so the cap is never
/// reached in practice.
pub const MAX_PRIME_SEARCH_STEPS: u64 = 100000;

/// The first candidate of the search: the SHA-256 digest of the value
/// followed by the nonce, read as a big-endian integer.
pub open spec fn start_candidate(value: Seq<u8>, nonce: Seq<u8>) -> nat {
    be_nat(sha256_of(value + nonce))
}

/// What holds of every prime the mapper returns for the given value and
/// nonce: it lies in the capped window starting at the hash-derived
/// candidate; the oracle accepted it, so it is either a prime below 1000 or
/// free of every prime factor below 1000; and the walk to it skipped no
/// prime at all — the oracle never rejects a prime — so the result is at
/// most the least prime at or above the start candidate.
pub open spec fn mapped_prime_ok(value: Seq<u8>, nonce: Seq<u8>, e: nat) -> bool {
    &&& e >= start_candidate(value, nonce)
    &&& e < start_candidate(value, nonce) + MAX_PRIME_SEARCH_STEPS
    &&& e >= 2
    &&& (table_accepts(e) || survives_table(e))
    &&& (forall|c: nat| start_candidate(value, nonce) <= c < e ==> !(#[trigger] spec_prime(c)))
}

/// Determinism of the hash-to-prime mapping, up to the one-sided error of
/// the oracle: two results for the same value and nonce are equal whenever
/// both are prime. Each walk starts at the same hash-derived candidate and
/// skips no prime, so a prime result is the least prime at or above the
/// start; only a composite slipping past the randomized trials can differ
/// between two invocations.
pub proof fn lemma_mapped_prime_deterministic(value: Seq<u8>, nonce: Seq<u8>, e1: nat, e2: nat)
    requires
        mapped_prime_ok(value, nonce, e1),
        mapped_prime_ok(value, nonce, e2),
        spec_prime(e1),
        spec_prime(e2),
    ensures
        e1 == e2,
{
    if e1 < e2 {
        assert(!spec_prime(e1));
    }
    if e2 < e1 {
        assert(!spec_prime(e2));
    }
}

/// Deterministically derives a prime exponent from a value and a nonce:
/// hash, read big-endian, then increment until the oracle accepts. The
/// start candidate is a function of the inputs alone; which candidate the
/// randomized oracle first accepts depends on the witnesses it draws.
/// Exceeding the search cap is the one error.
pub fn hash_value_to_prime(value: &[u8], nonce: &[u8]) -> (r: Result<
    BigUint,
    AccumulatorError,
>)
    ensures
        r matches Ok(e) ==> mapped_prime_ok(value@, nonce@, big_value(e)),
        r is Err ==> (forall|c: nat|
            start_candidate(value@, nonce@) <= c < start_candidate(value@, nonce@)
                + MAX_PRIME_SEARCH_STEPS ==> !(#[trigger] spec_prime(c))),
{
    let mut buf: Vec<u8> = Vec::new();
    let mut i: usize = 0;
    while i < value.len()
        invariant
            i <= value.len(),
            buf@ == value@.take(i as int),
        decreases value.len() - i,
    {
        buf.push(value[i]);
        assert(buf@ =~= value@.take(i + 1));
        i = i + 1;
    }
    assert(buf@ =~= value@);
    let mut j: usize = 0;
    while j < nonce.len()
        invariant
            j <= nonce.len(),
            buf@ == value@ + nonce@.take(j as int),
        decreases nonce.len() - j,
    {
        buf.push(nonce[j]);
        assert(buf@ =~= value@ + nonce@.take(j + 1));
        j = j + 1;
    }
    assert(buf@ =~= value@ + nonce@);
    let digest = hash_byte_sequence(buf.as_slice());
    let mut candidate = big_from_bytes_be(digest.as_slice());
    let one = big_from_u64(1);
    let ghost start = start_candidate(value@, nonce@);
    let mut steps: u64 = 0;
    while steps < MAX_PRIME_SEARCH_STEPS
        invariant
            start == start_candidate(value@, nonce@),
            big_value(candidate) == start + steps,
            steps <= MAX_PRIME_SEARCH_STEPS,
            forall|c: nat| start <= c < big_value(candidate) ==> !(#[trigger] spec_prime(c)),
            big_value(one) == 1,
        decreases MAX_PRIME_SEARCH_STEPS - steps,
    {
        if is_prime(&candidate) {
            return Ok(candidate);
        }
        proof {
            assert(!spec_prime(big_value(candidate)));
        }
        candidate = big_add(&candidate, &one);
        steps = steps + 1;
    }
    Err(AccumulatorError::SearchExhausted)
}

} // verus!
