//! Trusted view of `num_bigint::BigUint` and thin wrappers around the
//! arithmetic the accumulator needs. A `BigUint` is opaque to the verifier;
//! `big_value` names the non-negative integer it denotes, and every wrapper
//! states over `big_value` what the called operation computes.

use vstd::prelude::*;
use num_bigint::BigUint;
use num_traits::ToPrimitive;

use crate::arith::{be_nat, pow_mod};

verus! {

#[verifier::external_type_specification]
#[verifier::external_body]
pub struct ExBigUint(BigUint);

/// The non-negative integer a `BigUint` denotes.
pub uninterp spec fn big_value(b: BigUint) -> nat;

/// Relies on `BigUint: From<u64>`: the big integer denoting the given value.
#[verifier::external_body]
pub(crate) fn big_from_u64(x: u64) -> (r: BigUint)
    ensures
        big_value(r) == x as nat,
{
    BigUint::from(x)
}

/// Relies on `BigUint::from_bytes_be`: the bytes are read as one big-endian
/// unsigned integer.
#[verifier::external_body]
pub(crate) fn big_from_bytes_be(bytes: &[u8]) -> (r: BigUint)
    ensures
        big_value(r) == be_nat(bytes@),
{
    BigUint::from_bytes_be(bytes)
}

/// Relies on `PartialEq` of `BigUint`: equality of the denoted integers.
#[verifier::external_body]
pub(crate) fn big_eq(a: &BigUint, b: &BigUint) -> (r: bool)
    ensures
        r == (big_value(*a) == big_value(*b)),
{
    a == b
}

/// Relies on `Clone` of `BigUint`: the copy denotes the same integer.
#[verifier::external_body]
pub(crate) fn big_clone(a: &BigUint) -> (r: BigUint)
    ensures
        big_value(r) == big_value(*a),
{
    a.clone()
}

/// Relies on `Add` of `BigUint`.
#[verifier::external_body]
pub(crate) fn big_add(a: &BigUint, b: &BigUint) -> (r: BigUint)
    ensures
        big_value(r) == big_value(*a) + big_value(*b),
{
    a + b
}

/// Relies on `Sub` of `BigUint`, which panics when the subtrahend is
/// larger; that case is excluded here.
#[verifier::external_body]
pub(crate) fn big_sub(a: &BigUint, b: &BigUint) -> (r: BigUint)
    requires
        big_value(*b) <= big_value(*a),
    ensures
        big_value(r) == big_value(*a) - big_value(*b),
{
    a - b
}

/// Relies on `Div<u64>` of `BigUint`: truncating division by two.
#[verifier::external_body]
pub(crate) fn big_div2(a: &BigUint) -> (r: BigUint)
    ensures
        big_value(r) == big_value(*a) / 2,
{
    a / 2u64
}

/// Relies on `Rem<u64>` of `BigUint`, which panics on a zero divisor
/// (excluded here); the remainder is below the divisor, so reading it back
/// as `u64` cannot fail.
#[verifier::external_body]
pub(crate) fn big_mod_u64(a: &BigUint, m: u64) -> (r: u64)
    requires
        m != 0,
    ensures
        r == big_value(*a) % (m as nat),
{
    (a % m).to_u64().unwrap()
}

/// Relies on `BigUint::modpow`: `(self ^ exponent) % modulus`, which panics
/// on a zero modulus; that case is excluded here.
#[verifier::external_body]
pub(crate) fn big_modpow(base: &BigUint, exponent: &BigUint, modulus: &BigUint) -> (r: BigUint)
    requires
        big_value(*modulus) >= 1,
    ensures
        big_value(r) == pow_mod(big_value(*base), big_value(*exponent), big_value(*modulus)),
{
    base.modpow(exponent, modulus)
}

} // verus!
