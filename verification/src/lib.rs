//! An RSA-style cryptographic accumulator: a compact representation of a
//! set of byte-string values supporting insertion and membership witnesses.
//! Each member is bound to a fresh nonce and deterministically mapped to a
//! prime exponent; the accumulator state is the generator raised to the
//! product of all member exponents, modulo a composite of two secret
//! primes. A verifier holding the value, its nonce, the witness and the
//! public parameters recomputes the exponent and checks one modular
//! exponentiation.

use vstd::prelude::*;

pub mod arith;
pub mod bigint;
pub mod bytes;
pub mod hashing;
pub mod mapper;
pub mod mem_store;
pub mod numtheory;
pub mod primality;
pub mod primegen;
pub mod randomness;
pub mod store;

use num_bigint::BigUint;

use crate::arith::{pow_mod, product_of, spec_prime, lemma_witness_verifies};
use crate::bigint::{big_value, big_eq, big_modpow};
use crate::bytes::bytes_eq;
use crate::mapper::{
    hash_value_to_prime, mapped_prime_ok, lemma_mapped_prime_deterministic, start_candidate,
    MAX_PRIME_SEARCH_STEPS,
};
use crate::randomness::random_nonce;
use crate::store::{Storer, has_member_key, member_key_index, insert_member_spec, unique_keys};

verus! {

/// The one fatal condition the accumulator surfaces: a capped prime search
/// ran out of attempts. Non-membership is not an error; it is reported as
/// an absent witness.
#[derive(Debug, Clone, Copy, PartialEq, Eq, Structural)]
pub enum AccumulatorError {
    SearchExhausted,
}

/// A sequence of exponents aligned with the member list as seen from one
/// member: the member's own positions carry 1, and every other position
/// carries a prime the mapper could have produced for that entry's value
/// and nonce.
pub open spec fn witness_exponents_ok(
    ms: Seq<(Seq<u8>, Seq<u8>)>,
    key: Seq<u8>,
    es: Seq<nat>,
) -> bool {
    &&& es.len() == ms.len()
    &&& (forall|i: int| 0 <= i < ms.len() && ms[i].0 == key ==> #[trigger] es[i] == 1)
    &&& (forall|i: int|
        0 <= i < ms.len() && ms[i].0 != key ==> mapped_prime_ok(ms[i].0, ms[i].1, #[trigger] es[i]))
}

/// Whether every entry of the member list binds the given value — so the
/// witness walk has no other member to re-derive an exponent for.
pub open spec fn all_keys_equal(ms: Seq<(Seq<u8>, Seq<u8>)>, key: Seq<u8>) -> bool {
    forall|i: int| 0 <= i < ms.len() ==> #[trigger] ms[i].0 == key
}

/// The accumulator engine over a pluggable store.
pub struct SetAccumulator<T: Storer> {
    pub store: T,
}

impl<T: Storer> SetAccumulator<T> {
    /// An engine borrowing its state from the given store.
    pub fn new(s: T) -> (r: SetAccumulator<T>)
        ensures
            r.store == s,
    {
        SetAccumulator { store: s }
    }

    /// Inserts a value: draws a fresh 32-byte nonce, maps value and nonce
    /// to a prime exponent, raises the current state to that exponent
    /// modulo the modulus, and records the (value, nonce) association,
    /// overwriting any earlier nonce for the same value. On a failed prime
    /// search the store is left untouched and the error is surfaced.
    pub fn add(&mut self, value: &[u8]) -> (r: Result<(), AccumulatorError>)
        requires
            old(self).store.wf(),
            old(self).store.modulus() >= 1,
        ensures
            final(self).store.wf(),
            final(self).store.generator() == old(self).store.generator(),
            final(self).store.modulus() == old(self).store.modulus(),
            r matches Ok(u) ==> (exists|nonce: Seq<u8>, e: nat|
                {
                    &&& #[trigger] mapped_prime_ok(value@, nonce, e)
                    &&& nonce.len() == 32
                    &&& final(self).store.state() == pow_mod(
                        old(self).store.state(),
                        e,
                        old(self).store.modulus(),
                    )
                    &&& final(self).store.members() == insert_member_spec(
                        old(self).store.members(),
                        value@,
                        nonce,
                    )
                }),
            r matches Err(x) ==> *final(self) == *old(self),
    {
        let nonce = random_nonce();
        let exponent = match hash_value_to_prime(value, nonce.as_slice()) {
            Ok(e) => e,
            Err(x) => {
                return Err(x);
            },
        };
        let modulus = self.store.get_modulus();
        let state = self.store.get_state();
        let new_state = big_modpow(&state, &exponent, &modulus);
        self.store.set_state(&new_state);
        self.store.insert_member(value, nonce.as_slice());
        proof {
            let n = nonce@;
            let e = big_value(exponent);
            assert(mapped_prime_ok(value@, n, e));
            assert(n.len() == 32);
            assert(self.store.state() == pow_mod(
                old(self).store.state(),
                e,
                old(self).store.modulus(),
            ));
            assert(self.store.members() == insert_member_spec(
                old(self).store.members(),
                value@,
                n,
            ));
        }
        Ok(())
    }

    /// Produces the membership witness for a value: absent when the value
    /// was never added; otherwise the generator raised, modulo the
    /// modulus, to every other member's re-derived prime exponent, paired
    /// with the nonce recorded for the value. The store is read, never
    /// changed. A failed prime search while re-deriving an exponent is
    /// surfaced as the error.
    pub fn get_witness(&mut self, value: &[u8]) -> (r: Result<
        Option<(BigUint, Vec<u8>)>,
        AccumulatorError,
    >)
        requires
            old(self).store.wf(),
            old(self).store.modulus() >= 1,
        ensures
            *final(self) == *old(self),
            !has_member_key(old(self).store.members(), value@) ==> r is Ok,
            all_keys_equal(old(self).store.members(), value@) ==> r is Ok,
            r matches Ok(w) ==> ((w is Some) <==> has_member_key(
                old(self).store.members(),
                value@,
            )),
            r matches Ok(w) ==> (w matches Some(p) ==> ({
                let ms = old(self).store.members();
                &&& p.1@ == ms[member_key_index(ms, value@)].1
                &&& (exists|es: Seq<nat>|
                    {
                        &&& #[trigger] witness_exponents_ok(ms, value@, es)
                        &&& (big_value(p.0) == pow_mod(
                            old(self).store.generator(),
                            product_of(es),
                            old(self).store.modulus(),
                        ) || (product_of(es) == 1 && big_value(p.0) == old(
                            self,
                        ).store.generator()))
                    })
            })),
    {
        let ghost ms = old(self).store.members();
        let count = self.store.members_count();
        let mut nonce_found: Option<Vec<u8>> = None;
        let mut i: usize = 0;
        while i < count
            invariant
                *self == *old(self),
                old(self).store.wf(),
                count == ms.len(),
                ms == old(self).store.members(),
                i <= count,
                nonce_found is None ==> (forall|k: int| 0 <= k < i ==> ms[k].0 != value@),
                nonce_found matches Some(nn) ==> (exists|k: int|
                    0 <= k < i && #[trigger] ms[k].0 == value@ && nn@ == ms[k].1),
            decreases count - i,
        {
            let kv = self.store.member_at(i);
            if bytes_eq(kv.0.as_slice(), value) {
                nonce_found = Some(kv.1);
            }
            i = i + 1;
        }
        let nonce = match nonce_found {
            Some(nn) => nn,
            None => {
                assert(!has_member_key(ms, value@)) by {
                    if has_member_key(ms, value@) {
                        let k = choose|k: int| 0 <= k < ms.len() && ms[k].0 == value@;
                        assert(ms[k].0 != value@);
                    }
                }
                return Ok(None);
            },
        };
        proof {
            self.store.wf_implies_unique();
            let k = choose|k: int| 0 <= k < ms.len() && #[trigger] ms[k].0 == value@ && nonce@
                == ms[k].1;
            assert(has_member_key(ms, value@));
            let j = member_key_index(ms, value@);
            assert(0 <= j < ms.len() && ms[j].0 == value@);
            assert(j == k) by {
                if j < k {
                    assert(ms[j].0 != ms[k].0);
                }
                if k < j {
                    assert(ms[k].0 != ms[j].0);
                }
            }
            assert(nonce@ == ms[member_key_index(ms, value@)].1);
        }
        let mut witness = self.store.get_generator();
        let modulus = self.store.get_modulus();
        let ghost gval = old(self).store.generator();
        let ghost mval = old(self).store.modulus();
        let ghost mut es: Seq<nat> = Seq::empty();
        let mut j: usize = 0;
        while j < count
            invariant
                *self == *old(self),
                old(self).store.wf(),
                old(self).store.modulus() >= 1,
                count == ms.len(),
                ms == old(self).store.members(),
                has_member_key(ms, value@),
                gval == old(self).store.generator(),
                mval == old(self).store.modulus(),
                big_value(modulus) == mval,
                j <= count,
                es.len() == j as nat,
                forall|k: int| 0 <= k < j && ms[k].0 == value@ ==> #[trigger] es[k] == 1,
                forall|k: int|
                    0 <= k < j && ms[k].0 != value@ ==> mapped_prime_ok(
                        ms[k].0,
                        ms[k].1,
                        #[trigger] es[k],
                    ),
                big_value(witness) == pow_mod(gval, product_of(es), mval) || (product_of(es) == 1
                    && big_value(witness) == gval),
            decreases count - j,
        {
            let kv = self.store.member_at(j);
            if !bytes_eq(kv.0.as_slice(), value) {
                let exponent = match hash_value_to_prime(kv.0.as_slice(), kv.1.as_slice()) {
                    Ok(e) => e,
                    Err(x) => {
                        proof {
                            assert(!all_keys_equal(ms, value@)) by {
                                assert(ms[j as int].0 != value@);
                            }
                        }
                        return Err(x);
                    },
                };
                let ghost e = big_value(exponent);
                let ghost wv = big_value(witness);
                witness = big_modpow(&witness, &exponent, &modulus);
                proof {
                    let es2 = es.push(e);
                    assert(es2.drop_last() =~= es);
                    assert(es2.last() == e);
                    assert(product_of(es2) == product_of(es) * e);
                    if product_of(es) == 1 && wv == gval {
                        assert(big_value(witness) == pow_mod(gval, e, mval));
                        assert(product_of(es2) == 1 * e);
                        assert(1 * e == e) by (nonlinear_arith);
                    } else {
                        crate::arith::lemma_pow_mod_compose(gval, product_of(es), e, mval);
                    }
                    es = es2;
                }
            } else {
                proof {
                    let es2 = es.push(1nat);
                    assert(es2.drop_last() =~= es);
                    assert(es2.last() == 1nat);
                    assert(product_of(es2) == product_of(es) * 1);
                    es = es2;
                }
            }
            j = j + 1;
        }
        proof {
            assert(witness_exponents_ok(ms, value@, es));
        }
        Ok(Some((witness, nonce)))
    }
}

/// Membership round trip over the engine's artifacts, up to the oracle's
/// one-sided error: take a member list with unique values; add-time
/// exponents `es0`, one mapper-valid prime per entry, so that the state is
/// the generator raised to their product; witness exponents `es` as
/// `get_witness` builds them for the member at `j` — 1 at that member's
/// position, a mapper-valid prime for every other entry; and a re-derived
/// mapper-valid prime `e` for the member at `j`. Then the witness — the
/// generator raised to the product of `es` — raised once more to `e`
/// equals the state: the prime mapping is deterministic on primes, so
/// every re-derived exponent equals the add-time one. Applied at each
/// position in turn, every member's witness verifies against the same
/// final state. Only exponents on which the randomized oracle accepted a
/// composite are left out.
pub proof fn lemma_membership_round_trip(
    g: nat,
    m: nat,
    ms: Seq<(Seq<u8>, Seq<u8>)>,
    es0: Seq<nat>,
    es: Seq<nat>,
    j: int,
    e: nat,
)
    requires
        m >= 1,
        unique_keys(ms),
        0 <= j < ms.len(),
        es0.len() == ms.len(),
        forall|i: int| 0 <= i < ms.len() ==> mapped_prime_ok(ms[i].0, ms[i].1, #[trigger] es0[i]),
        forall|i: int| 0 <= i < ms.len() ==> spec_prime(#[trigger] es0[i]),
        witness_exponents_ok(ms, ms[j].0, es),
        forall|i: int| 0 <= i < ms.len() && ms[i].0 != ms[j].0 ==> spec_prime(#[trigger] es[i]),
        mapped_prime_ok(ms[j].0, ms[j].1, e),
        spec_prime(e),
    ensures
        pow_mod(pow_mod(g, product_of(es), m), e, m) == pow_mod(g, product_of(es0), m),
{
    assert(es[j] == 1);
    assert forall|i: int| 0 <= i < ms.len() implies es.update(j, e)[i] == es0[i] by {
        if i == j {
            lemma_mapped_prime_deterministic(ms[j].0, ms[j].1, e, es0[j]);
        } else {
            assert(ms[i].0 != ms[j].0);
            lemma_mapped_prime_deterministic(ms[i].0, ms[i].1, es[i], es0[i]);
        }
    }
    assert(es.update(j, e) =~= es0);
    lemma_witness_verifies(g, m, es, j, e);
}

/// One modular exponentiation of the verification protocol: whether the
/// witness raised to the exponent, modulo the modulus, equals the claimed
/// accumulator state.
pub fn check_witness(witness: &BigUint, exponent: &BigUint, modulus: &BigUint, state: &BigUint) -> (r:
    bool)
    requires
        big_value(*modulus) >= 1,
    ensures
        r == (pow_mod(big_value(*witness), big_value(*exponent), big_value(*modulus)) == big_value(
            *state,
        )),
{
    let lhs = big_modpow(witness, exponent, modulus);
    big_eq(&lhs, state)
}

/// The verifier side of the protocol: re-derives the prime exponent from
/// the value and the nonce carried by the witness, and accepts exactly
/// when the witness raised to that exponent, modulo the modulus, equals
/// the current accumulator state.
pub fn verify_membership(
    value: &[u8],
    witness: &BigUint,
    nonce: &[u8],
    modulus: &BigUint,
    state: &BigUint,
) -> (r: Result<bool, AccumulatorError>)
    requires
        big_value(*modulus) >= 1,
    ensures
        r matches Ok(b) ==> (exists|e: nat|
            #[trigger] mapped_prime_ok(value@, nonce@, e) && b == (pow_mod(
                big_value(*witness),
                e,
                big_value(*modulus),
            ) == big_value(*state))),
        r is Err ==> (forall|c: nat|
            start_candidate(value@, nonce@) <= c < start_candidate(value@, nonce@)
                + MAX_PRIME_SEARCH_STEPS ==> !(#[trigger] spec_prime(c))),
{
    let exponent = match hash_value_to_prime(value, nonce) {
        Ok(e) => e,
        Err(x) => {
            return Err(x);
        },
    };
    let b = check_witness(witness, &exponent, modulus, state);
    proof {
        let e = big_value(exponent);
        assert(mapped_prime_ok(value@, nonce@, e));
    }
    Ok(b)
}

} // verus!
