use num_bigint::BigUint;
use num_bigint::RandBigInt;

use set_accumulator::SetAccumulator;
use set_accumulator::check_witness;
use set_accumulator::verify_membership;
use set_accumulator::mapper::hash_value_to_prime;
use set_accumulator::mem_store::MemStore;
use set_accumulator::primality::{is_prime, miller_rabin, u64_is_prime};
use set_accumulator::primegen::distinct_prime_pair;
use set_accumulator::store::Storer;

fn fresh_accumulator(prime_bits: usize) -> (SetAccumulator<MemStore>, BigUint, BigUint) {
    let primes: (BigUint, BigUint) = distinct_prime_pair(prime_bits).unwrap();
    let modulus: BigUint = primes.0 * primes.1;
    let generator: BigUint = rand::thread_rng().gen_biguint_below(&modulus);
    let sa: SetAccumulator<MemStore> = SetAccumulator::new(MemStore::new(
        generator.clone(),
        Vec::new(),
        modulus.clone(),
        generator.clone(),
    ));
    (sa, generator, modulus)
}

#[test]
fn test_is_prime() {
    let zero: BigUint = BigUint::from_bytes_be(&0_u64.to_be_bytes().to_vec());
    let one: BigUint = BigUint::from_bytes_be(&1_u64.to_be_bytes().to_vec());
    let two: BigUint = BigUint::from_bytes_be(&2_u64.to_be_bytes().to_vec());
    let three: BigUint = BigUint::from_bytes_be(&3_u64.to_be_bytes().to_vec());
    let twenty_nine: BigUint = BigUint::from_bytes_be(&29_u64.to_be_bytes().to_vec());
    let eighty_seven: BigUint = twenty_nine.clone() * three;
    assert_eq!(false, is_prime(&zero));
    assert_eq!(false, is_prime(&one));
    assert_eq!(true, is_prime(&two));
    assert_eq!(true, is_prime(&twenty_nine));
    assert_eq!(false, is_prime(&eighty_seven));

    let prime: BigUint = BigUint::from_bytes_be(&55340232221128654847_u128.to_be_bytes().to_vec());
    assert_eq!(true, is_prime(&prime));

    let not_prime: BigUint =
        BigUint::from_bytes_be(&55340232221128654848_u128.to_be_bytes().to_vec());
    assert_eq!(false, is_prime(&not_prime));
}

#[test]
fn test_add_and_verify() {
    let primes: (BigUint, BigUint) = distinct_prime_pair(512).unwrap();
    let members: Vec<(Vec<u8>, Vec<u8>)> = Vec::new();
    let modulus: BigUint = primes.0 * primes.1;
    let generator: BigUint = rand::thread_rng().gen_biguint_below(&modulus);
    let mut sa: SetAccumulator<MemStore> = SetAccumulator::new(MemStore::new(
        generator.clone(),
        members,
        modulus.clone(),
        generator.clone(),
    ));
    let hello_world: String = "Hello World!".to_string();
    let value: &[u8] = hello_world.as_bytes();
    sa.add(value).unwrap();
    let (witness, nonce): (BigUint, Vec<u8>) = sa.get_witness(value).unwrap().unwrap();
    let exponent: BigUint = hash_value_to_prime(value, &nonce).unwrap();
    assert_eq!(sa.store.get_state(), witness.modpow(&exponent, &modulus));
}

#[test]
fn test_map_to_prime_deterministic() {
    let value: &[u8] = b"determinism";
    let nonce: Vec<u8> = vec![7u8; 32];
    let first = hash_value_to_prime(value, &nonce).unwrap();
    let second = hash_value_to_prime(value, &nonce).unwrap();
    assert_eq!(first, second);
    // A real 256-bit digest starts the search far above any small prime.
    assert!(first > BigUint::from(1000000u64));
    assert!(is_prime(&first));
    // Even empty inputs are hashed: SHA-256 of the empty string begins with
    // byte 0xe3, so the search starts above 2^255.
    let of_empty = hash_value_to_prime(b"", b"").unwrap();
    assert!(of_empty > (BigUint::from(1u8) << 255));
}

#[test]
fn test_get_witness_absent() {
    let (mut sa, _generator, _modulus) = fresh_accumulator(128);
    assert_eq!(sa.get_witness(b"never added"), Ok(None));
    sa.add(b"present").unwrap();
    assert_eq!(sa.get_witness(b"still absent"), Ok(None));
    assert!(sa.get_witness(b"present").unwrap().is_some());
}

#[test]
fn test_single_member_witness_is_generator() {
    let (mut sa, generator, modulus) = fresh_accumulator(128);
    sa.add(b"only member").unwrap();
    let (witness, nonce) = sa.get_witness(b"only member").unwrap().unwrap();
    assert_eq!(witness, generator);
    assert_eq!(nonce.len(), 32);
    let ok = verify_membership(b"only member", &witness, &nonce, &modulus, &sa.store.get_state());
    assert_eq!(ok, Ok(true));
}

#[test]
fn test_multi_member_consistency() {
    let (mut sa, _generator, modulus) = fresh_accumulator(128);
    let values: [&[u8]; 3] = [b"v1", b"v2", b"v3"];
    for value in values.iter() {
        sa.add(value).unwrap();
    }
    let state = sa.store.get_state();
    for value in values.iter() {
        let (witness, nonce) = sa.get_witness(value).unwrap().unwrap();
        let ok = verify_membership(value, &witness, &nonce, &modulus, &state);
        assert_eq!(ok, Ok(true));
    }
}

#[test]
fn test_distinct_prime_pair() {
    let (p, q) = distinct_prime_pair(64).unwrap();
    assert_ne!(p, q);
    assert!(is_prime(&p));
    assert!(is_prime(&q));
    let bound = BigUint::from(1u8) << 64;
    assert!(p < bound);
    assert!(q < bound);
}

#[test]
fn test_check_witness_exact() {
    let witness = BigUint::from(2u64);
    let exponent = BigUint::from(10u64);
    let modulus = BigUint::from(1000u64);
    // 2^10 mod 1000 == 24
    assert_eq!(true, check_witness(&witness, &exponent, &modulus, &BigUint::from(24u64)));
    assert_eq!(false, check_witness(&witness, &exponent, &modulus, &BigUint::from(25u64)));
}

#[test]
fn test_miller_rabin_fixed_verdicts() {
    // 9 = 3*3 has no strong liar among 2..=7, so every witness refutes it.
    assert_eq!(false, miller_rabin(&BigUint::from(9u64)));
    // A true prime passes for every witness.
    assert_eq!(true, miller_rabin(&BigUint::from(13u64)));
}

#[test]
fn test_is_prime_boundaries() {
    // Largest prime below the small-prime table bound, and the first above.
    assert_eq!(true, is_prime(&BigUint::from(997u64)));
    assert_eq!(true, is_prime(&BigUint::from(1009u64)));
    // 994009 = 997 * 997: a composite whose only prime factor sits at the
    // very edge of the table, rejected by trial division alone.
    assert_eq!(false, is_prime(&BigUint::from(994009u64)));
    assert_eq!(false, is_prime(&BigUint::from(999999u64)));
    // A prime above a million reaches the strong-pseudoprime stage, which
    // never rejects a prime.
    assert_eq!(true, is_prime(&BigUint::from(1000003u64)));
}

#[test]
fn test_u64_trial_division() {
    assert_eq!(false, u64_is_prime(0));
    assert_eq!(false, u64_is_prime(1));
    assert_eq!(true, u64_is_prime(2));
    assert_eq!(true, u64_is_prime(997));
    assert_eq!(false, u64_is_prime(999));
}

#[test]
fn test_overwrite_same_value() {
    let (mut sa, generator, _modulus) = fresh_accumulator(128);
    sa.add(b"twice").unwrap();
    let state_after_first = sa.store.get_state();
    let (_w1, n1) = sa.get_witness(b"twice").unwrap().unwrap();
    sa.add(b"twice").unwrap();
    let (w2, n2) = sa.get_witness(b"twice").unwrap().unwrap();
    // The nonce is overwritten with a fresh draw, the state is mutated a
    // second time, and the list still holds one entry for the value, so
    // its witness is still the bare generator. Whether the old witness
    // material still verifies is deliberately left undefined.
    assert_ne!(n1, n2);
    assert_ne!(state_after_first, sa.store.get_state());
    assert_eq!(w2, generator);
}
