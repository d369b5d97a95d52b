//! The primality oracle. A candidate is first held against every prime
//! below 1000 — equality means prime, a proper divisor means composite —
//! and only then handed to a strong-pseudoprime (Miller-Rabin) test with
//! five independently drawn random witnesses. The per-witness test is
//! verified exact against `mr_passes`; the randomized whole states what
//! holds of every outcome.

use vstd::prelude::*;
use vstd::arithmetic::power2::{pow2, lemma_pow2_unfold, lemma_pow2_pos, lemma2_to64};
use vstd::arithmetic::power::pow;
use vstd::arithmetic::div_mod::{
    lemma_fundamental_div_mod, lemma_div_multiples_vanish, lemma_mod_multiples_basic,
    lemma_small_mod, lemma_mod_bound,
};
use vstd::arithmetic::mul::{
    lemma_mul_is_commutative, lemma_mul_is_associative, lemma_mul_strictly_positive,
};
use num_bigint::BigUint;

use crate::arith::{
    spec_prime, pow_mod, odd_part, two_adic, lemma_pow_mod_compose, lemma_divisor_not_prime,
};
use crate::numtheory::{lemma_fermat, lemma_sqrt_of_one};
use crate::bigint::{
    big_value, big_from_u64, big_eq, big_clone, big_add, big_sub, big_div2, big_mod_u64,
    big_modpow,
};
use crate::randomness::random_in_range;

verus! {

/// The small-prime filter accepts outright: the candidate is itself one of
/// the primes below 1000.
pub open spec fn table_accepts(v: nat) -> bool {
    spec_prime(v) && v < 1000
}

/// The small-prime filter rejects outright: below two, or a prime below
/// 1000 properly divides the candidate.
pub open spec fn table_rejects(v: nat) -> bool {
    v < 2 || exists|q: nat| #[trigger] spec_prime(q) && q < 1000 && q != v && v % q == 0
}

/// The candidate leaves the small-prime filter undecided: at least two,
/// equal to no prime below 1000 and divisible by none.
pub open spec fn survives_table(v: nat) -> bool {
    v >= 2 && forall|q: nat| #[trigger] spec_prime(q) && q < 1000 ==> v != q && v % q != 0
}

/// The strong-pseudoprime pattern for candidate `n` and witness `a`: with
/// `n - 1 == 2^t * d` and `d` odd, either `a^d == 1 (mod n)`, or some of
/// the first `t` repeated squarings of `a^d` equals `n - 1 (mod n)`.
pub open spec fn mr_passes(n: nat, a: nat) -> bool
    recommends
        n >= 3,
{
    let d = odd_part((n - 1) as nat);
    let t = two_adic((n - 1) as nat);
    pow_mod(a, d, n) == 1 || exists|j: nat|
        j < t && #[trigger] pow_mod(a, d * pow2(j), n) == (n - 1) as nat
}

/// Every positive integer is a power of two times its odd part.
proof fn lemma_two_adic_recompose(m: nat)
    ensures
        pow2(two_adic(m)) * odd_part(m) == m,
    decreases m,
{
    lemma2_to64();
    if m == 0 || m % 2 == 1 {
        assert(pow2(0) * m == m);
    } else {
        let h = m / 2;
        lemma_fundamental_div_mod(m as int, 2int);
        assert(m == 2 * h);
        lemma_two_adic_recompose(h);
        assert(two_adic(m) == 1 + two_adic(h));
        assert(odd_part(m) == odd_part(h));
        lemma_pow2_unfold(two_adic(m));
        assert(pow2(two_adic(m)) == 2 * pow2(two_adic(h)));
        assert((2 * pow2(two_adic(h))) * odd_part(h) == 2 * (pow2(two_adic(h)) * odd_part(h)))
            by (nonlinear_arith);
        assert(pow2(two_adic(m)) * odd_part(m) == 2 * h);
    }
}

/// The descent behind the one-sided error: if some repeated squaring of
/// `a` to the odd part reaches 1 modulo a prime, the strong-pseudoprime
/// pattern holds — on the way to 1 the chain passes 1 from the start or
/// crosses the square root `n - 1`.
proof fn lemma_mr_descent(n: nat, a: nat, j: nat)
    requires
        spec_prime(n),
        n % 2 == 1,
        n >= 5,
        2 <= a <= n - 2,
        j <= two_adic((n - 1) as nat),
        pow_mod(a, odd_part((n - 1) as nat) * pow2(j), n) == 1,
    ensures
        mr_passes(n, a),
    decreases j,
{
    let d = odd_part((n - 1) as nat);
    let t = two_adic((n - 1) as nat);
    lemma2_to64();
    if j == 0 {
        assert(d * pow2(0) == d);
        assert(pow_mod(a, d, n) == 1);
    } else {
        let e = d * pow2((j - 1) as nat);
        let y = pow_mod(a, e, n);
        lemma_pow_mod_compose(a, e, 2, n);
        lemma_pow2_unfold(j);
        lemma_mul_is_associative(d as int, pow2((j - 1) as nat) as int, 2int);
        assert(e * 2 == d * pow2(j));
        assert(pow_mod(y, 2, n) == 1);
        crate::arith::lemma_pow_nonneg(y, 2);
        vstd::arithmetic::power::lemma_square_is_pow2(y as int);
        assert((y * y) % n == 1);
        assert(y < n) by {
            crate::arith::lemma_pow_nonneg(a, e);
            lemma_mod_bound(pow(a as int, e), n as int);
        }
        lemma_sqrt_of_one(n, y);
        if y == 1 {
            lemma_mr_descent(n, a, (j - 1) as nat);
        } else {
            assert(y == (n - 1) as nat);
            assert(((j - 1) as nat) < t);
            assert(pow_mod(a, d * pow2((j - 1) as nat), n) == (n - 1) as nat);
        }
    }
}

/// One-sided error of the strong-pseudoprime test: a true odd prime
/// exhibits the pattern for every admitted witness, by Fermat's little
/// theorem and the two square roots of one modulo a prime. No witness
/// choice can make the test reject a prime.
pub proof fn lemma_prime_passes_mr(n: nat, a: nat)
    requires
        spec_prime(n),
        n % 2 == 1,
        n >= 5,
        2 <= a <= n - 2,
    ensures
        mr_passes(n, a),
{
    let d = odd_part((n - 1) as nat);
    let t = two_adic((n - 1) as nat);
    lemma_two_adic_recompose((n - 1) as nat);
    lemma_mul_is_commutative(pow2(t) as int, d as int);
    assert(d * pow2(t) == (n - 1) as nat);
    lemma_small_mod(a, n);
    lemma_fermat(n, a);
    lemma_mr_descent(n, a, t);
}

/// Below a million, the small-prime filter rejects every composite: such a
/// composite has a prime factor at most its square root, hence below 1000.
pub proof fn lemma_trial_division_decides(v: nat)
    requires
        2 <= v <= 1000000,
        !spec_prime(v),
    ensures
        table_rejects(v),
{
    crate::arith::lemma_composite_has_small_factor(v);
    let p = choose|p: nat| #[trigger] spec_prime(p) && p != v && p * p <= v && v % p == 0;
    assert(p <= 1000) by {
        if p > 1000 {
            assert(p * p > 1000000) by (nonlinear_arith)
                requires
                    p > 1000,
            ;
        }
    }
    assert(p != 1000) by {
        if p == 1000 {
            assert(1000nat % 2nat == 0);
            assert(!spec_prime(1000));
        }
    }
    assert(spec_prime(p) && p < 1000 && p != v && v % p == 0);
}

/// A prime is rejected by no proper small-prime divisor.
proof fn lemma_prime_not_rejected(v: nat)
    requires
        spec_prime(v),
    ensures
        !table_rejects(v),
{
    if table_rejects(v) {
        let q = choose|q: nat| #[trigger] spec_prime(q) && q < 1000 && q != v && v % q == 0;
        lemma_divisor_not_prime(v, q);
    }
}

/// The factorization `n == 2^t * d` with `d` odd is unique: `d` is the odd
/// part of `n` and `t` its number of factors of two.
proof fn lemma_two_adic_unique(n: nat, d: nat, t: nat)
    requires
        d % 2 == 1,
        n == pow2(t) * d,
    ensures
        d == odd_part(n),
        t == two_adic(n),
    decreases t,
{
    lemma_pow2_pos(t);
    lemma_mul_strictly_positive(pow2(t) as int, d as int);
    if t == 0 {
        lemma2_to64();
        assert(n == d);
    } else {
        lemma_pow2_unfold(t);
        let h = pow2((t - 1) as nat) * d;
        assert(n == (2 * pow2((t - 1) as nat)) * d);
        lemma_mul_is_associative(2, pow2((t - 1) as nat) as int, d as int);
        assert(n == 2 * h);
        lemma_mul_is_commutative(2, h as int);
        lemma_mod_multiples_basic(h as int, 2int);
        assert(n % 2 == 0);
        lemma_div_multiples_vanish(h as int, 2int);
        assert(n / 2 == h);
        lemma_two_adic_unique(h, d, (t - 1) as nat);
    }
}

/// Primality of a machine-word value by complete trial division.
pub fn u64_is_prime(n: u64) -> (r: bool)
    ensures
        r == spec_prime(n as nat),
{
    if n < 2 {
        return false;
    }
    let mut d: u64 = 2;
    while d < n
        invariant
            2 <= d <= n,
            n >= 2,
            forall|k: nat| 1 < k < d ==> #[trigger] ((n as nat) % k) != 0,
        decreases n - d,
    {
        if n % d == 0 {
            assert(!spec_prime(n as nat)) by {
                assert((n as nat) % (d as nat) == 0);
            }
            return false;
        }
        d += 1;
    }
    true
}

/// One strong-pseudoprime trial of an odd candidate against one witness,
/// exactly the pattern `mr_passes` describes.
pub fn miller_rabin_trial(candidate: &BigUint, witness: &BigUint) -> (r: bool)
    requires
        big_value(*candidate) >= 5,
        big_value(*candidate) % 2 == 1,
        2 <= big_value(*witness) <= big_value(*candidate) - 2,
    ensures
        r == mr_passes(big_value(*candidate), big_value(*witness)),
{
    let ghost n = big_value(*candidate);
    let ghost aval = big_value(*witness);
    let one = big_from_u64(1);
    let two = big_from_u64(2);
    let n_minus_1 = big_sub(candidate, &one);
    let mut d = big_clone(&n_minus_1);
    let mut t = big_from_u64(0);
    proof {
        lemma2_to64();
    }
    loop
        invariant
            big_value(d) * pow2(big_value(t)) == (n - 1) as nat,
            big_value(d) >= 1,
            n >= 5,
            n == big_value(*candidate),
            n % 2 == 1,
            aval == big_value(*witness),
            2 <= aval <= n - 2,
            big_value(one) == 1,
            big_value(two) == 2,
            big_value(n_minus_1) == n - 1,
        ensures
            big_value(d) % 2 == 1,
        decreases big_value(d),
    {
        if big_mod_u64(&d, 2) != 0 {
            break;
        }
        let ghost dv = big_value(d);
        let ghost tv = big_value(t);
        proof {
            lemma_fundamental_div_mod(dv as int, 2int);
            lemma_pow2_unfold((tv + 1) as nat);
            assert((dv / 2) * pow2((tv + 1) as nat) == (dv / 2) * (2 * pow2(tv)));
            lemma_mul_is_associative((dv / 2) as int, 2int, pow2(tv) as int);
            assert(((dv / 2) * 2) * pow2(tv) == dv * pow2(tv));
        }
        d = big_div2(&d);
        t = big_add(&t, &one);
    }
    let ghost dval = big_value(d);
    let ghost tval = big_value(t);
    proof {
        lemma_mul_is_commutative(dval as int, pow2(tval) as int);
        lemma_two_adic_unique((n - 1) as nat, dval, tval);
        lemma2_to64();
        if tval == 0 {
            assert(dval == (n - 1) as nat);
        }
        assert(tval >= 1);
    }
    let mut v = big_modpow(witness, &d, candidate);
    if big_eq(&v, &one) {
        return true;
    }
    let mut i = big_from_u64(0);
    let t_minus_1 = big_sub(&t, &one);
    proof {
        lemma2_to64();
        assert(dval * pow2(0) == dval);
    }
    loop
        invariant
            n == big_value(*candidate),
            n >= 5,
            n % 2 == 1,
            aval == big_value(*witness),
            dval == odd_part((n - 1) as nat),
            tval == two_adic((n - 1) as nat),
            tval >= 1,
            big_value(i) <= tval - 1,
            big_value(v) == pow_mod(aval, dval * pow2(big_value(i)), n),
            forall|k: nat| k < big_value(i) ==> #[trigger] pow_mod(aval, dval * pow2(k), n) != (
            n - 1) as nat,
            pow_mod(aval, dval, n) != 1,
            big_value(one) == 1,
            big_value(two) == 2,
            big_value(n_minus_1) == n - 1,
            big_value(t_minus_1) == tval - 1,
        decreases tval - 1 - big_value(i),
    {
        if big_eq(&v, &n_minus_1) {
            assert(mr_passes(n, aval)) by {
                let j = big_value(i);
                assert(j < tval && pow_mod(aval, dval * pow2(j), n) == (n - 1) as nat);
            }
            return true;
        }
        if big_eq(&i, &t_minus_1) {
            assert(!mr_passes(n, aval)) by {
                assert forall|k: nat| k < tval implies #[trigger] pow_mod(aval, dval * pow2(k), n)
                    != (n - 1) as nat by {
                    if k == tval - 1 {
                        assert(pow_mod(aval, dval * pow2(big_value(i)), n) != (n - 1) as nat);
                    }
                }
            }
            return false;
        }
        let ghost iv = big_value(i);
        i = big_add(&i, &one);
        v = big_modpow(&v, &two, candidate);
        proof {
            lemma_pow_mod_compose(aval, dval * pow2(iv), 2, n);
            lemma_pow2_unfold((iv + 1) as nat);
            lemma_mul_is_associative(dval as int, pow2(iv) as int, 2int);
            assert(pow2(iv) * 2 == 2 * pow2(iv));
            assert((dval * pow2(iv)) * 2 == dval * pow2((iv + 1) as nat));
        }
    }
}

/// The probabilistic stage of the oracle: five independent random-witness
/// strong-pseudoprime trials of an odd candidate. The verdict is exactly
/// the conjunction of the five trials for witnesses drawn from
/// `[2, candidate - 2]`; which witnesses were drawn is random. The error is
/// one-sided: a true prime passes every witness, so it is always accepted;
/// only acceptance of a composite is left to chance.
pub fn miller_rabin(candidate: &BigUint) -> (r: bool)
    requires
        big_value(*candidate) >= 5,
        big_value(*candidate) % 2 == 1,
    ensures
        spec_prime(big_value(*candidate)) ==> r,
        exists|ws: Seq<nat>|
            ws.len() == 5 && (forall|k: int| 0 <= k < 5 ==> 2 <= #[trigger] ws[k] <= big_value(
                *candidate,
            ) - 2) && (r <==> (forall|k: int|
                0 <= k < 5 ==> mr_passes(big_value(*candidate), #[trigger] ws[k]))),
{
    let ghost n = big_value(*candidate);
    let one = big_from_u64(1);
    let two = big_from_u64(2);
    let upper = big_sub(candidate, &one);
    let ghost mut drawn: Seq<nat> = Seq::empty();
    let mut trial: u64 = 0;
    while trial < 5
        invariant
            trial <= 5,
            drawn.len() == trial as nat,
            n == big_value(*candidate),
            n >= 5,
            n % 2 == 1,
            big_value(one) == 1,
            big_value(two) == 2,
            big_value(upper) == n - 1,
            forall|k: int| 0 <= k < trial ==> 2 <= #[trigger] drawn[k] <= n - 2,
            forall|k: int| 0 <= k < trial ==> mr_passes(n, #[trigger] drawn[k]),
        decreases 5 - trial,
    {
        let a = random_in_range(&two, &upper);
        let ghost av = big_value(a);
        if !miller_rabin_trial(candidate, &a) {
            proof {
                if spec_prime(n) {
                    lemma_prime_passes_mr(n, av);
                }
                let ws = drawn.push(av).add(Seq::new((4 - trial) as nat, |x: int| av));
                assert(ws.len() == 5);
                assert(ws[trial as int] == av);
                assert(forall|k: int| 0 <= k < 5 ==> 2 <= #[trigger] ws[k] <= n - 2);
                assert(!mr_passes(n, ws[trial as int]));
            }
            return false;
        }
        proof {
            drawn = drawn.push(av);
        }
        trial += 1;
    }
    proof {
        assert(drawn.len() == 5);
    }
    true
}

/// The primality oracle: zero and one are not prime; a candidate equal to
/// a prime below 1000 is prime; one properly divisible by a prime below
/// 1000 is composite; anything the filter leaves open goes to the
/// random-witness strong-pseudoprime test. A true prime is never rejected,
/// whatever witnesses are drawn; only a composite above a million can slip
/// through, with probability bounded by the five trials.
pub fn is_prime(candidate: &BigUint) -> (r: bool)
    ensures
        table_accepts(big_value(*candidate)) ==> r,
        table_rejects(big_value(*candidate)) ==> !r,
        r ==> big_value(*candidate) >= 2,
        r ==> table_accepts(big_value(*candidate)) || survives_table(big_value(*candidate)),
        !r ==> table_rejects(big_value(*candidate)) || survives_table(big_value(*candidate)),
        big_value(*candidate) < 1000 ==> r == spec_prime(big_value(*candidate)),
        !spec_prime(big_value(*candidate)) && big_value(*candidate) <= 1000000 ==> !r,
        spec_prime(big_value(*candidate)) ==> r,
{
    let ghost v = big_value(*candidate);
    if big_eq(candidate, &big_from_u64(0)) || big_eq(candidate, &big_from_u64(1)) {
        return false;
    }
    let mut p: u64 = 2;
    while p < 1000
        invariant
            2 <= p <= 1000,
            v == big_value(*candidate),
            v >= 2,
            forall|q: nat| #[trigger] spec_prime(q) && q < p ==> v != q && v % q != 0,
        decreases 1000 - p,
    {
        if u64_is_prime(p) {
            if big_eq(candidate, &big_from_u64(p)) {
                proof {
                    lemma_prime_not_rejected(v);
                }
                return true;
            }
            if big_mod_u64(candidate, p) == 0 {
                proof {
                    lemma_divisor_not_prime(v, p as nat);
                    assert(table_rejects(v)) by {
                        assert(spec_prime(p as nat) && (p as nat) < 1000 && (p as nat) != v && v
                            % (p as nat) == 0);
                    }
                }
                return false;
            }
        }
        p += 1;
    }
    proof {
        assert(survives_table(v));
        if table_accepts(v) {
            assert(spec_prime(v) && v < 1000);
            assert(v != v);
        }
        if table_rejects(v) {
            let q = choose|q: nat| #[trigger] spec_prime(q) && q < 1000 && q != v && v % q == 0;
            assert(v % q != 0);
        }
        assert(spec_prime(2)) by {
            assert(forall|d: nat| 1 < d < 2 ==> #[trigger] (2nat % d) != 0);
        }
        assert(spec_prime(3)) by {
            assert forall|d: nat| 1 < d < 3 implies #[trigger] (3nat % d) != 0 by {
                assert(d == 2);
                assert(3nat % 2nat == 1);
            }
        }
        assert(v != 2 && v % 2 != 0);
        assert(v != 3);
        assert(v >= 5);
        if !spec_prime(v) && v <= 1000000 {
            lemma_trial_division_decides(v);
            let q = choose|q: nat| #[trigger] spec_prime(q) && q < 1000 && q != v && v % q == 0;
            assert(v % q != 0);
        }
        assert(spec_prime(v) || v > 1000000);
        if v < 1000 {
            assert(spec_prime(v) && v < 1000);
            assert(v != v);
        }
        assert(v >= 1000);
    }
    miller_rabin(candidate)
}

} // verus!
