//! Mathematical model shared by the whole crate: exponentiation modulo a
//! positive integer, big-endian byte values, products of exponent sequences,
//! primality, and the two-adic decomposition used by the strong-pseudoprime
//! test, together with the lemmas the executable code is proved against.

use vstd::prelude::*;
use vstd::arithmetic::power::{pow, lemma_pow_multiplies, lemma_pow_mod_noop, lemma_pow_positive};
use vstd::arithmetic::mul::{lemma_mul_is_commutative, lemma_mul_is_associative};

verus! {

/// The non-negative integer denoted by a byte string read in big-endian
/// order: the first byte is the most significant.
pub open spec fn be_nat(s: Seq<u8>) -> nat
    decreases s.len(),
{
    if s.len() == 0 {
        0
    } else {
        be_nat(s.drop_last()) * 256 + (s.last() as nat)
    }
}

/// `b` raised to `e`, reduced modulo `m`.
pub open spec fn pow_mod(b: nat, e: nat, m: nat) -> nat
    recommends
        m >= 1,
{
    (pow(b as int, e) % (m as int)) as nat
}

/// The product of a sequence of naturals; 1 for the empty sequence.
pub open spec fn product_of(s: Seq<nat>) -> nat
    decreases s.len(),
{
    if s.len() == 0 {
        1
    } else {
        product_of(s.drop_last()) * s.last()
    }
}

/// Mathematical primality: at least 2, and no divisor strictly between 1
/// and itself.
pub open spec fn spec_prime(n: nat) -> bool {
    n >= 2 && forall|d: nat| 1 < d < n ==> #[trigger] (n % d) != 0
}

/// The number of factors of two in `n` (0 for `n == 0`).
pub open spec fn two_adic(n: nat) -> nat
    decreases n,
{
    if n == 0 || n % 2 == 1 {
        0
    } else {
        1 + two_adic(n / 2)
    }
}

/// `n` with all factors of two removed.
pub open spec fn odd_part(n: nat) -> nat
    decreases n,
{
    if n == 0 || n % 2 == 1 {
        n
    } else {
        odd_part(n / 2)
    }
}

/// A non-negative base raised to any power stays non-negative.
pub proof fn lemma_pow_nonneg(b: nat, e: nat)
    ensures
        pow(b as int, e) >= 0,
{
    if b == 0 {
        if e == 0 {
            vstd::arithmetic::power::lemma_pow0(0int);
        } else {
            vstd::arithmetic::power::lemma0_pow(e);
        }
    } else {
        lemma_pow_positive(b as int, e);
    }
}

/// Raising `g` to `a` and then the result to `b`, both modulo `m`, is
/// raising `g` to `a * b` modulo `m`.
pub proof fn lemma_pow_mod_compose(g: nat, a: nat, b: nat, m: nat)
    requires
        m >= 1,
    ensures
        pow_mod(pow_mod(g, a, m), b, m) == pow_mod(g, a * b, m),
{
    lemma_pow_nonneg(g, a);
    lemma_pow_mod_noop(pow(g as int, a), b, m as int);
    lemma_pow_multiplies(g as int, a, b);
}

/// Replacing a 1 in a sequence of factors multiplies the product by the
/// replacement.
pub proof fn lemma_product_update(s: Seq<nat>, j: int, e: nat)
    requires
        0 <= j < s.len(),
        s[j] == 1,
    ensures
        product_of(s.update(j, e)) == product_of(s) * e,
    decreases s.len(),
{
    let t = s.update(j, e);
    if j == s.len() - 1 {
        assert(t.drop_last() =~= s.drop_last());
        assert(product_of(t) == product_of(s.drop_last()) * e);
        assert(product_of(s) == product_of(s.drop_last()) * 1);
    } else {
        assert(t.drop_last() =~= s.drop_last().update(j, e));
        lemma_product_update(s.drop_last(), j, e);
        assert(product_of(t) == (product_of(s.drop_last()) * e) * s.last());
        lemma_mul_is_associative(product_of(s.drop_last()) as int, e as int, s.last() as int);
        lemma_mul_is_commutative(e as int, s.last() as int);
        lemma_mul_is_associative(product_of(s.drop_last()) as int, s.last() as int, e as int);
    }
}

/// Membership soundness at the level of the model: if a sequence of
/// exponents carries a 1 at position `j`, then the witness — the generator
/// raised to the product of the sequence — raised once more to `e` equals
/// the generator raised to the product with `e` written at position `j`.
pub proof fn lemma_witness_verifies(g: nat, m: nat, es: Seq<nat>, j: int, e: nat)
    requires
        m >= 1,
        0 <= j < es.len(),
        es[j] == 1,
    ensures
        pow_mod(pow_mod(g, product_of(es), m), e, m) == pow_mod(g, product_of(es.update(j, e)), m),
{
    lemma_pow_mod_compose(g, product_of(es), e, m);
    lemma_product_update(es, j, e);
}

/// Multi-member consistency at the level of the model: raising the
/// generator to three exponents one after another, in any order, lands on
/// the generator raised to their product; and each member's witness — the
/// generator raised to the product of the other two exponents — verifies
/// against that common final state.
pub proof fn lemma_three_member_consistency(g: nat, m: nat, e1: nat, e2: nat, e3: nat)
    requires
        m >= 1,
    ensures
        pow_mod(pow_mod(pow_mod(g, e1, m), e2, m), e3, m) == pow_mod(g, (e1 * e2) * e3, m),
        pow_mod(pow_mod(pow_mod(g, e2, m), e1, m), e3, m) == pow_mod(g, (e1 * e2) * e3, m),
        pow_mod(pow_mod(pow_mod(g, e3, m), e2, m), e1, m) == pow_mod(g, (e1 * e2) * e3, m),
        pow_mod(pow_mod(g, e2 * e3, m), e1, m) == pow_mod(g, (e1 * e2) * e3, m),
        pow_mod(pow_mod(g, e1 * e3, m), e2, m) == pow_mod(g, (e1 * e2) * e3, m),
        pow_mod(pow_mod(g, e1 * e2, m), e3, m) == pow_mod(g, (e1 * e2) * e3, m),
{
    assert((e2 * e1) * e3 == (e1 * e2) * e3) by (nonlinear_arith);
    assert((e3 * e2) * e1 == (e1 * e2) * e3) by (nonlinear_arith);
    assert((e2 * e3) * e1 == (e1 * e2) * e3) by (nonlinear_arith);
    assert((e1 * e3) * e2 == (e1 * e2) * e3) by (nonlinear_arith);
    lemma_pow_mod_compose(g, e1, e2, m);
    lemma_pow_mod_compose(g, e1 * e2, e3, m);
    lemma_pow_mod_compose(g, e2, e1, m);
    lemma_pow_mod_compose(g, e2 * e1, e3, m);
    lemma_pow_mod_compose(g, e3, e2, m);
    lemma_pow_mod_compose(g, e3 * e2, e1, m);
    lemma_pow_mod_compose(g, e2 * e3, e1, m);
    lemma_pow_mod_compose(g, e1 * e3, e2, m);
}

/// Divisibility is transitive: a divisor of a divisor of `n` divides `n`.
proof fn lemma_mod_transitive(n: nat, d: nat, p: nat)
    requires
        d >= 1,
        p >= 1,
        n % d == 0,
        d % p == 0,
    ensures
        n % p == 0,
{
    vstd::arithmetic::div_mod::lemma_fundamental_div_mod(n as int, d as int);
    vstd::arithmetic::div_mod::lemma_fundamental_div_mod(d as int, p as int);
    let k = n as int / d as int;
    let j = d as int / p as int;
    assert(n as int == (p * j) * k);
    lemma_mul_is_associative(p as int, j, k);
    lemma_mul_is_commutative(p as int, j * k);
    vstd::arithmetic::div_mod::lemma_mod_multiples_basic(j * k, p as int);
}

/// Every integer at least two has a prime factor.
pub proof fn lemma_exists_prime_factor(n: nat)
    requires
        n >= 2,
    ensures
        exists|p: nat| #[trigger] spec_prime(p) && p <= n && n % p == 0,
    decreases n,
{
    if spec_prime(n) {
        assert(n % n == 0) by {
            vstd::arithmetic::div_mod::lemma_mod_self_0(n as int);
        }
        assert(spec_prime(n) && n <= n && n % n == 0);
    } else {
        let d = choose|d: nat| 1 < d < n && #[trigger] (n % d) == 0;
        lemma_exists_prime_factor(d);
        let p = choose|p: nat| #[trigger] spec_prime(p) && p <= d && d % p == 0;
        lemma_mod_transitive(n, d, p);
        assert(spec_prime(p) && p <= n && n % p == 0);
    }
}

/// Every composite has a prime factor no larger than its square root — a
/// proper one.
pub proof fn lemma_composite_has_small_factor(n: nat)
    requires
        n >= 2,
        !spec_prime(n),
    ensures
        exists|p: nat| #[trigger] spec_prime(p) && p != n && p * p <= n && n % p == 0,
{
    let d = choose|d: nat| 1 < d < n && #[trigger] (n % d) == 0;
    vstd::arithmetic::div_mod::lemma_fundamental_div_mod(n as int, d as int);
    let k = n / d;
    assert(n == d * k);
    assert(k >= 2) by {
        if k == 0 {
            assert(n == d * 0);
        }
        if k == 1 {
            assert(n == d * 1);
        }
    }
    let a: nat = if d <= k {
        d
    } else {
        k
    };
    assert(a * a <= n && n % a == 0) by {
        if d <= k {
            assert(d * d <= d * k) by (nonlinear_arith)
                requires
                    0 <= d <= k,
            ;
        } else {
            assert(k * k <= d * k) by (nonlinear_arith)
                requires
                    0 <= k <= d,
            ;
            lemma_mul_is_commutative(d as int, k as int);
            vstd::arithmetic::div_mod::lemma_mod_multiples_basic(d as int, k as int);
        }
    }
    lemma_exists_prime_factor(a);
    let p = choose|p: nat| #[trigger] spec_prime(p) && p <= a && a % p == 0;
    lemma_mod_transitive(n, a, p);
    assert(p * p <= a * a) by (nonlinear_arith)
        requires
            0 <= p <= a,
    ;
    assert(p != n) by {
        if p == n {
            assert(n * n > n) by (nonlinear_arith)
                requires
                    n >= 2,
            ;
        }
    }
    assert(spec_prime(p) && p != n && p * p <= n && n % p == 0);
}

/// A proper divisor strictly between 1 and `n` witnesses that `n` is not
/// prime.
pub proof fn lemma_divisor_not_prime(n: nat, d: nat)
    requires
        2 <= d,
        d != n,
        n >= 2,
        n % d == 0,
    ensures
        !spec_prime(n),
{
    if n < d {
        assert(n % d == n) by {
            vstd::arithmetic::div_mod::lemma_small_mod(n, d);
        }
    }
    assert(1 < d < n && n % d == 0);
}

} // verus!
