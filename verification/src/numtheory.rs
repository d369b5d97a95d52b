//! Number theory behind the one-sided error of the strong-pseudoprime
//! test: Euclid's lemma by descent, a pigeonhole argument over duplicate-free
//! sequences, Fermat's little theorem via the residue-product argument, and
//! the square roots of one modulo a prime.

use vstd::prelude::*;
use vstd::arithmetic::power::{pow, lemma_pow0, lemma_pow1, lemma_pow_adds, lemma_pow_positive};
use vstd::arithmetic::div_mod::{
    lemma_fundamental_div_mod, lemma_mod_bound, lemma_mod_multiples_basic, lemma_small_mod,
    lemma_mul_mod_noop_general,
};

use crate::arith::{spec_prime, pow_mod, product_of};

verus! {

/// The factorial of `m`.
pub open spec fn factorial(m: nat) -> nat
    decreases m,
{
    if m == 0 {
        1
    } else {
        m * factorial((m - 1) as nat)
    }
}

/// No entry occurs twice.
pub open spec fn distinct_seq(s: Seq<nat>) -> bool {
    forall|i: int, j: int| 0 <= i < j < s.len() ==> s[i] != s[j]
}

/// The sequence with the entry at position `i` left out.
pub open spec fn skip_at(s: Seq<nat>, i: int) -> Seq<nat> {
    Seq::new(
        (s.len() - 1) as nat,
        |x: int|
            if x < i {
                s[x]
            } else {
                s[x + 1]
            },
    )
}

/// Two values equal modulo `m` differ by a multiple of `m`.
proof fn lemma_mod_diff_zero(x: int, y: int, m: int)
    requires
        m > 0,
        x % m == y % m,
    ensures
        (x - y) % m == 0,
{
    lemma_fundamental_div_mod(x, m);
    lemma_fundamental_div_mod(y, m);
    let qx = x / m;
    let qy = y / m;
    assert(x - y == (qx - qy) * m) by (nonlinear_arith)
        requires
            x == m * qx + x % m,
            y == m * qy + y % m,
            x % m == y % m,
    ;
    lemma_mod_multiples_basic(qx - qy, m);
}

/// A multiple of `m` plus a remainder below `m` reduces to that remainder.
proof fn lemma_mod_of_multiple_plus(k: int, r: int, m: int)
    requires
        m > 0,
        0 <= r < m,
    ensures
        (k * m + r) % m == r,
{
    lemma_fundamental_div_mod(k * m + r, m);
    lemma_mod_bound(k * m + r, m);
    let q = (k * m + r) / m;
    let s = (k * m + r) % m;
    assert(r - s == (q - k) * m) by (nonlinear_arith)
        requires
            k * m + r == m * q + s,
    ;
    assert(r == s) by (nonlinear_arith)
        requires
            r - s == (q - k) * m,
            0 <= r < m,
            0 <= s < m,
    ;
}

/// The descent core of Euclid's lemma: a prime dividing `x * y` with
/// `0 < x < p` divides `y`.
proof fn lemma_euclid_core(p: nat, x: nat, y: nat)
    requires
        spec_prime(p),
        0 < x < p,
        (x * y) % p == 0,
    ensures
        y % p == 0,
    decreases x,
{
    if x == 1 {
        assert(1 * y == y) by (nonlinear_arith);
    } else {
        lemma_fundamental_div_mod(p as int, x as int);
        lemma_mod_bound(p as int, x as int);
        let q = p as int / x as int;
        let r = p as int % x as int;
        if r == 0 {
            assert(p % x == 0);
            assert(1 < x < p);
            assert(false);
        }
        lemma_fundamental_div_mod((x * y) as int, p as int);
        let m = (x * y) as int / p as int;
        let pp = p as int;
        let xx = x as int;
        let yy = y as int;
        assert(r * yy == pp * (yy - q * m)) by (nonlinear_arith)
            requires
                pp == xx * q + r,
                xx * yy == pp * m,
        ;
        assert(r * yy == (yy - q * m) * pp) by (nonlinear_arith)
            requires
                r * yy == pp * (yy - q * m),
        ;
        lemma_mod_multiples_basic(yy - q * m, pp);
        assert(((r as nat) * y) % p == 0);
        lemma_euclid_core(p, r as nat, y);
    }
}

/// Euclid's lemma: a prime dividing a product divides one of the factors.
pub proof fn lemma_euclid(p: nat, x: nat, y: nat)
    requires
        spec_prime(p),
        (x * y) % p == 0,
    ensures
        x % p == 0 || y % p == 0,
{
    let x1 = x % p;
    lemma_mod_bound(x as int, p as int);
    lemma_mul_mod_noop_general(x as int, y as int, p as int);
    assert((x1 * y) % p == 0);
    if x1 != 0 {
        lemma_euclid_core(p, x1, y);
    }
}

/// Modulo a prime, one has exactly the two square roots 1 and p - 1.
pub proof fn lemma_sqrt_of_one(p: nat, y: nat)
    requires
        spec_prime(p),
        y < p,
        (y * y) % p == 1,
    ensures
        y == 1 || y == p - 1,
{
    if y == 0 {
        assert(y * y == 0) by (nonlinear_arith)
            requires
                y == 0,
        ;
        assert(0nat % p == 0) by {
            lemma_small_mod(0, p);
        }
    }
    assert(y >= 1);
    lemma_fundamental_div_mod((y * y) as int, p as int);
    let q = (y * y) as int / p as int;
    assert(((y - 1) * (y + 1)) as int == q * (p as int)) by (nonlinear_arith)
        requires
            (y * y) as int == (p as int) * q + 1,
            y >= 1,
    ;
    assert((((y - 1) as nat) * ((y + 1) as nat)) % p == 0) by {
        lemma_mod_multiples_basic(q, p as int);
    }
    lemma_euclid(p, (y - 1) as nat, (y + 1) as nat);
    if ((y - 1) as nat) % p == 0 {
        lemma_small_mod((y - 1) as nat, p);
        assert(y == 1);
    } else {
        assert(((y + 1) as nat) % p == 0);
        if y + 1 < p {
            lemma_small_mod((y + 1) as nat, p);
            assert(false);
        }
        assert(y + 1 == p);
    }
}

/// Leaving one entry out divides the product by that entry.
proof fn lemma_product_skip(s: Seq<nat>, i: int)
    requires
        0 <= i < s.len(),
    ensures
        product_of(skip_at(s, i)) * s[i] == product_of(s),
    decreases s.len(),
{
    if i == s.len() - 1 {
        assert(skip_at(s, i) =~= s.drop_last());
    } else {
        let sd = s.drop_last();
        assert(skip_at(s, i).drop_last() =~= skip_at(sd, i));
        assert(skip_at(s, i).last() == s.last());
        lemma_product_skip(sd, i);
        let a = product_of(skip_at(sd, i));
        assert(product_of(skip_at(s, i)) == a * s.last());
        assert(product_of(s) == product_of(sd) * s.last());
        assert((a * s.last()) * s[i] == (a * s[i]) * s.last()) by (nonlinear_arith);
    }
}

/// Pigeonhole: a duplicate-free sequence of values from 1 to `k` has at
/// most `k` entries.
proof fn lemma_pigeonhole(s: Seq<nat>, k: nat)
    requires
        distinct_seq(s),
        forall|i: int| 0 <= i < s.len() ==> 1 <= #[trigger] s[i] <= k,
    ensures
        s.len() <= k,
    decreases k,
{
    if s.len() == 0 {
    } else if k == 0 {
        assert(1 <= s[0] <= 0);
    } else if exists|i: int| 0 <= i < s.len() && s[i] == k {
        let i = choose|i: int| 0 <= i < s.len() && s[i] == k;
        let s2 = skip_at(s, i);
        assert forall|x: int| 0 <= x < s2.len() implies 1 <= #[trigger] s2[x] <= k - 1 by {
            if x < i {
                assert(s2[x] == s[x] && s[x] != s[i]);
            } else {
                assert(s2[x] == s[x + 1] && s[x + 1] != s[i]);
            }
        }
        assert(distinct_seq(s2)) by {
            assert forall|x: int, z: int| 0 <= x < z < s2.len() implies s2[x] != s2[z] by {
                if z < i {
                    assert(s2[x] == s[x] && s2[z] == s[z]);
                } else if x < i {
                    assert(s2[x] == s[x] && s2[z] == s[z + 1]);
                } else {
                    assert(s2[x] == s[x + 1] && s2[z] == s[z + 1]);
                }
            }
        }
        lemma_pigeonhole(s2, (k - 1) as nat);
    } else {
        assert forall|i: int| 0 <= i < s.len() implies 1 <= #[trigger] s[i] <= k - 1 by {
            assert(s[i] != k);
        }
        lemma_pigeonhole(s, (k - 1) as nat);
    }
}

/// A duplicate-free sequence of exactly `k` values from 1 to `k` holds
/// every one of them, so its product is `k` factorial.
proof fn lemma_distinct_full_product(s: Seq<nat>, k: nat)
    requires
        distinct_seq(s),
        forall|i: int| 0 <= i < s.len() ==> 1 <= #[trigger] s[i] <= k,
        s.len() == k,
    ensures
        product_of(s) == factorial(k),
    decreases k,
{
    if k == 0 {
    } else {
        assert(exists|i: int| 0 <= i < s.len() && s[i] == k) by {
            if forall|i: int| 0 <= i < s.len() ==> #[trigger] s[i] != k {
                assert forall|i: int| 0 <= i < s.len() implies 1 <= #[trigger] s[i] <= k - 1 by {
                    assert(s[i] != k);
                }
                lemma_pigeonhole(s, (k - 1) as nat);
            }
        }
        let i = choose|i: int| 0 <= i < s.len() && s[i] == k;
        let s2 = skip_at(s, i);
        assert forall|x: int| 0 <= x < s2.len() implies 1 <= #[trigger] s2[x] <= k - 1 by {
            if x < i {
                assert(s2[x] == s[x] && s[x] != s[i]);
            } else {
                assert(s2[x] == s[x + 1] && s[x + 1] != s[i]);
            }
        }
        assert(distinct_seq(s2)) by {
            assert forall|x: int, z: int| 0 <= x < z < s2.len() implies s2[x] != s2[z] by {
                if z < i {
                    assert(s2[x] == s[x] && s2[z] == s[z]);
                } else if x < i {
                    assert(s2[x] == s[x] && s2[z] == s[z + 1]);
                } else {
                    assert(s2[x] == s[x + 1] && s2[z] == s[z + 1]);
                }
            }
        }
        lemma_distinct_full_product(s2, (k - 1) as nat);
        lemma_product_skip(s, i);
        assert(factorial((k - 1) as nat) * k == factorial(k)) by (nonlinear_arith)
            requires
                factorial(k) == k * factorial((k - 1) as nat),
        ;
    }
}

/// The first `m` positive multiples of `a`, reduced modulo `p`.
pub open spec fn residue_seq(a: nat, p: nat, m: nat) -> Seq<nat> {
    Seq::new(m, |i: int| (((i + 1) as nat * a) % p))
}

/// The product of the first `m` reduced multiples of `a` is, modulo `p`,
/// the product of `a` to the `m` and `m` factorial.
proof fn lemma_residue_product(a: nat, p: nat, m: nat)
    requires
        p >= 1,
    ensures
        (product_of(residue_seq(a, p, m)) as int) % (p as int) == (pow(a as int, m) * (factorial(
            m,
        ) as int)) % (p as int),
    decreases m,
{
    let pp = p as int;
    if m == 0 {
        assert(residue_seq(a, p, 0) =~= Seq::<nat>::empty());
        lemma_pow0(a as int);
    } else {
        let rs = residue_seq(a, p, m);
        let rp = residue_seq(a, p, (m - 1) as nat);
        assert(rs.drop_last() =~= rp);
        assert(rs.last() == (m * a) % p);
        lemma_residue_product(a, p, (m - 1) as nat);
        let x = product_of(rp) as int;
        let l = ((m * a) % p) as int;
        let aa = pow(a as int, (m - 1) as nat);
        let f1 = factorial((m - 1) as nat) as int;
        assert(product_of(rs) == product_of(rp) * ((m * a) % p));
        assert(product_of(rs) as int == x * l);
        lemma_mul_mod_noop_general(x, (m * a) as int, pp);
        assert((x * l) % pp == (x * ((m * a) as int)) % pp);
        assert((x % pp * ((m * a) as int)) % pp == (x * ((m * a) as int)) % pp);
        lemma_mul_mod_noop_general(aa * f1, (m * a) as int, pp);
        assert(((aa * f1) % pp * ((m * a) as int)) % pp == ((aa * f1) * ((m * a) as int)) % pp);
        lemma_pow_adds(a as int, (m - 1) as nat, 1);
        lemma_pow1(a as int);
        assert((aa * f1) * ((m * a) as int) == pow(a as int, m) * (factorial(m) as int))
            by (nonlinear_arith)
            requires
                pow(a as int, m) == aa * (a as int),
                factorial(m) == m * factorial((m - 1) as nat),
                f1 == factorial((m - 1) as nat) as int,
        ;
    }
}

/// No factorial of a value below a prime is divisible by it.
proof fn lemma_factorial_coprime(p: nat, m: nat)
    requires
        spec_prime(p),
        m < p,
    ensures
        factorial(m) % p != 0,
    decreases m,
{
    if m == 0 {
        lemma_small_mod(1, p);
    } else {
        lemma_factorial_coprime(p, (m - 1) as nat);
        if factorial(m) % p == 0 {
            lemma_euclid(p, m, factorial((m - 1) as nat));
            lemma_small_mod(m, p);
        }
    }
}

/// Fermat's little theorem: modulo a prime `p`, any value `a` that `p`
/// does not divide satisfies `a^(p-1) == 1`.
pub proof fn lemma_fermat(p: nat, a: nat)
    requires
        spec_prime(p),
        a % p != 0,
    ensures
        pow_mod(a, (p - 1) as nat, p) == 1,
{
    let n = (p - 1) as nat;
    let pp = p as int;
    let rs = residue_seq(a, p, n);
    assert forall|i: int| 0 <= i < rs.len() implies 1 <= #[trigger] rs[i] <= n by {
        let v = (i + 1) as nat;
        lemma_mod_bound((v * a) as int, pp);
        if (v * a) % p == 0 {
            lemma_euclid(p, v, a);
            lemma_small_mod(v, p);
        }
    }
    assert(distinct_seq(rs)) by {
        assert forall|i: int, j: int| 0 <= i < j < rs.len() implies rs[i] != rs[j] by {
            if rs[i] == rs[j] {
                let vi = (i + 1) as nat;
                let vj = (j + 1) as nat;
                lemma_mod_diff_zero((vj * a) as int, (vi * a) as int, pp);
                let d = (vj - vi) as nat;
                assert((vj * a) as int - (vi * a) as int == (d * a) as int) by (nonlinear_arith)
                    requires
                        vi <= vj,
                        d == (vj - vi) as nat,
                ;
                assert((d * a) % p == 0);
                lemma_euclid(p, d, a);
                lemma_small_mod(d, p);
            }
        }
    }
    lemma_distinct_full_product(rs, n);
    lemma_residue_product(a, p, n);
    let af = pow(a as int, n);
    let ff = factorial(n) as int;
    lemma_mod_bound(ff, pp);
    assert(ff % pp == (af * ff) % pp);
    lemma_mod_diff_zero(af * ff, ff, pp);
    assert(a >= 1) by {
        if a == 0 {
            lemma_small_mod(0, p);
        }
    }
    lemma_pow_positive(a as int, n);
    assert(af * ff - ff == ((af - 1) * ff)) by (nonlinear_arith);
    assert((((af - 1) as nat) * factorial(n)) as int == (af - 1) * ff) by (nonlinear_arith)
        requires
            af >= 1,
            ff == factorial(n) as int,
    ;
    assert(((((af - 1) as nat) * factorial(n)) as int) % pp == 0) by (nonlinear_arith)
        requires
            ((af - 1) * ff) % pp == 0,
            (((af - 1) as nat) * factorial(n)) as int == (af - 1) * ff,
    ;
    lemma_euclid(p, (af - 1) as nat, factorial(n));
    lemma_factorial_coprime(p, n);
    assert(((af - 1) as nat) % p == 0);
    lemma_fundamental_div_mod(af - 1, pp);
    let k = (af - 1) / pp;
    assert(af == k * pp + 1) by (nonlinear_arith)
        requires
            af - 1 == pp * k + ((af - 1) % pp),
            (af - 1) % pp == 0,
    ;
    lemma_mod_of_multiple_plus(k, 1, pp);
}

} // verus!
