//! The sum of the divisors of a number, and how it comes from the prime
//! factorization.

use crate::math::{divides, is_prime};
use crate::math::factorization::{
    coprime, divisor_sum, factor_product, geometric_sum, is_factorization,
    lemma_factor_product_positive, lemma_power_cancels, lemma_prime_divides_product,
    lemma_prime_powers_drop_last,
};
use crate::math::powers::{lemma_pow_step, lemma_split_off_power};
use crate::math::primes::{
    lemma_divides_multiple, lemma_divides_quotient, lemma_divides_transitive, lemma_divisor_bound,
    lemma_euclid, lemma_multiple_divides, lemma_prime_divisor_exists,
};
use vstd::arithmetic::power::{lemma_pow0, lemma_pow_adds, lemma_pow_positive, pow};
use vstd::prelude::*;

verus! {

/// The sum of the divisors of `n` that are no larger than `m`.
pub open spec fn divisors_sum_up_to(n: nat, m: nat) -> nat
    decreases m,
{
    if m == 0 {
        0
    } else {
        divisors_sum_up_to(n, (m - 1) as nat) + if divides(m, n) {
            m
        } else {
            0
        }
    }
}

/// The sum of all divisors of `n`, one and `n` among them.
pub open spec fn sigma(n: nat) -> nat {
    divisors_sum_up_to(n, n)
}

/// Above `n` there are no divisors of `n`.
pub proof fn lemma_divisors_end(n: nat, m: nat)
    requires
        1 <= n <= m,
    ensures
        divisors_sum_up_to(n, m) == sigma(n),
    decreases m,
{
    if m > n {
        lemma_divisors_end(n, (m - 1) as nat);
        if divides(m, n) {
            lemma_divisor_bound(m, n);
        }
    }
}

/// What divides `p^m a` and is not divisible by the prime `p` divides `a`.
pub proof fn lemma_divides_without_prime(p: nat, t: nat, m: nat, a: nat)
    requires
        is_prime(p),
        !divides(p, t),
        divides(t, (pow(p as int, m) * a) as nat),
    ensures
        divides(t, a),
    decreases m,
{
    lemma_pow_positive(p as int, m);
    if m == 0 {
        lemma_pow0(p as int);
    } else {
        let rest = pow(p as int, (m - 1) as nat);
        lemma_pow_positive(p as int, (m - 1) as nat);
        lemma_pow_step(p as int, (m - 1) as nat);
        let x = (rest * a) as nat;
        let whole = (pow(p as int, m) * a) as nat;
        assert(whole == p * x) by (nonlinear_arith)
            requires
                whole == (p * rest) * a,
                x == rest * a,
        ;
        // t q = p x, so p divides q, and t divides x.
        lemma_divides_quotient(t, whole);
        let q = whole / t;
        lemma_multiple_divides(p, x);
        lemma_euclid(p, t, q);
        lemma_divides_quotient(p, q);
        let r = q / p;
        assert(x == t * r) by (nonlinear_arith)
            requires
                p * x == t * (p * r),
                p >= 2,
        ;
        lemma_multiple_divides(t, r);
        lemma_divides_without_prime(p, t, (m - 1) as nat, a);
    }
}

/// The divisors of `p^k a`, for a prime `p` that does not divide `a`, are
/// those of `p^(k-1) a` and `p^k` times those of `a`, and none is both.
pub proof fn lemma_divisors_of_prime_multiple(p: nat, k: nat, a: nat, d: nat)
    requires
        is_prime(p),
        k >= 1,
        a >= 1,
        !divides(p, a),
        d >= 1,
    ensures
        ({
            let c = pow(p as int, k) as nat;
            let lower = divides(d, (pow(p as int, (k - 1) as nat) * a) as nat);
            let upper = divides(c, d) && divides(d / c, a);
            &&& divides(d, (pow(p as int, k) * a) as nat) <==> lower || upper
            &&& !(lower && upper)
        }),
{
    let c = pow(p as int, k) as nat;
    let b = pow(p as int, (k - 1) as nat) as nat;
    lemma_pow_positive(p as int, k);
    lemma_pow_positive(p as int, (k - 1) as nat);
    lemma_pow_step(p as int, (k - 1) as nat);
    let n = c * a;
    let below = b * a;
    assert(c == p * b);
    assert(n == p * below) by (nonlinear_arith)
        requires
            n == (p * b) * a,
            below == b * a,
    ;
    assert(n >= 1 && below >= 1) by (nonlinear_arith)
        requires
            n == c * a,
            below == b * a,
            a >= 1,
            b >= 1,
            c >= 1,
    ;
    let lower = divides(d, below);
    let upper = divides(c, d) && divides(d / c, a);
    if lower {
        lemma_divides_multiple(d, below, p);
        if divides(c, d) {
            // Then `p^k` would divide `p^(k-1) a`, and `p` would divide `a`.
            lemma_divides_transitive(c, d, below);
            lemma_divides_quotient(c, below);
            let y = below / c;
            assert(a * b == y * c) by (nonlinear_arith)
                requires
                    below == b * a,
                    below == c * y,
            ;
            lemma_power_cancels(p, a, (k - 1) as nat, y, k);
        }
    }
    if upper {
        let e = d / c;
        lemma_divides_quotient(c, d);
        lemma_divides_quotient(e, a);
        let z = a / e;
        assert(n == d * z) by (nonlinear_arith)
            requires
                n == c * a,
                d == c * e,
                a == e * z,
        ;
        lemma_multiple_divides(d, z);
    }
    if divides(d, n) {
        // d = p^j t with t free of p; then j is at most k, and t divides a.
        let (j, t) = lemma_split_off_power(p, d);
        let pj = pow(p as int, j) as nat;
        lemma_pow_positive(p as int, j);
        lemma_divides_quotient(d, n);
        let q = n / d;
        assert(a * c == (t * q) * pj) by (nonlinear_arith)
            requires
                n == c * a,
                n == d * q,
                d == pj * t,
        ;
        lemma_power_cancels(p, a, k, t * q, j);
        lemma_multiple_divides(t, pj);
        lemma_divides_transitive(t, d, n);
        lemma_divides_without_prime(p, t, k, a);
        lemma_divides_quotient(t, a);
        let w = a / t;
        if j == k {
            assert(d == c * t);
            lemma_multiple_divides(c, t);
        } else {
            let gap = (k - 1 - j) as nat;
            let pg = pow(p as int, gap) as nat;
            lemma_pow_positive(p as int, gap);
            lemma_pow_adds(p as int, j, gap);
            assert(below == d * (pg * w)) by (nonlinear_arith)
                requires
                    below == b * a,
                    b == pj * pg,
                    d == pj * t,
                    a == t * w,
            ;
            lemma_multiple_divides(d, pg * w);
        }
    }
}

/// The sum of the divisors of `p^k a`, for a prime `p` that does not divide
/// `a`: that of `p^(k-1) a`, and `p^k` times that of `a`, summed up to `m`.
proof fn lemma_divisors_sum_splits(p: nat, k: nat, a: nat, m: nat)
    requires
        is_prime(p),
        k >= 1,
        a >= 1,
        !divides(p, a),
    ensures
        ({
            let c = pow(p as int, k) as nat;
            divisors_sum_up_to((pow(p as int, k) * a) as nat, m) == divisors_sum_up_to(
                (pow(p as int, (k - 1) as nat) * a) as nat,
                m,
            ) + c * divisors_sum_up_to(a, m / c)
        }),
    decreases m,
{
    let c = pow(p as int, k) as nat;
    lemma_pow_positive(p as int, k);
    if m == 0 {
        assert(0nat / c == 0);
        assert(c * 0 == 0) by (nonlinear_arith);
    } else {
        lemma_divisors_sum_splits(p, k, a, (m - 1) as nat);
        lemma_divisors_of_prime_multiple(p, k, a, m);
        let before = ((m - 1) as nat) / c;
        let s = divisors_sum_up_to(a, before);
        if divides(c, m) {
            let e = m / c;
            lemma_divides_quotient(c, m);
            assert(e >= 1 && before == e - 1) by (nonlinear_arith)
                requires
                    m == c * e,
                    m >= 1,
                    c >= 1,
                    before == (m - 1) / (c as int),
            ;
            let term: nat = if divides(e, a) { e } else { 0 };
            assert(c * (s + term) == c * s + if divides(e, a) { m } else { 0nat })
                by (nonlinear_arith)
                requires
                    m == c * e,
                    term == if divides(e, a) { e } else { 0nat },
            ;
        } else {
            assert(m / c == before) by {
                vstd::arithmetic::div_mod::lemma_fundamental_div_mod(m as int, c as int);
                vstd::arithmetic::div_mod::lemma_fundamental_div_mod((m - 1) as int, c as int);
                let (q1, r1) = (m as int / c as int, m as int % c as int);
                let (q0, r0) = ((m - 1) as int / c as int, (m - 1) as int % c as int);
                assert(q1 == q0) by (nonlinear_arith)
                    requires
                        m == c * q1 + r1,
                        m - 1 == c * q0 + r0,
                        0 < r1 < c,
                        0 <= r0 < c,
                ;
            }
        }
    }
}

/// The sum of the divisors of `p^k a`, for a prime `p` that does not divide
/// `a`, is that of `a` times `1 + p + ... + p^k`.
pub proof fn lemma_sigma_prime_power(p: nat, k: nat, a: nat)
    requires
        is_prime(p),
        a >= 1,
        !divides(p, a),
    ensures
        sigma((pow(p as int, k) * a) as nat) == sigma(a) * geometric_sum(p, k),
    decreases k,
{
    let c = pow(p as int, k) as nat;
    lemma_pow_positive(p as int, k);
    if k == 0 {
        lemma_pow0(p as int);
        assert(pow(p as int, 0) * a == a) by (nonlinear_arith)
            requires
                pow(p as int, 0) == 1,
        ;
        assert(geometric_sum(p, 0) == 1);
        assert(sigma(a) * 1 == sigma(a)) by (nonlinear_arith);
    } else {
        let b = pow(p as int, (k - 1) as nat) as nat;
        lemma_pow_positive(p as int, (k - 1) as nat);
        lemma_pow_step(p as int, (k - 1) as nat);
        let n = c * a;
        let below = b * a;
        assert(1 <= below <= n && n / c == a) by {
            assert(1 <= below <= n) by (nonlinear_arith)
                requires
                    n == (p * b) * a,
                    below == b * a,
                    a >= 1,
                    b >= 1,
                    p >= 2,
            ;
            lemma_multiple_divides(c, a);
        }
        lemma_sigma_prime_power(p, (k - 1) as nat, a);
        lemma_divisors_sum_splits(p, k, a, n);
        lemma_divisors_end(below, n);
        let s = sigma(a);
        let g = geometric_sum(p, (k - 1) as nat);
        assert((pow(p as int, k) * a) as nat == n);
        assert((pow(p as int, (k - 1) as nat) * a) as nat == below);
        assert(sigma(below) == s * g);
        assert(sigma(n) == sigma(below) + c * s);
        assert(geometric_sum(p, k) == g + c);
        assert(s * g + c * s == s * (g + c)) by (nonlinear_arith);
    }
}

/// The sum of the divisors of a number is what its prime factorization
/// gives: the product, over the prime powers `p^k`, of `1 + p + ... + p^k`.
pub proof fn lemma_divisor_sum_is_sigma(factors: Seq<(u32, u32)>, n: nat)
    requires
        is_factorization(factors, n),
    ensures
        divisor_sum(factors) == sigma(n),
    decreases factors.len(),
{
    if factors.len() == 0 {
        reveal_with_fuel(divisors_sum_up_to, 2);
        assert(divides(1, 1));
    } else {
        let front = factors.drop_last();
        let (p, k) = (factors.last().0 as nat, factors.last().1 as nat);
        lemma_prime_powers_drop_last(factors);
        lemma_factor_product_positive(front);
        let a = factor_product(front) as nat;
        lemma_divisor_sum_is_sigma(front, a);
        assert(is_prime(p));
        if divides(p, a) {
            let i = lemma_prime_divides_product(p, front);
            assert(front[i] == factors[i]);
            assert(factors[i].0 < factors[factors.len() - 1].0);
        }
        lemma_sigma_prime_power(p, k, a);
        lemma_pow_positive(p as int, k);
        let c = pow(p as int, k);
        assert(a * c == c * a) by (nonlinear_arith);
    }
}

/// The sum of divisors is multiplicative: for coprime `a` and `b` it is, of
/// `a b`, the product of those of `a` and of `b`.
pub proof fn lemma_sigma_multiplicative(a: nat, b: nat)
    requires
        a >= 1,
        b >= 1,
        coprime(a, b),
    ensures
        sigma(a) * sigma(b) == sigma(a * b),
    decreases b,
{
    if b == 1 {
        reveal_with_fuel(divisors_sum_up_to, 2);
        assert(divides(1, 1));
        assert(sigma(a) * 1 == sigma(a) && a * 1 == a) by (nonlinear_arith);
    } else {
        // Split a prime off `b`, to its full power: it divides neither `a`
        // nor the rest of `b`, and the rest is coprime to `a` as `b` is.
        let p = lemma_prime_divisor_exists(b);
        let (k, rest) = lemma_split_off_power(p, b);
        lemma_pow_positive(p as int, k);
        let c = pow(p as int, k) as nat;
        if k == 0 {
            lemma_pow0(p as int);
            assert(c * rest == rest) by (nonlinear_arith)
                requires
                    c == 1,
            ;
        }
        assert(rest < b) by {
            lemma_pow_step(p as int, (k - 1) as nat);
            lemma_pow_positive(p as int, (k - 1) as nat);
            let base = pow(p as int, (k - 1) as nat);
            assert(rest < (p * base) * rest) by (nonlinear_arith)
                requires
                    base >= 1,
                    rest >= 1,
                    p >= 2,
            ;
        }
        lemma_multiple_divides(rest, c);
        assert(divides(rest, b));
        assert(coprime(a, rest)) by {
            assert forall|d: nat| d > 1 implies !(#[trigger] divides(d, a) && divides(d, rest)) by {
                if divides(d, rest) {
                    lemma_divides_transitive(d, rest, b);
                }
            }
        }
        assert(!divides(p, a));
        let both = a * rest;
        assert(both >= 1) by (nonlinear_arith)
            requires
                both == a * rest,
                a >= 1,
                rest >= 1,
        ;
        if divides(p, both) {
            lemma_euclid(p, a, rest);
        }
        lemma_sigma_multiplicative(a, rest);
        lemma_sigma_prime_power(p, k, rest);
        lemma_sigma_prime_power(p, k, both);
        assert(c * both == a * b) by (nonlinear_arith)
            requires
                both == a * rest,
                b == c * rest,
        ;
        let (sa, sr, g) = (sigma(a), sigma(rest), geometric_sum(p, k));
        assert(sa * (sr * g) == (sa * sr) * g) by (nonlinear_arith);
    }
}

} // verus!
