//! Divisibility and primes.

use crate::math::{divides, is_prime};
use vstd::arithmetic::div_mod::{
    lemma_div_multiples_vanish, lemma_fundamental_div_mod, lemma_mod_multiples_basic,
};
use vstd::arithmetic::mul::lemma_mul_is_commutative;
use vstd::prelude::*;

verus! {

/// A number is its divisor times the quotient.
pub proof fn lemma_divides_quotient(d: nat, n: nat)
    requires
        divides(d, n),
    ensures
        n == d * (n / d),
{
    lemma_fundamental_div_mod(n as int, d as int);
}

/// A multiple of `d` is divisible by `d`.
pub proof fn lemma_multiple_divides(d: nat, q: nat)
    requires
        d > 0,
    ensures
        divides(d, d * q),
        divides(d, q * d),
        (d * q) / d == q,
{
    lemma_mod_multiples_basic(q as int, d as int);
    lemma_div_multiples_vanish(q as int, d as int);
    lemma_mul_is_commutative(d as int, q as int);
}

/// Divisibility is transitive.
pub proof fn lemma_divides_transitive(a: nat, b: nat, c: nat)
    requires
        divides(a, b),
        divides(b, c),
    ensures
        divides(a, c),
{
    lemma_divides_quotient(a, b);
    lemma_divides_quotient(b, c);
    let x = b / a;
    let y = c / b;
    assert(c == a * (x * y)) by (nonlinear_arith)
        requires
            b == a * x,
            c == b * y,
    ;
    lemma_multiple_divides(a, x * y);
}

/// What divides a number divides its multiples.
pub proof fn lemma_divides_multiple(d: nat, n: nat, k: nat)
    requires
        divides(d, n),
    ensures
        divides(d, n * k),
        divides(d, k * n),
{
    lemma_divides_quotient(d, n);
    let x = n / d;
    assert(n * k == d * (x * k)) by (nonlinear_arith)
        requires
            n == d * x,
    ;
    lemma_multiple_divides(d, x * k);
    lemma_mul_is_commutative(n as int, k as int);
}

/// What divides two numbers divides their difference.
pub proof fn lemma_divides_difference(d: nat, a: nat, b: nat)
    requires
        divides(d, a),
        divides(d, b),
        a >= b,
    ensures
        divides(d, (a - b) as nat),
{
    lemma_divides_quotient(d, a);
    lemma_divides_quotient(d, b);
    let x = a / d;
    let y = b / d;
    assert(x >= y && a - b == d * (x - y)) by (nonlinear_arith)
        requires
            a == d * x,
            b == d * y,
            a >= b,
            d > 0,
    ;
    lemma_multiple_divides(d, (x - y) as nat);
}

/// A divisor of a positive number is no larger than it.
pub proof fn lemma_divisor_bound(d: nat, n: nat)
    requires
        divides(d, n),
        n > 0,
    ensures
        1 <= d <= n,
{
    lemma_divides_quotient(d, n);
    let x = n / d;
    assert(d <= n) by (nonlinear_arith)
        requires
            n == d * x,
            n > 0,
    ;
}

/// The cofactor of a divisor is a divisor too.
pub proof fn lemma_cofactor_divides(d: nat, n: nat)
    requires
        divides(d, n),
        n > 0,
    ensures
        divides(n / d, n),
        n == (n / d) * d,
        n / d >= 1,
{
    lemma_divides_quotient(d, n);
    let x = n / d;
    assert(x >= 1) by (nonlinear_arith)
        requires
            n == d * x,
            n > 0,
    ;
    lemma_mul_is_commutative(d as int, x as int);
    lemma_multiple_divides(x, d);
}

/// A prime divisor of `m b`, with `0 < m < p`, divides `b`.
proof fn lemma_euclid_below(p: nat, m: nat, b: nat)
    requires
        is_prime(p),
        0 < m < p,
        divides(p, m * b),
    ensures
        divides(p, b),
    decreases m,
{
    if m == 1 {
        assert(m * b == b) by (nonlinear_arith)
            requires
                m == 1,
        ;
    } else {
        let q = p / m;
        let r = p % m;
        lemma_fundamental_div_mod(p as int, m as int);
        assert(!divides(m, p));
        assert(0 < r < m);
        // r b = p b - q (m b), and p divides both.
        lemma_multiple_divides(p, b);
        lemma_divides_multiple(p, m * b, q);
        assert(p * b >= q * (m * b) && r * b == p * b - q * (m * b)) by (nonlinear_arith)
            requires
                p == m * q + r,
        ;
        lemma_divides_difference(p, p * b, q * (m * b));
        lemma_euclid_below(p, r, b);
    }
}

/// Euclid's lemma: a prime that divides a product divides one of the two.
pub proof fn lemma_euclid(p: nat, a: nat, b: nat)
    requires
        is_prime(p),
        divides(p, a * b),
    ensures
        divides(p, a) || divides(p, b),
{
    if !divides(p, a) {
        let q = a / p;
        let m = a % p;
        lemma_fundamental_div_mod(a as int, p as int);
        // m b = a b - q (p b), and p divides both.
        lemma_multiple_divides(p, b);
        lemma_divides_multiple(p, p * b, q);
        assert(a * b >= q * (p * b) && m * b == a * b - q * (p * b)) by (nonlinear_arith)
            requires
                a == p * q + m,
        ;
        lemma_divides_difference(p, a * b, q * (p * b));
        lemma_euclid_below(p, m, b);
    }
}

/// A prime that divides a prime is that prime.
pub proof fn lemma_prime_divides_prime(p: nat, q: nat)
    requires
        is_prime(p),
        is_prime(q),
        divides(p, q),
    ensures
        p == q,
{
    lemma_divisor_bound(p, q);
    if p < q {
        assert(!divides(p, q));
    }
}

/// Every number above one has a prime divisor.
pub proof fn lemma_prime_divisor_exists(n: nat) -> (p: nat)
    requires
        n >= 2,
    ensures
        is_prime(p),
        divides(p, n),
    decreases n,
{
    if is_prime(n) {
        n
    } else {
        let d = choose|d: nat| 1 < d < n && #[trigger] divides(d, n);
        let p = lemma_prime_divisor_exists(d);
        lemma_divides_transitive(p, d, n);
        p
    }
}

} // verus!
