//! Powers and roots.

use crate::math::{divides, is_power_with_exponent, is_prime};
use crate::math::factorization::{lemma_power_cancels, lemma_prime_divides_power};
use crate::math::primes::lemma_divides_quotient;
use vstd::arithmetic::div_mod::lemma_mod_multiples_basic;
use vstd::arithmetic::power2::{lemma_pow2, lemma_pow2_strictly_increases, pow2};
use vstd::arithmetic::power::{
    lemma_pow0, lemma_pow1, lemma_pow_adds, lemma_pow_distributes, lemma_pow_multiplies,
    lemma_pow_positive, pow,
};
use vstd::prelude::*;

verus! {

/// A power is the base times the power before it.
pub proof fn lemma_pow_step(b: int, e: nat)
    ensures
        pow(b, e + 1) == b * pow(b, e),
{
    lemma_pow_adds(b, 1, e);
    lemma_pow1(b);
}

/// Powers grow with the base.
pub proof fn lemma_pow_base_increases(a: nat, b: nat, e: nat)
    requires
        a <= b,
    ensures
        0 <= pow(a as int, e) <= pow(b as int, e),
    decreases e,
{
    if e == 0 {
        lemma_pow0(a as int);
        lemma_pow0(b as int);
    } else {
        lemma_pow_base_increases(a, b, (e - 1) as nat);
        lemma_pow_step(a as int, (e - 1) as nat);
        lemma_pow_step(b as int, (e - 1) as nat);
        let x = pow(a as int, (e - 1) as nat);
        let y = pow(b as int, (e - 1) as nat);
        assert(0 <= a * x <= b * y) by (nonlinear_arith)
            requires
                0 <= x <= y,
                a <= b,
        ;
    }
}

/// Powers other than the zeroth grow strictly with the base.
pub proof fn lemma_pow_base_strictly_increases(a: nat, b: nat, e: nat)
    requires
        a < b,
        e >= 1,
    ensures
        pow(a as int, e) < pow(b as int, e),
{
    lemma_pow_base_increases(a, b, (e - 1) as nat);
    lemma_pow_step(a as int, (e - 1) as nat);
    lemma_pow_step(b as int, (e - 1) as nat);
    lemma_pow_positive(b as int, (e - 1) as nat);
    let x = pow(a as int, (e - 1) as nat);
    let y = pow(b as int, (e - 1) as nat);
    assert(a * x < b * y) by (nonlinear_arith)
        requires
            0 <= x <= y,
            0 < y,
            a < b,
    ;
}

/// A number has one root of a given degree at most.
pub proof fn lemma_root_unique(x: nat, y: nat, e: nat)
    requires
        e >= 1,
        pow(x as int, e) == pow(y as int, e),
    ensures
        x == y,
{
    if x < y {
        lemma_pow_base_strictly_increases(x, y, e);
    }
    if y < x {
        lemma_pow_base_strictly_increases(y, x, e);
    }
}

/// With the truncated root in hand, a number is a perfect power of that
/// degree exactly where the root to that power is the number.
pub proof fn lemma_truncated_root_decides(n: nat, root: nat, e: nat)
    requires
        e >= 1,
        pow(root as int, e) <= n < pow(root as int + 1, e),
    ensures
        is_power_with_exponent(n, e) <==> pow(root as int, e) == n,
{
    if is_power_with_exponent(n, e) {
        let x = choose|x: nat| #[trigger] pow(x as int, e) == n;
        if x < root {
            lemma_pow_base_strictly_increases(x, root, e);
        }
        if x > root {
            lemma_pow_base_increases(root + 1, x, e);
        }
    }
}

/// A power of a number above one, if it is below `2^bits`, has an exponent below `bits`.
pub proof fn lemma_exponent_below_bits(x: nat, e: nat, bits: nat)
    requires
        x >= 2,
        pow(x as int, e) < pow2(bits),
    ensures
        e < bits,
{
    lemma_pow_base_increases(2, x, e);
    lemma_pow2(e);
    if e >= bits {
        if e > bits {
            lemma_pow2_strictly_increases(bits, e);
        }
    }
}

/// A positive number is a power of `p` times a number that `p` does not divide.
pub proof fn lemma_split_off_power(p: nat, x: nat) -> (r: (nat, nat))
    requires
        p >= 2,
        x >= 1,
    ensures
        x == pow(p as int, r.0) * r.1,
        r.1 >= 1,
        !divides(p, r.1),
    decreases x,
{
    if divides(p, x) {
        let q = x / p;
        lemma_divides_quotient(p, x);
        assert(1 <= q < x) by (nonlinear_arith)
            requires
                x == p * q,
                p >= 2,
                x >= 1,
        ;
        let (a, t) = lemma_split_off_power(p, q);
        lemma_pow_step(p as int, a);
        let c = pow(p as int, a);
        assert(p * (c * t) == (p * c) * t) by (nonlinear_arith);
        (a + 1, t)
    } else {
        lemma_pow0(p as int);
        (0, x)
    }
}

/// Where `n` is `p^k m` for a prime `p` that does not divide `m`, `n` is a
/// perfect power of degree `e` only if `e` divides `k` and `m` is one too.
pub proof fn lemma_power_of_stripped(p: nat, k: nat, m: nat, e: nat)
    requires
        is_prime(p),
        m >= 1,
        !divides(p, m),
        e >= 1,
        is_power_with_exponent((pow(p as int, k) * m) as nat, e),
    ensures
        k % e == 0,
        is_power_with_exponent(m, e),
{
    let n = (pow(p as int, k) * m) as nat;
    lemma_pow_positive(p as int, k);
    let c = pow(p as int, k);
    assert(c * m >= 1) by (nonlinear_arith)
        requires
            c >= 1,
            m >= 1,
    ;
    let x = choose|x: nat| #[trigger] pow(x as int, e) == n;
    if x == 0 {
        vstd::arithmetic::power::lemma0_pow(e);
    }
    let (a, t) = lemma_split_off_power(p, x);
    // n = (p^a t)^e = p^(a e) t^e, and p does not divide t^e.
    lemma_pow_distributes(pow(p as int, a), t as int, e);
    lemma_pow_multiplies(p as int, a, e);
    lemma_pow_positive(t as int, e);
    let te = pow(t as int, e) as nat;
    if divides(p, te) {
        lemma_prime_divides_power(p, t, e);
    }
    let d = pow(p as int, a * e);
    assert(m * c == te * d) by (nonlinear_arith)
        requires
            c * m == d * te,
    ;
    lemma_power_cancels(p, m, k, te, a * e);
    lemma_power_cancels(p, te, a * e, m, k);
    assert(k == a * e);
    lemma_mod_multiples_basic(a as int, e as int);
    assert(m == te) by (nonlinear_arith)
        requires
            m * c == te * c,
            c > 0,
    ;
    assert(pow(t as int, e) == m);
}

/// Where `m` is `root^e` and `e` divides `k`, `p^k m` is `(root p^(k/e))^e`.
pub proof fn lemma_power_rebuilt(p: nat, k: nat, m: nat, root: nat, e: nat)
    requires
        e >= 1,
        k % e == 0,
        pow(root as int, e) == m,
    ensures
        pow(root * pow(p as int, k / e), e) == pow(p as int, k) * m,
{
    let q = k / e;
    vstd::arithmetic::div_mod::lemma_fundamental_div_mod(k as int, e as int);
    lemma_pow_distributes(root as int, pow(p as int, q), e);
    lemma_pow_multiplies(p as int, q, e);
    assert(q * e == k) by (nonlinear_arith)
        requires
            k == e * q,
    ;
    let a = pow(root as int, e);
    let b = pow(p as int, k);
    assert(a * b == b * a) by (nonlinear_arith);
}

} // verus!
