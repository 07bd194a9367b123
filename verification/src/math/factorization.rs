//! Prime factorizations: what they are, and that a number has only one.

use crate::math::{divides, is_prime};
use crate::math::powers::{lemma_pow_step, lemma_split_off_power};
use crate::math::primes::{
    lemma_divides_multiple, lemma_divisor_bound, lemma_euclid, lemma_multiple_divides,
    lemma_prime_divides_prime, lemma_prime_divisor_exists,
};
use vstd::arithmetic::mul::lemma_mul_is_commutative;
use vstd::arithmetic::power::{lemma_pow0, lemma_pow1, lemma_pow_adds, lemma_pow_positive, pow};
use vstd::prelude::*;

verus! {

/// A prime to its power.
pub open spec fn prime_power(entry: (u32, u32)) -> int {
    pow(entry.0 as int, entry.1 as nat)
}

/// The product of the prime powers of `factors`.
pub open spec fn factor_product(factors: Seq<(u32, u32)>) -> int
    decreases factors.len(),
{
    if factors.len() == 0 {
        1
    } else {
        factor_product(factors.drop_last()) * prime_power(factors.last())
    }
}

/// Primes in rising order, each with a power of one or more.
pub open spec fn is_prime_powers(factors: Seq<(u32, u32)>) -> bool {
    &&& forall|i: int|
        0 <= i < factors.len() ==> is_prime((#[trigger] factors[i]).0 as nat) && factors[i].1 >= 1
    &&& forall|i: int, j: int|
        0 <= i < j < factors.len() ==> (#[trigger] factors[i]).0 < (#[trigger] factors[j]).0
}

/// `factors` is the prime factorization of `n`: primes in rising order,
/// each with the power, one or more, to which it divides `n`.
pub open spec fn is_factorization(factors: Seq<(u32, u32)>, n: nat) -> bool {
    factor_product(factors) == n && is_prime_powers(factors)
}

/// No number above one divides both `a` and `b`.
pub open spec fn coprime(a: nat, b: nat) -> bool {
    forall|d: nat| d > 1 ==> !(#[trigger] divides(d, a) && divides(d, b))
}

/// One more prime power multiplies the product.
pub proof fn lemma_factor_product_push(factors: Seq<(u32, u32)>, entry: (u32, u32))
    ensures
        factor_product(factors.push(entry)) == factor_product(factors) * prime_power(entry),
{
    assert(factors.push(entry).drop_last() =~= factors);
}

/// A list of prime powers without its last is a list of prime powers.
pub proof fn lemma_prime_powers_drop_last(factors: Seq<(u32, u32)>)
    requires
        is_prime_powers(factors),
        factors.len() > 0,
    ensures
        is_prime_powers(factors.drop_last()),
{
    let front = factors.drop_last();
    assert forall|i: int| 0 <= i < front.len() implies is_prime((#[trigger] front[i]).0 as nat)
        && front[i].1 >= 1 by {
        assert(front[i] == factors[i]);
    }
    assert forall|i: int, j: int| 0 <= i < j < front.len() implies (#[trigger] front[i]).0 < (
    #[trigger] front[j]).0 by {
        assert(front[i] == factors[i]);
        assert(front[j] == factors[j]);
    }
}

/// A product of prime powers is positive.
pub proof fn lemma_factor_product_positive(factors: Seq<(u32, u32)>)
    requires
        is_prime_powers(factors),
    ensures
        factor_product(factors) >= 1,
    decreases factors.len(),
{
    if factors.len() > 0 {
        lemma_prime_powers_drop_last(factors);
        lemma_factor_product_positive(factors.drop_last());
        let last = factors.last();
        assert(is_prime(last.0 as nat));
        lemma_pow_positive(last.0 as int, last.1 as nat);
        let a = factor_product(factors.drop_last());
        let b = prime_power(last);
        assert(a * b >= 1) by (nonlinear_arith)
            requires
                a >= 1,
                b >= 1,
        ;
    }
}

/// A prime that divides a power divides its base.
pub proof fn lemma_prime_divides_power(p: nat, q: nat, e: nat)
    requires
        is_prime(p),
        q >= 1,
        divides(p, pow(q as int, e) as nat),
    ensures
        divides(p, q),
    decreases e,
{
    lemma_pow_positive(q as int, e);
    if e == 0 {
        lemma_pow0(q as int);
        lemma_divisor_bound(p, 1);
    } else {
        let rest = pow(q as int, (e - 1) as nat);
        lemma_pow_positive(q as int, (e - 1) as nat);
        lemma_pow_adds(q as int, 1, (e - 1) as nat);
        lemma_pow1(q as int);
        assert(pow(q as int, e) as nat == q * (rest as nat)) by (nonlinear_arith)
            requires
                pow(q as int, e) == q * rest,
                rest >= 0,
                q >= 1,
        ;
        lemma_euclid(p, q, rest as nat);
        if !divides(p, q) {
            lemma_prime_divides_power(p, q, (e - 1) as nat);
        }
    }
}

/// A prime that divides a product of prime powers is one of its primes.
pub proof fn lemma_prime_divides_product(p: nat, factors: Seq<(u32, u32)>) -> (i: int)
    requires
        is_prime(p),
        is_prime_powers(factors),
        divides(p, factor_product(factors) as nat),
    ensures
        0 <= i < factors.len(),
        factors[i].0 == p,
    decreases factors.len(),
{
    if factors.len() == 0 {
        lemma_divisor_bound(p, 1);
        0
    } else {
        let front = factors.drop_last();
        let last = factors.last();
        lemma_prime_powers_drop_last(factors);
        lemma_factor_product_positive(front);
        assert(is_prime(last.0 as nat));
        lemma_pow_positive(last.0 as int, last.1 as nat);
        let a = factor_product(front);
        let b = prime_power(last);
        assert((a * b) as nat == (a as nat) * (b as nat)) by (nonlinear_arith)
            requires
                a >= 1,
                b >= 1,
        ;
        lemma_euclid(p, a as nat, b as nat);
        if divides(p, a as nat) {
            let i = lemma_prime_divides_product(p, front);
            assert(front[i] == factors[i]);
            i
        } else {
            lemma_prime_divides_power(p, last.0 as nat, last.1 as nat);
            lemma_prime_divides_prime(p, last.0 as nat);
            factors.len() - 1
        }
    }
}

/// Each prime of a factorization divides the product.
pub proof fn lemma_entry_divides_product(factors: Seq<(u32, u32)>, i: int)
    requires
        is_prime_powers(factors),
        0 <= i < factors.len(),
    ensures
        divides(factors[i].0 as nat, factor_product(factors) as nat),
    decreases factors.len(),
{
    let front = factors.drop_last();
    let last = factors.last();
    lemma_prime_powers_drop_last(factors);
    lemma_factor_product_positive(front);
    lemma_factor_product_positive(factors);
    assert(is_prime(last.0 as nat));
    lemma_pow_positive(last.0 as int, last.1 as nat);
    let a = factor_product(front);
    let b = prime_power(last);
    assert((a * b) as nat == (a as nat) * (b as nat)) by (nonlinear_arith)
        requires
            a >= 1,
            b >= 1,
    ;
    if i == factors.len() - 1 {
        // The last prime divides its own power, which is not the zeroth.
        let p = last.0 as nat;
        let rest = pow(p as int, (last.1 - 1) as nat);
        lemma_pow_positive(p as int, (last.1 - 1) as nat);
        lemma_pow_adds(p as int, 1, (last.1 - 1) as nat);
        lemma_pow1(p as int);
        assert(b as nat == p * (rest as nat)) by (nonlinear_arith)
            requires
                b == p * rest,
                rest >= 0,
                p >= 1,
        ;
        lemma_multiple_divides(p, rest as nat);
        lemma_divides_multiple(p, b as nat, a as nat);
    } else {
        lemma_entry_divides_product(front, i);
        assert(front[i] == factors[i]);
        lemma_divides_multiple(factors[i].0 as nat, a as nat, b as nat);
    }
}

/// The fundamental theorem of arithmetic: a number has one prime
/// factorization only.
pub proof fn lemma_factorization_unique(f: Seq<(u32, u32)>, g: Seq<(u32, u32)>, n: nat)
    requires
        is_factorization(f, n),
        is_factorization(g, n),
    ensures
        f == g,
    decreases f.len(),
{
    if f.len() == 0 {
        if g.len() > 0 {
            lemma_entry_divides_product(g, g.len() - 1);
            assert(is_prime(g.last().0 as nat));
            lemma_divisor_bound(g.last().0 as nat, 1);
        }
        assert(f =~= g);
    } else if g.len() == 0 {
        lemma_entry_divides_product(f, f.len() - 1);
        assert(is_prime(f.last().0 as nat));
        lemma_divisor_bound(f.last().0 as nat, 1);
    } else {
        let p = f.last().0 as nat;
        let q = g.last().0 as nat;
        let k = f.last().1 as nat;
        let l = g.last().1 as nat;
        assert(is_prime(p) && is_prime(q));
        // The largest primes are the same.
        lemma_entry_divides_product(f, f.len() - 1);
        lemma_entry_divides_product(g, g.len() - 1);
        let j = lemma_prime_divides_product(p, g);
        let i = lemma_prime_divides_product(q, f);
        assert(p <= q) by {
            if j < g.len() - 1 {
                assert(g[j].0 < g[g.len() - 1].0);
            }
        }
        assert(q <= p) by {
            if i < f.len() - 1 {
                assert(f[i].0 < f[f.len() - 1].0);
            }
        }
        // It divides neither of the products of the smaller ones.
        let ff = f.drop_last();
        let gg = g.drop_last();
        lemma_prime_powers_drop_last(f);
        lemma_prime_powers_drop_last(g);
        lemma_factor_product_positive(ff);
        lemma_factor_product_positive(gg);
        let a = factor_product(ff);
        let b = factor_product(gg);
        if divides(p, a as nat) {
            let x = lemma_prime_divides_product(p, ff);
            assert(ff[x] == f[x]);
            assert(f[x].0 < f[f.len() - 1].0);
        }
        if divides(p, b as nat) {
            let x = lemma_prime_divides_product(p, gg);
            assert(gg[x] == g[x]);
            assert(g[x].0 < g[g.len() - 1].0);
        }
        // So its powers are the same, and so are the products of the rest.
        lemma_power_cancels(p, a as nat, k, b as nat, l);
        lemma_power_cancels(p, b as nat, l, a as nat, k);
        assert(k == l);
        let c = pow(p as int, k);
        lemma_pow_positive(p as int, k);
        assert(a == b) by (nonlinear_arith)
            requires
                a * c == b * c,
                c > 0,
        ;
        lemma_factorization_unique(ff, gg, a as nat);
        assert(f.last() == g.last());
        assert(f =~= ff.push(f.last()));
        assert(g =~= gg.push(g.last()));
    }
}

/// Where `a p^k = b p^l` and `p` does not divide `a`, `k` is not below `l`.
pub proof fn lemma_power_cancels(p: nat, a: nat, k: nat, b: nat, l: nat)
    requires
        p >= 2,
        a >= 1,
        !divides(p, a),
        a * pow(p as int, k) == b * pow(p as int, l),
    ensures
        l <= k,
{
    if k < l {
        let d = (l - k) as nat;
        let c = pow(p as int, k);
        let e = pow(p as int, d);
        let rest = pow(p as int, (d - 1) as nat);
        lemma_pow_positive(p as int, k);
        lemma_pow_positive(p as int, (d - 1) as nat);
        lemma_pow_adds(p as int, k, d);
        lemma_pow_adds(p as int, 1, (d - 1) as nat);
        lemma_pow1(p as int);
        assert(a == b * e) by (nonlinear_arith)
            requires
                a * c == b * (c * e),
                c > 0,
        ;
        assert(a == p * (b * (rest as nat))) by (nonlinear_arith)
            requires
                a == b * e,
                e == p * rest,
                rest >= 0,
        ;
        lemma_multiple_divides(p, b * (rest as nat));
    }
}


/// `1 + p + p^2 + ... + p^k`, the sum of the divisors of `p^k` for a prime `p`.
pub open spec fn geometric_sum(p: nat, k: nat) -> nat
    decreases k,
{
    if k == 0 {
        1
    } else {
        geometric_sum(p, (k - 1) as nat) + pow(p as int, k) as nat
    }
}

/// The sum of the divisors of the number whose prime powers are `factors`:
/// the product of the sums of the divisors of each prime power.
pub open spec fn divisor_sum(factors: Seq<(u32, u32)>) -> nat
    decreases factors.len(),
{
    if factors.len() == 0 {
        1
    } else {
        divisor_sum(factors.drop_last()) * geometric_sum(
            factors.last().0 as nat,
            factors.last().1 as nat,
        )
    }
}

/// Two lists of prime powers in rising order, merged into one; where both
/// have a prime, its powers add up.
pub open spec fn merged(a: Seq<(u32, u32)>, b: Seq<(u32, u32)>) -> Seq<(u32, u32)>
    decreases a.len() + b.len(),
{
    if a.len() == 0 {
        b
    } else if b.len() == 0 {
        a
    } else if a.last().0 > b.last().0 {
        merged(a.drop_last(), b).push(a.last())
    } else if a.last().0 < b.last().0 {
        merged(a, b.drop_last()).push(b.last())
    } else {
        merged(a.drop_last(), b.drop_last()).push((a.last().0, (a.last().1 + b.last().1) as u32))
    }
}

/// No prime stands in both lists.
pub open spec fn no_common_prime(a: Seq<(u32, u32)>, b: Seq<(u32, u32)>) -> bool {
    forall|i: int, j: int|
        0 <= i < a.len() && 0 <= j < b.len() ==> (#[trigger] a[i]).0 != (#[trigger] b[j]).0
}

/// `entry` stands in `a` or in `b`.
pub open spec fn from_either(entry: (u32, u32), a: Seq<(u32, u32)>, b: Seq<(u32, u32)>) -> bool {
    a.contains(entry) || b.contains(entry)
}

/// Merging two lists of prime powers that share no prime gives the prime
/// powers of the product, and the product of the sums of divisors.
pub proof fn lemma_merged_multiplies(a: Seq<(u32, u32)>, b: Seq<(u32, u32)>)
    requires
        is_prime_powers(a),
        is_prime_powers(b),
        no_common_prime(a, b),
    ensures
        is_prime_powers(merged(a, b)),
        factor_product(merged(a, b)) == factor_product(a) * factor_product(b),
        divisor_sum(merged(a, b)) == divisor_sum(a) * divisor_sum(b),
        forall|i: int|
            0 <= i < merged(a, b).len() ==> from_either(#[trigger] merged(a, b)[i], a, b),
    decreases a.len() + b.len(), 1nat,
{
    let m = merged(a, b);
    if a.len() == 0 {
        assert forall|i: int| 0 <= i < m.len() implies from_either(#[trigger] m[i], a, b) by {
            assert(b[i] == m[i]);
        }
        let sb = divisor_sum(b);
        let pb = factor_product(b);
        assert(1 * sb == sb && 1 * pb == pb) by (nonlinear_arith);
    } else if b.len() == 0 {
        assert forall|i: int| 0 <= i < m.len() implies from_either(#[trigger] m[i], a, b) by {
            assert(a[i] == m[i]);
        }
        let sa = divisor_sum(a);
        let pa = factor_product(a);
        assert(sa * 1 == sa && pa * 1 == pa) by (nonlinear_arith);
    } else if a.last().0 > b.last().0 {
        lemma_merged_step(a, b);
    } else if a.last().0 < b.last().0 {
        assert forall|i: int, j: int| 0 <= i < b.len() && 0 <= j < a.len() implies (
        #[trigger] b[i]).0 != (#[trigger] a[j]).0 by {
            assert(a[j].0 != b[i].0);
        }
        lemma_merged_symmetric(a, b);
        lemma_merged_step(b, a);
        assert forall|i: int| 0 <= i < m.len() implies from_either(#[trigger] m[i], a, b) by {
            assert(from_either(merged(b, a)[i], b, a));
        }
        let sa = divisor_sum(a);
        let sb = divisor_sum(b);
        assert(sb * sa == sa * sb) by (nonlinear_arith);
        lemma_mul_is_commutative(factor_product(a), factor_product(b));
    } else {
        assert(a[a.len() - 1].0 != b[b.len() - 1].0);
    }
}

/// Where no prime is shared, the order of the two lists does not matter.
proof fn lemma_merged_symmetric(a: Seq<(u32, u32)>, b: Seq<(u32, u32)>)
    requires
        no_common_prime(a, b),
    ensures
        merged(a, b) == merged(b, a),
    decreases a.len() + b.len(),
{
    if a.len() == 0 {
        if b.len() == 0 {
            assert(a =~= b);
        }
    } else if b.len() == 0 {
    } else if a.last().0 > b.last().0 {
        let front = a.drop_last();
        assert forall|i: int, j: int| 0 <= i < front.len() && 0 <= j < b.len() implies (
        #[trigger] front[i]).0 != (#[trigger] b[j]).0 by {
            assert(front[i] == a[i]);
        }
        lemma_merged_symmetric(front, b);
    } else if a.last().0 < b.last().0 {
        let front = b.drop_last();
        assert forall|i: int, j: int| 0 <= i < a.len() && 0 <= j < front.len() implies (
        #[trigger] a[i]).0 != (#[trigger] front[j]).0 by {
            assert(front[j] == b[j]);
        }
        lemma_merged_symmetric(a, front);
    } else {
        assert(a[a.len() - 1].0 != b[b.len() - 1].0);
    }
}

/// The step of `lemma_merged_multiplies` where the largest prime is in `a`.
proof fn lemma_merged_step(a: Seq<(u32, u32)>, b: Seq<(u32, u32)>)
    requires
        is_prime_powers(a),
        is_prime_powers(b),
        no_common_prime(a, b),
        a.len() > 0,
        b.len() > 0,
        a.last().0 > b.last().0,
    ensures
        is_prime_powers(merged(a, b)),
        factor_product(merged(a, b)) == factor_product(a) * factor_product(b),
        divisor_sum(merged(a, b)) == divisor_sum(a) * divisor_sum(b),
        forall|i: int|
            0 <= i < merged(a, b).len() ==> from_either(#[trigger] merged(a, b)[i], a, b),
    decreases a.len() + b.len(), 0nat,
{
    let front = a.drop_last();
    let last = a.last();
    let inner = merged(front, b);
    let m = merged(a, b);
    lemma_prime_powers_drop_last(a);
    assert forall|i: int, j: int| 0 <= i < front.len() && 0 <= j < b.len() implies (
    #[trigger] front[i]).0 != (#[trigger] b[j]).0 by {
        assert(front[i] == a[i]);
    }
    lemma_merged_multiplies(front, b);
    assert(m == inner.push(last));
    // All that was merged before is smaller than the last prime of `a`.
    assert forall|i: int| 0 <= i < inner.len() implies (#[trigger] inner[i]).0 < last.0 by {
        assert(from_either(inner[i], front, b));
        if front.contains(inner[i]) {
            let x = choose|x: int| 0 <= x < front.len() && front[x] == inner[i];
            assert(front[x] == a[x]);
            assert(a[x].0 < a[a.len() - 1].0);
        } else {
            let x = choose|x: int| 0 <= x < b.len() && b[x] == inner[i];
            if x < b.len() - 1 {
                assert(b[x].0 < b[b.len() - 1].0);
            }
        }
    }
    assert(is_prime_powers(m)) by {
        assert forall|i: int| 0 <= i < m.len() implies is_prime((#[trigger] m[i]).0 as nat)
            && m[i].1 >= 1 by {
            if i < inner.len() {
                assert(m[i] == inner[i]);
            } else {
                assert(m[i] == a[a.len() - 1]);
            }
        }
        assert forall|i: int, j: int| 0 <= i < j < m.len() implies (#[trigger] m[i]).0 < (
        #[trigger] m[j]).0 by {
            assert(m[i] == inner[i]);
            if j < inner.len() {
                assert(m[j] == inner[j]);
            }
        }
    }
    assert forall|i: int| 0 <= i < m.len() implies from_either(#[trigger] m[i], a, b) by {
        if i < inner.len() {
            assert(m[i] == inner[i]);
            assert(from_either(inner[i], front, b));
            if front.contains(inner[i]) {
                let x = choose|x: int| 0 <= x < front.len() && front[x] == inner[i];
                assert(a[x] == front[x]);
            }
        } else {
            assert(m[i] == a[a.len() - 1]);
        }
    }
    lemma_factor_product_push(inner, last);
    assert(m.drop_last() =~= inner);
    let pa = factor_product(front);
    let pb = factor_product(b);
    let pl = prime_power(last);
    assert((pa * pb) * pl == (pa * pl) * pb) by (nonlinear_arith);
    let sa = divisor_sum(front);
    let sb = divisor_sum(b);
    let sl = geometric_sum(last.0 as nat, last.1 as nat);
    assert((sa * sb) * sl == (sa * sl) * sb) by (nonlinear_arith);
}

/// The primes of two coprime numbers are not the same.
proof fn lemma_coprime_no_common_prime(fa: Seq<(u32, u32)>, a: nat, fb: Seq<(u32, u32)>, b: nat)
    requires
        is_factorization(fa, a),
        is_factorization(fb, b),
        coprime(a, b),
    ensures
        no_common_prime(fa, fb),
{
    assert forall|i: int, j: int| 0 <= i < fa.len() && 0 <= j < fb.len() implies (
    #[trigger] fa[i]).0 != (#[trigger] fb[j]).0 by {
        if fa[i].0 == fb[j].0 {
            let p = fa[i].0 as nat;
            lemma_entry_divides_product(fa, i);
            lemma_entry_divides_product(fb, j);
            assert(is_prime(p));
            assert(divides(p, a) && divides(p, b));
        }
    }
}

/// The prime factorization of `n`.
pub open spec fn prime_factors(n: nat) -> Seq<(u32, u32)> {
    choose|factors: Seq<(u32, u32)>| is_factorization(factors, n)
}

/// Every number from one up to the largest `u32` has a prime
/// factorization.
pub proof fn lemma_prime_factors_exist(n: nat)
    requires
        1 <= n <= u32::MAX,
    ensures
        is_factorization(prime_factors(n), n),
    decreases n,
{
    if n == 1 {
        assert(is_factorization(Seq::empty(), 1));
    } else {
        // Split off a prime, to its full power, and factor the rest.
        let p = lemma_prime_divisor_exists(n);
        let (k, rest) = lemma_split_off_power(p, n);
        lemma_pow_positive(p as int, k);
        let c = pow(p as int, k) as nat;
        lemma_divisor_bound(p, n);
        if k == 0 {
            lemma_pow0(p as int);
            assert(c * rest == rest) by (nonlinear_arith)
                requires
                    c == 1,
            ;
        }
        assert(p <= c && rest < n) by {
            lemma_pow_step(p as int, (k - 1) as nat);
            lemma_pow_positive(p as int, (k - 1) as nat);
            let b = pow(p as int, (k - 1) as nat);
            assert(p <= p * b && rest < (p * b) * rest) by (nonlinear_arith)
                requires
                    b >= 1,
                    rest >= 1,
                    p >= 2,
            ;
        }
        assert(k < n) by {
            assert(c <= c * rest) by (nonlinear_arith)
                requires
                    rest >= 1,
            ;
            lemma_exponent_below(p, k, n);
        }
        lemma_prime_factors_exist(rest);
        let front = prime_factors(rest);
        let entry = (p as u32, k as u32);
        let single = Seq::<(u32, u32)>::empty().push(entry);
        lemma_factor_product_push(Seq::empty(), entry);
        assert(is_prime_powers(single));
        assert(no_common_prime(front, single)) by {
            assert forall|i: int, j: int|
                0 <= i < front.len() && 0 <= j < single.len() implies (#[trigger] front[i]).0 != (
            #[trigger] single[j]).0 by {
                if front[i].0 == p {
                    lemma_entry_divides_product(front, i);
                }
            }
        }
        lemma_merged_multiplies(front, single);
        assert(rest * c == c * rest) by (nonlinear_arith);
        assert(is_factorization(merged(front, single), n));
    }
}

/// A power of a number above one is above its exponent.
proof fn lemma_exponent_below(p: nat, k: nat, n: nat)
    requires
        p >= 2,
        pow(p as int, k) <= n,
    ensures
        k < n,
    decreases k,
{
    if k == 0 {
        lemma_pow0(p as int);
    } else {
        lemma_pow_step(p as int, (k - 1) as nat);
        lemma_pow_positive(p as int, (k - 1) as nat);
        let b = pow(p as int, (k - 1) as nat);
        assert(2 * b <= p * b) by (nonlinear_arith)
            requires
                p >= 2,
                b >= 1,
        ;
        if n >= 1 {
            lemma_exponent_below(p, (k - 1) as nat, (n - 1) as nat);
        }
    }
}

/// Factoring distributes over the product of coprime numbers: the prime
/// factorization of `a b` is that of `a` merged with that of `b`.
pub proof fn lemma_factors_of_coprime_product(a: nat, b: nat)
    requires
        a >= 1,
        b >= 1,
        a * b <= u32::MAX,
        coprime(a, b),
    ensures
        prime_factors(a * b) == merged(prime_factors(a), prime_factors(b)),
{
    assert(a <= a * b && b <= a * b) by (nonlinear_arith)
        requires
            a >= 1,
            b >= 1,
    ;
    lemma_prime_factors_exist(a);
    lemma_prime_factors_exist(b);
    lemma_prime_factors_exist(a * b);
    let (fa, fb) = (prime_factors(a), prime_factors(b));
    lemma_coprime_no_common_prime(fa, a, fb, b);
    lemma_merged_multiplies(fa, fb);
    lemma_factorization_unique(prime_factors(a * b), merged(fa, fb), a * b);
}

} // verus!
