//! Perfect powers: numbers of the form `x^y` with `x` and `y` above one.
//!
//! For `n = x^y`, `y` is at most the binary logarithm of `n`, so `y` can be
//! found by trying the numbers from there down to 2 and testing whether the
//! `y`-th root of `n` is an integer. That is slow. Where a prime `p` divides
//! `n` exactly `k` times, `y` must divide `k`, and `n / p^k` must be a `y`-th
//! power itself; so a short list of primes is tried first.

use crate::gmp;
use crate::math::{divides, is_perfect_power, is_power_with_exponent, is_prime};
use crate::math::powers::{
    lemma_exponent_below_bits, lemma_power_of_stripped, lemma_power_rebuilt, lemma_pow_step,
    lemma_root_unique, lemma_truncated_root_decides,
};
use crate::math::primes::{lemma_cofactor_divides, lemma_divides_transitive};
use crate::natural::{Natural, BIT_LIMIT};
use crate::nerds::{Fact, FactText};
use crate::text::{decimal, push_decimal};
use vstd::arithmetic::power2::{lemma_pow2_strictly_increases, pow2};
use vstd::arithmetic::power::{lemma0_pow, lemma1_pow, lemma_pow0, lemma_pow_positive, pow};
use vstd::prelude::*;
use vstd::string::StringExecFns;

verus! {

/// The primes that are tried as divisors.
pub const SMALL_PRIMES: [u32; 25] = [
    2, 3, 5, 7, 11, 13, 17, 19, 23, 29, 31, 37, 41, 43, 47, 53, 59, 61, 67, 71, 73, 79, 83, 89, 97,
];

/// `n` is `x^y`, with `x` and `y` above one, and is no power of a degree above `y`.
pub open spec fn is_largest_power_form(n: nat, x: nat, y: nat) -> bool {
    &&& x > 1
    &&& y > 1
    &&& pow(x as int, y) == n
    &&& forall|z: nat| z > y ==> !is_power_with_exponent(n, z)
}

/// The largest degree of which `n` is a perfect power.
pub open spec fn largest_exponent(n: nat) -> nat {
    choose|y: nat|
        y > 1 && is_power_with_exponent(n, y) && forall|z: nat|
            z > y ==> !is_power_with_exponent(n, z)
}

/// The root of `n` of the largest degree of which it is a perfect power.
pub open spec fn power_base(n: nat) -> nat {
    choose|x: nat| #[trigger] pow(x as int, largest_exponent(n)) == n
}

/// What is said of `n` as a perfect power; nothing of zero and one, nor of
/// numbers of two to the [`BIT_LIMIT`] and above.
pub open spec fn power_form_facts(n: nat) -> Seq<FactText> {
    if n > 1 && n < pow2(BIT_LIMIT as nat) && is_perfect_power(n) {
        seq![
            FactText::Basic(
                "This number is a perfect power: (#"@ + decimal(power_base(n)) + ")(^(#"@ + decimal(
                    largest_exponent(n),
                ) + "))."@,
            ),
        ]
    } else {
        Seq::empty()
    }
}

/// A number has one largest power form at most.
pub proof fn lemma_largest_power_form_unique(n: nat, x: nat, y: nat)
    requires
        is_largest_power_form(n, x, y),
    ensures
        is_perfect_power(n),
        largest_exponent(n) == y,
        power_base(n) == x,
{
    assert(is_power_with_exponent(n, y));
    let e = largest_exponent(n);
    assert(e > 1 && is_power_with_exponent(n, e) && forall|z: nat|
        z > e ==> !is_power_with_exponent(n, z));
    assert(e == y);
    lemma_root_unique(power_base(n), x, y);
}

/// A number from 2 to 99 that 2, 3, 5 and 7 do not divide, unless it is
/// one of them, is a prime.
proof fn lemma_prime_below_hundred(p: nat)
    requires
        2 <= p < 100,
        p % 2 != 0 || p == 2,
        p % 3 != 0 || p == 3,
        p % 5 != 0 || p == 5,
        p % 7 != 0 || p == 7,
    ensures
        is_prime(p),
{
    assert forall|d: nat| 1 < d < p implies !#[trigger] divides(d, p) by {
        if divides(d, p) {
            // A divisor, or its cofactor, is below ten.
            lemma_cofactor_divides(d, p);
            let c = p / d;
            assert(d < 10 || c < 10) by (nonlinear_arith)
                requires
                    p == c * d,
                    p < 100,
            ;
            assert(1 < c < p) by (nonlinear_arith)
                requires
                    p == c * d,
                    1 < d < p,
                    c >= 1,
            ;
            let small = if d < 10 { d } else { c };
            assert(divides(small, p));
            // And 2, 3, 5 or 7 divides what is below ten.
            let q: nat = if small % 2 == 0 {
                2
            } else if small % 3 == 0 {
                3
            } else if small % 5 == 0 {
                5
            } else {
                7
            };
            assert(divides(q, small));
            lemma_divides_transitive(q, small, p);
        }
    }
}

/// The numbers of the list are primes.
proof fn lemma_small_primes_are_prime()
    ensures
        forall|i: int| 0 <= i < 25 ==> is_prime(#[trigger] SMALL_PRIMES[i] as nat),
{
    assert forall|i: int| 0 <= i < 25 implies is_prime(#[trigger] SMALL_PRIMES[i] as nat) by {
        lemma_prime_below_hundred(SMALL_PRIMES[i] as nat);
    }
}

/// The first prime of [`SMALL_PRIMES`] that divides `n`, how often it
/// divides `n`, and what is left of `n` without it.
fn strip_small_prime(n: &Natural) -> (r: Option<(u32, u32, Natural)>)
    requires
        n@ >= 1,
        n@ < pow2(u32::MAX as nat),
    ensures
        match r {
            Some((p, k, rest)) => {
                &&& is_prime(p as nat)
                &&& 1 <= k < u32::MAX
                &&& n@ == pow(p as int, k as nat) * rest@
                &&& rest@ >= 1
                &&& !divides(p as nat, rest@)
            },
            None => forall|i: int| 0 <= i < 25 ==> !divides(#[trigger] SMALL_PRIMES[i] as nat, n@),
        },
{
    let mut index: usize = 0;
    while index < 25
        invariant
            index <= 25,
            1 <= n@ < pow2(u32::MAX as nat),
            forall|i: int| 0 <= i < index ==> !divides(#[trigger] SMALL_PRIMES[i] as nat, n@),
        decreases 25 - index,
    {
        let prime = SMALL_PRIMES[index];
        proof {
            lemma_small_primes_are_prime();
            assert(is_prime(SMALL_PRIMES[index as int] as nat));
        }
        if gmp::is_divisible_u32(n, prime) {
            // By how much?
            let mut rest = gmp::div_exact_u32(n, prime);
            let mut k: u32 = 1;
            proof {
                lemma_cofactor_divides(prime as nat, n@);
                lemma_pow_step(prime as int, 0);
                lemma_pow0(prime as int);
            }
            while gmp::is_divisible_u32(&rest, prime)
                invariant
                    is_prime(prime as nat),
                    1 <= k < u32::MAX,
                    rest@ >= 1,
                    n@ == pow(prime as int, k as nat) * rest@,
                    n@ < pow2(u32::MAX as nat),
                decreases rest@,
            {
                proof {
                    let p = prime as nat;
                    let c = pow(p as int, k as nat);
                    let q = rest@ / p;
                    lemma_cofactor_divides(p, rest@);
                    lemma_pow_step(p as int, k as nat);
                    lemma_pow_positive(p as int, (k + 1) as nat);
                    assert(c * (q * p) == (p * c) * q) by (nonlinear_arith);
                    assert(q < rest@) by (nonlinear_arith)
                        requires
                            rest@ == q * p,
                            p >= 2,
                            q >= 1,
                    ;
                    // The power is below `n`, so its exponent is below the bits of `n`.
                    let d = pow(p as int, (k + 1) as nat);
                    assert(d <= d * q) by (nonlinear_arith)
                        requires
                            d >= 1,
                            q >= 1,
                    ;
                    lemma_exponent_below_bits(p, (k + 1) as nat, u32::MAX as nat);
                }
                rest = gmp::div_exact_u32(&rest, prime);
                k += 1;
            }
            return Some((prime, k, rest));
        }
        index += 1;
    }
    None
}

/// The form `x^y` of `n`, with `x` and `y` above one, in which `y` is as
/// large as can be, if `n` has such a form.
pub fn power_form_impl(n: Natural) -> (r: Option<(Natural, u32)>)
    requires
        n@ > 1,
        n@ < pow2(u32::MAX as nat),
    ensures
        match r {
            Some((x, y)) => is_largest_power_form(n@, x@, y as nat),
            None => !is_perfect_power(n@),
        },
{
    // First, test: Does N have a prime factor of the form p^k?
    match strip_small_prime(&n) {
        None => {
            // We have no choice, do it the slow way.
            let bits = gmp::significant_bits(&n);
            proof {
                if bits < 2 {
                    vstd::arithmetic::power2::lemma2_to64();
                }
                assert forall|z: nat| z >= bits implies !is_power_with_exponent(n@, z) by {
                    if is_power_with_exponent(n@, z) {
                        let x = choose|x: nat| #[trigger] pow(x as int, z) == n@;
                        lemma_small_base_small_power(x, z);
                        lemma_exponent_below_bits(x, z, bits as nat);
                    }
                }
            }
            // We do it in reverse so we can find the highest exponents first,
            // since it's preferable to output 2^32 instead of 65536^2.
            let mut y: u32 = bits;
            while y > 2
                invariant
                    2 <= y,
                    n@ > 1,
                    forall|z: nat| z >= y ==> !is_power_with_exponent(n@, z),
                decreases y,
            {
                y -= 1;
                let (x, rem) = gmp::root_rem(&n, y);
                proof {
                    lemma_truncated_root_decides(n@, x@, y as nat);
                }
                if rem.is_zero() {
                    proof {
                        lemma_small_base_small_power(x@, y as nat);
                    }
                    return Some((x, y));
                }
            }
            proof {
                assert forall|x: nat, z: nat| x > 1 && z > 1 implies #[trigger] pow(x as int, z)
                    != n@ by {
                    if pow(x as int, z) == n@ {
                        assert(is_power_with_exponent(n@, z));
                    }
                }
            }
            None
        },
        Some((p, k, rest)) => {
            // Note that in this branch `rest` is N divided by p^k. N is a
            // y-th power where y divides k and `rest` is a y-th power, and
            // only there.
            proof {
                assert forall|z: nat| z > k implies !is_power_with_exponent(n@, z) by {
                    if is_power_with_exponent(n@, z) {
                        lemma_power_of_stripped(p as nat, k as nat, rest@, z);
                        vstd::arithmetic::div_mod::lemma_small_mod(k as nat, z);
                    }
                }
            }
            let mut y: u32 = k + 1;
            while y > 2
                invariant
                    2 <= y <= k + 1,
                    k < u32::MAX,
                    n@ > 1,
                    is_prime(p as nat),
                    rest@ >= 1,
                    !divides(p as nat, rest@),
                    n@ == pow(p as int, k as nat) * rest@,
                    forall|z: nat| z >= y ==> !is_power_with_exponent(n@, z),
                decreases y,
            {
                y -= 1;
                if k % y == 0 {
                    let (root, rem) = gmp::root_rem(&rest, y);
                    proof {
                        lemma_truncated_root_decides(rest@, root@, y as nat);
                        if is_power_with_exponent(n@, y as nat) {
                            lemma_power_of_stripped(p as nat, k as nat, rest@, y as nat);
                        }
                    }
                    if rem.is_zero() {
                        // We reconstruct the real `x` by
                        // computing x * p^(k/y).
                        let x = gmp::mul(&root, &gmp::u32_pow(p, k / y));
                        proof {
                            lemma_power_rebuilt(p as nat, k as nat, rest@, root@, y as nat);
                            lemma_small_base_small_power(x@, y as nat);
                        }
                        return Some((x, y));
                    }
                } else {
                    proof {
                        if is_power_with_exponent(n@, y as nat) {
                            lemma_power_of_stripped(p as nat, k as nat, rest@, y as nat);
                        }
                    }
                }
            }
            // No candidates remaining.
            proof {
                assert forall|x: nat, z: nat| x > 1 && z > 1 implies #[trigger] pow(x as int, z)
                    != n@ by {
                    if pow(x as int, z) == n@ {
                        assert(is_power_with_exponent(n@, z));
                    }
                }
            }
            None
        },
    }
}

/// A power of zero or one is zero or one.
proof fn lemma_small_base_small_power(x: nat, e: nat)
    ensures
        x <= 1 ==> pow(x as int, e) <= 1,
{
    if x == 0 {
        if e == 0 {
            lemma_pow0(0);
        } else {
            lemma0_pow(e);
        }
    } else if x == 1 {
        lemma1_pow(e);
    }
}

/// Says in which form `n` is a perfect power, if it is one.
pub fn power_form(n: &Natural) -> (facts: Vec<Fact>)
    ensures
        facts.deep_view() == power_form_facts(n@),
{
    let mut facts: Vec<Fact> = Vec::new();
    let small = n.to_u32();
    if small == Some(0) || small == Some(1) || !n.fits_bit_limit() {
        assert(facts.deep_view() =~= power_form_facts(n@));
        return facts;
    }
    proof {
        lemma_pow2_strictly_increases(BIT_LIMIT as nat, u32::MAX as nat);
    }
    match power_form_impl(n.clone()) {
        Some((x, y)) => {
            let mut text = String::from_str("This number is a perfect power: (#");
            text.append(gmp::to_decimal(&x).as_str());
            text.append(")(^(#");
            push_decimal(&mut text, y);
            text.append(")).");
            facts.push(Fact::Basic(text));
            proof {
                lemma_largest_power_form_unique(n@, x@, y as nat);
                assert(facts.deep_view() =~= power_form_facts(n@));
            }
        },
        None => {
            assert(facts.deep_view() =~= power_form_facts(n@));
        },
    }
    facts
}

} // verus!
