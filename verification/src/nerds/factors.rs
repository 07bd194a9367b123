//! Prime factors, and the sum of the divisors.

use crate::gmp;
use crate::math::{divides, is_prime};
use crate::math::divisors::{lemma_divisor_sum_is_sigma, sigma};
use crate::math::factorization::{
    divisor_sum, factor_product, geometric_sum, is_factorization, lemma_factor_product_push,
    lemma_factorization_unique, prime_factors,
};
use crate::math::primes::{
    lemma_cofactor_divides, lemma_divides_multiple, lemma_divides_quotient,
    lemma_divides_transitive,
};
use crate::natural::Natural;
use crate::nerds::{Fact, FactText};
use crate::text::{decimal, push_decimal};
use vstd::arithmetic::power::{
    lemma0_pow, lemma_pow0, lemma_pow1, lemma_pow_adds, lemma_pow_positive, pow,
};
use vstd::prelude::*;
use vstd::string::StringExecFns;

verus! {

/// The largest number that is factored.
pub const LIMIT: u32 = 100_000_000;

/// A number that nothing from 2 to its root divides is a prime.
proof fn lemma_no_small_divisor_prime(n: nat, i: nat)
    requires
        n >= 2,
        i * i > n,
        forall|d: nat| 2 <= d < i ==> !#[trigger] divides(d, n),
    ensures
        is_prime(n),
{
    assert forall|d: nat| 1 < d < n implies !#[trigger] divides(d, n) by {
        if divides(d, n) {
            if d >= i {
                let c = n / d;
                lemma_cofactor_divides(d, n);
                assert(c < i) by (nonlinear_arith)
                    requires
                        n == c * d,
                        d >= i,
                        i * i > n,
                ;
                assert(c != 1) by (nonlinear_arith)
                    requires
                        n == c * d,
                        d < n,
                ;
                assert(divides(c, n));
            }
        }
    }
}

/// The prime factorization of `n`, by trial division: by 2, then by the
/// odd numbers up to the root of what is left.
pub fn factors_impl(n: u32) -> (factors: Vec<(u32, u32)>)
    requires
        2 <= n <= LIMIT,
    ensures
        is_factorization(factors@, n as nat),
{
    let ghost orig = n;
    let mut n = n;
    let mut factors: Vec<(u32, u32)> = Vec::new();
    let mut two_count: u32 = 0;
    proof {
        lemma_pow0(2);
    }
    while n % 2 == 0
        invariant
            1 <= n,
            two_count + n <= orig,
            orig == pow(2, two_count as nat) * n,
        decreases n,
    {
        proof {
            lemma_pow_adds(2, two_count as nat, 1);
            lemma_pow1(2);
            let t = pow(2, two_count as nat);
            let h = (n / 2) as int;
            assert(t * (2 * h) == (t * 2) * h) by (nonlinear_arith);
        }
        n /= 2;
        two_count += 1;
    }
    if two_count != 0 {
        factors.push((2, two_count));
        proof {
            lemma_factor_product_push(Seq::empty(), (2u32, two_count));
            assert(factors@ =~= Seq::<(u32, u32)>::empty().push((2u32, two_count)));
            assert(is_prime(2)) by {
                assert forall|d: nat| 1 < d < 2 implies !#[trigger] divides(d, 2) by {}
            }
        }
    }
    // Note: `factors` will only contain prime numbers.
    // This is because no composite factor of the number
    // can be encountered before the factors of that composite factor.

    let mut i: u32 = 3;
    assert forall|d: nat| 2 <= d < 3 implies !#[trigger] divides(d, n as nat) by {}
    while n != 1 && i * i <= n
        invariant
            1 <= n <= orig <= LIMIT,
            3 <= i <= 10_003,
            i * i <= u32::MAX,
            i % 2 == 1,
            n % 2 == 1,
            orig == factor_product(factors@) * n,
            forall|d: nat| 2 <= d < i ==> !#[trigger] divides(d, n as nat),
            forall|k: int|
                0 <= k < factors@.len() ==> is_prime((#[trigger] factors@[k]).0 as nat)
                    && factors@[k].1 >= 1 && factors@[k].0 < i,
            forall|a: int, b: int|
                0 <= a < b < factors@.len() ==> (#[trigger] factors@[a]).0 < (
                #[trigger] factors@[b]).0,
        decreases 20_000 - i,
    {
        assert(i <= 10_000) by (nonlinear_arith)
            requires
                i * i <= n,
                n <= 100_000_000,
        ;
        let mut count: u32 = 0;
        let ghost product = factor_product(factors@);
        proof {
            lemma_pow0(i as int);
        }
        while n % i == 0
            invariant
                1 <= n <= orig,
                3 <= i,
                count + n <= orig,
                n % 2 == 1,
                orig == product * pow(i as int, count as nat) * n,
                forall|d: nat| 2 <= d < i ==> !#[trigger] divides(d, n as nat),
                count > 0 ==> is_prime(i as nat),
            decreases n,
        {
            let ghost rest = (n / i) as nat;
            proof {
                assert(divides(i as nat, n as nat));
                lemma_cofactor_divides(i as nat, n as nat);
                // `i` is a prime, as nothing smaller divides `n`.
                assert forall|d: nat| 1 < d < i implies !#[trigger] divides(d, i as nat) by {
                    if divides(d, i as nat) {
                        lemma_divides_transitive(d, i as nat, n as nat);
                    }
                }
                // What divides the quotient divides `n`.
                assert forall|d: nat| 2 <= d < i implies !#[trigger] divides(d, rest) by {
                    if divides(d, rest) {
                        lemma_divides_multiple(d, rest, i as nat);
                    }
                }
                if rest % 2 == 0 {
                    assert(divides(2, rest));
                    lemma_divides_multiple(2, rest, i as nat);
                }
                lemma_pow_adds(i as int, count as nat, 1);
                lemma_pow1(i as int);
                let t = pow(i as int, count as nat);
                assert(product * t * (rest * i) == product * (t * i) * rest) by (nonlinear_arith);
                assert(rest < n) by (nonlinear_arith)
                    requires
                        n == rest * i,
                        i >= 3,
                        rest >= 1,
                ;
            }
            n /= i;
            count += 1;
        }
        if count != 0 {
            proof {
                lemma_factor_product_push(factors@, (i, count));
            }
            factors.push((i, count));
        } else {
            assert(pow(i as int, 0) == 1);
        }
        proof {
            assert forall|d: nat| 2 <= d < i + 2 implies !#[trigger] divides(d, n as nat) by {
                if d == i + 1 && divides(d, n as nat) {
                    lemma_divides_quotient(d, n as nat);
                    let x = n as nat / d;
                    let j = d / 2;
                    assert(n == 2 * (j * x)) by (nonlinear_arith)
                        requires
                            n == d * x,
                            d == 2 * j,
                    ;
                }
            }
        }
        assert((i + 2) * (i + 2) <= u32::MAX) by (nonlinear_arith)
            requires
                i <= 10_000,
        ;
        i += 2;
    }
    // The remainder must be a prime number.
    if n != 1 {
        proof {
            lemma_no_small_divisor_prime(n as nat, i as nat);
            lemma_factor_product_push(factors@, (n, 1u32));
            lemma_pow1(n as int);
            if n < i {
                assert(divides(n as nat, n as nat));
            }
        }
        factors.push((n, 1));
    }
    factors
}


/// The sum of the divisors of the number whose prime factorization is
/// `factors`. The sum of divisors is multiplicative, so it is the product,
/// over the prime powers `p^k`, of `1 + p + p^2 + ... + p^k`.
pub fn sum_of_divisors(factors: &[(u32, u32)]) -> (r: Natural)
    ensures
        r@ == divisor_sum(factors@),
        forall|n: nat| is_factorization(factors@, n) ==> r@ == sigma(n),
{
    let mut total = Natural::from_u32(1);
    let mut index: usize = 0;
    assert(factors@.take(0) =~= Seq::<(u32, u32)>::empty());
    while index < factors.len()
        invariant
            index <= factors@.len(),
            total@ == divisor_sum(factors@.take(index as int)),
        decreases factors@.len() - index,
    {
        let (p, k) = factors[index];
        let base = Natural::from_u32(p);
        let mut res = Natural::from_u32(1);
        let mut prod = Natural::from_u32(1);
        let mut e: u32 = 0;
        proof {
            lemma_pow0(p as int);
        }
        while e < k
            invariant
                e <= k,
                base@ == p,
                prod@ == pow(p as int, e as nat),
                res@ == geometric_sum(p as nat, e as nat),
            decreases k - e,
        {
            proof {
                lemma_pow_adds(p as int, e as nat, 1);
                lemma_pow1(p as int);
                if p > 0 {
                    lemma_pow_positive(p as int, (e + 1) as nat);
                } else {
                    lemma0_pow((e + 1) as nat);
                }
            }
            prod = gmp::mul(&prod, &base);
            res = gmp::add(&res, &prod);
            e += 1;
        }
        proof {
            let next = factors@.take(index + 1);
            assert(next.drop_last() =~= factors@.take(index as int));
            assert(next.last() == factors@[index as int]);
        }
        total = gmp::mul(&total, &res);
        index += 1;
    }
    assert(factors@.take(index as int) =~= factors@);
    assert forall|n: nat| is_factorization(factors@, n) implies total@ == sigma(n) by {
        lemma_divisor_sum_is_sigma(factors@, n);
    }
    total
}

/// A prime power in markup: a link to the prime, with a link to the power as
/// superscript unless the power is one.
pub open spec fn factor_text(entry: (u32, u32)) -> Seq<char> {
    if entry.1 == 1 {
        "(#"@ + decimal(entry.0 as nat) + ")"@
    } else {
        "(#"@ + decimal(entry.0 as nat) + ")(^(#"@ + decimal(entry.1 as nat) + "))"@
    }
}

/// Prime powers in markup, with multiplication signs between them.
pub open spec fn factors_text(factors: Seq<(u32, u32)>) -> Seq<char>
    decreases factors.len(),
{
    if factors.len() == 0 {
        Seq::empty()
    } else if factors.len() == 1 {
        factor_text(factors[0])
    } else {
        factors_text(factors.drop_last()) + "×"@ + factor_text(factors.last())
    }
}

/// How `n` stands to the sum of its divisors: deficient where the sum is
/// below twice the number, perfect where it is twice the number, abundant
/// where it is above.
pub open spec fn aliquot_text(n: nat) -> Seq<char> {
    "Is "@ + (if sigma(n) < 2 * n {
        "less than"@
    } else if sigma(n) == 2 * n {
        "equal to"@
    } else {
        "greater than"@
    }) + " half the sum of its divisors ((#"@ + decimal(sigma(n)) + ")), making it "@ + (if sigma(
        n,
    ) < 2 * n {
        "a deficient"@
    } else if sigma(n) == 2 * n {
        "a perfect"@
    } else {
        "an abundant"@
    }) + " number."@
}

/// What is said of the factors of `n`, from 2 to [`LIMIT`]: its prime
/// factors, how it stands to the sum of its divisors, and that it is almost
/// perfect where that sum is one less than twice the number.
pub open spec fn factors_facts(n: nat) -> Seq<FactText> {
    if n < 2 || n > LIMIT {
        Seq::empty()
    } else {
        let facts = seq![
            FactText::Basic(
                "The prime factors of this number are "@ + factors_text(prime_factors(n)) + "."@,
            ),
            FactText::Basic(aliquot_text(n)),
        ];
        if sigma(n) == 2 * n - 1 {
            facts.push(FactText::Basic("Is an almost perfect number."@))
        } else {
            facts
        }
    }
}

/// Appends a prime power in markup.
fn push_factor(text: &mut String, entry: (u32, u32))
    ensures
        final(text)@ == old(text)@ + factor_text(entry),
{
    text.append("(#");
    push_decimal(text, entry.0);
    if entry.1 == 1 {
        text.append(")");
    } else {
        text.append(")(^(#");
        push_decimal(text, entry.1);
        text.append("))");
    }
    assert(text@ =~= old(text)@ + factor_text(entry));
}

/// Lists the prime factors of `n` and says how `n` stands to the sum of its
/// divisors, for `n` from 2 to [`LIMIT`].
pub fn factors(n: &Natural) -> (facts: Vec<Fact>)
    ensures
        facts.deep_view() == factors_facts(n@),
{
    let mut facts: Vec<Fact> = Vec::new();
    let small = match n.to_u32() {
        Some(small) => small,
        None => {
            assert(facts.deep_view() =~= factors_facts(n@));
            return facts;
        },
    };
    if small <= 1 || small > LIMIT {
        assert(facts.deep_view() =~= factors_facts(n@));
        return facts;
    }
    let factors = factors_impl(small);
    proof {
        lemma_factorization_unique(factors@, prime_factors(n@), n@);
        lemma_divisor_sum_is_sigma(factors@, n@);
    }
    let mut formatted = String::from_str("The prime factors of this number are ");
    let ghost intro = formatted@;
    let mut index: usize = 0;
    assert(factors@.take(0) =~= Seq::<(u32, u32)>::empty());
    assert(intro + factors_text(factors@.take(0)) =~= intro);
    while index < factors.len()
        invariant
            index <= factors@.len(),
            formatted@ == intro + factors_text(factors@.take(index as int)),
        decreases factors@.len() - index,
    {
        if index > 0 {
            formatted.append("×");
        }
        push_factor(&mut formatted, factors[index]);
        proof {
            let next = factors@.take(index + 1);
            assert(next.drop_last() =~= factors@.take(index as int));
            assert(next.last() == factors@[index as int]);
            if index == 0 {
                assert(next[0] == factors@[0]);
            }
            assert(formatted@ =~= intro + factors_text(next));
        }
        index += 1;
    }
    assert(factors@.take(index as int) =~= factors@);
    formatted.append(".");
    facts.push(Fact::Basic(formatted));

    let divisor_sum = sum_of_divisors(factors.as_slice());
    let double = Natural::from_u32(2 * small);
    let less = gmp::is_less(&divisor_sum, &double);
    let greater = gmp::is_less(&double, &divisor_sum);
    let (aliquot_order, aliquot_characteristic) = if less {
        ("less than", "a deficient")
    } else if greater {
        ("greater than", "an abundant")
    } else {
        ("equal to", "a perfect")
    };
    let mut aliquot = String::from_str("Is ");
    aliquot.append(aliquot_order);
    aliquot.append(" half the sum of its divisors ((#");
    aliquot.append(gmp::to_decimal(&divisor_sum).as_str());
    aliquot.append(")), making it ");
    aliquot.append(aliquot_characteristic);
    aliquot.append(" number.");
    assert(aliquot@ =~= aliquot_text(n@));
    facts.push(Fact::Basic(aliquot));

    let almost = Natural::from_u32(2 * small - 1);
    if divisor_sum.equals(&almost) {
        facts.push(Fact::Basic(String::from_str("Is an almost perfect number.")));
    }
    assert(facts.deep_view() =~= factors_facts(n@));
    facts
}

} // verus!
