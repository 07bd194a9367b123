//! Primes, and the Mersenne primes among them.

use crate::gmp::{probable_prime_verdict, PrimeVerdict};
use crate::gmp;
use crate::math::{is_prime, popcount};
use crate::natural::{Natural, BIT_LIMIT};
use crate::nerds::{Fact, FactText};
use crate::text::{decimal, push_decimal};
use vstd::arithmetic::power2::{
    lemma_pow2_pos, lemma_pow2_strictly_increases, lemma_pow2_unfold, pow2,
};
use vstd::prelude::*;
use vstd::string::StringExecFns;

verus! {

/// The repetitions that the primality test is run with.
pub const REPETITIONS: u32 = 30;

/// `n` is one less than a power of two.
pub open spec fn is_mersenne(n: nat) -> bool {
    exists|e: nat| #[trigger] pow2(e) == n + 1
}

/// The `e` for which `n` is `2^e - 1`.
pub open spec fn mersenne_exponent(n: nat) -> nat {
    choose|e: nat| #[trigger] pow2(e) == n + 1
}

/// What is said of `n` on the `verdict` of the primality test: nothing of
/// what is no prime; else that it is a prime, certainly or almost, and
/// whether it is a Mersenne prime `2^e - 1`.
pub open spec fn prime_facts_for(verdict: PrimeVerdict, n: nat) -> Seq<FactText> {
    if verdict is No {
        Seq::empty()
    } else {
        let first = FactText::Basic(
            if verdict is Yes {
                "Is a prime number."@
            } else {
                "Is almost certainly a prime number."@
            },
        );
        if is_mersenne(n) {
            seq![
                first,
                FactText::Basic(
                    "Is a Mersenne prime: (#2)(^(#"@ + decimal(mersenne_exponent(n)) + "))-(#1)"@,
                ),
            ]
        } else {
            seq![first]
        }
    }
}

/// What is said of `n` as a prime; nothing of numbers of two to the
/// [`BIT_LIMIT`] and above.
pub open spec fn prime_facts(n: nat) -> Seq<FactText> {
    if n < pow2(BIT_LIMIT as nat) {
        prime_facts_for(probable_prime_verdict(n, REPETITIONS), n)
    } else {
        Seq::empty()
    }
}

/// One less than two to the `e` has `e` one bits.
pub proof fn lemma_popcount_mersenne(e: nat)
    ensures
        popcount((pow2(e) - 1) as nat) == e,
    decreases e,
{
    lemma_pow2_pos(e);
    if e == 0 {
        vstd::arithmetic::power2::lemma2_to64();
    } else {
        lemma_pow2_unfold(e);
        lemma_pow2_pos((e - 1) as nat);
        lemma_popcount_mersenne((e - 1) as nat);
        let half = (pow2((e - 1) as nat) - 1) as nat;
        let n = (pow2(e) - 1) as nat;
        assert(n == 2 * half + 1);
        assert(n % 2 == 1 && n / 2 == half);
    }
}

/// A number is one less than one power of two at most.
pub proof fn lemma_mersenne_exponent_unique(n: nat, e: nat)
    requires
        pow2(e) == n + 1,
    ensures
        is_mersenne(n),
        mersenne_exponent(n) == e,
{
    let f = mersenne_exponent(n);
    if e < f {
        lemma_pow2_strictly_increases(e, f);
    }
    if f < e {
        lemma_pow2_strictly_increases(f, e);
    }
}

/// Says what the `verdict` of the primality test on `n` lets one say.
pub fn prime_verdict_facts(verdict: PrimeVerdict, n: &Natural) -> (facts: Vec<Fact>)
    requires
        n@ < pow2(BIT_LIMIT as nat),
    ensures
        facts.deep_view() == prime_facts_for(verdict, n@),
{
    let mut facts: Vec<Fact> = Vec::new();
    match verdict {
        PrimeVerdict::Yes => {
            facts.push(Fact::Basic(String::from_str("Is a prime number.")));
        },
        PrimeVerdict::Probably => {
            facts.push(Fact::Basic(String::from_str("Is almost certainly a prime number.")));
        },
        PrimeVerdict::No => {
            assert(facts.deep_view() =~= prime_facts_for(verdict, n@));
            return facts;
        },
    }
    proof {
        lemma_pow2_strictly_increases(BIT_LIMIT as nat, u32::MAX as nat);
    }
    let one = Natural::from_u32(1);
    if gmp::is_power_of_two(&gmp::add(n, &one)) {
        match gmp::count_ones(n) {
            Some(power) => {
                let mut text = String::from_str("Is a Mersenne prime: (#2)(^(#");
                push_decimal(&mut text, power);
                text.append("))-(#1)");
                facts.push(Fact::Basic(text));
                proof {
                    let e = choose|e: nat| #[trigger] pow2(e) == n@ + 1;
                    lemma_popcount_mersenne(e);
                    lemma_mersenne_exponent_unique(n@, e);
                }
            },
            None => {},
        }
    }
    assert(facts.deep_view() =~= prime_facts_for(verdict, n@));
    facts
}

/// Says whether `n` is a prime, as far as the primality test can tell, and
/// whether it is a Mersenne prime. Of a prime below two to the
/// [`BIT_LIMIT`] something is said, and what is said to be a prime for
/// certain is one.
pub fn prime(n: &Natural) -> (facts: Vec<Fact>)
    ensures
        facts.deep_view() == prime_facts(n@),
        is_prime(n@) && n@ < pow2(BIT_LIMIT as nat) ==> facts.len() > 0,
        facts.len() > 0 && facts[0]@ == FactText::Basic("Is a prime number."@) ==> is_prime(n@),
{
    if !n.fits_bit_limit() {
        let facts: Vec<Fact> = Vec::new();
        assert(facts.deep_view() =~= prime_facts(n@));
        return facts;
    }
    let verdict = gmp::is_probably_prime(n, REPETITIONS);
    let facts = prime_verdict_facts(verdict, n);
    proof {
        let said = prime_facts_for(verdict, n@);
        assert(facts.deep_view().len() == said.len());
        if facts.len() > 0 {
            assert(facts.deep_view()[0] == facts[0]@);
            if verdict is Probably {
                reveal_strlit("Is a prime number.");
                reveal_strlit("Is almost certainly a prime number.");
                assert("Is a prime number."@.len() != "Is almost certainly a prime number."@.len());
            }
        }
    }
    facts
}

} // verus!
